//! Node IDs: generating fresh ones and resolving what users type.
use vstd::prelude::*;

use crate::model::{ids_of, lookup, Graph, Node};
use crate::text::{ends_with, is_suffix, push_char};

verus! {

/// The base62 digit `i`: `0-9`, then `A-Z`, then `a-z`.
pub open spec fn b62(i: int) -> char {
    if i < 10 {
        (48 + i) as char
    } else if i < 36 {
        (55 + i) as char
    } else {
        (61 + i) as char
    }
}

/// The base62 digit `i`.
pub fn b62_char(i: usize) -> (c: char)
    requires
        i < 62,
    ensures
        c == b62(i as int),
{
    if i < 10 {
        (48u8 + i as u8) as char
    } else if i < 36 {
        (55u8 + i as u8) as char
    } else {
        (61u8 + i as u8) as char
    }
}


/// How many times `generate` draws an ID before giving up.
pub const MAX_RETRIES: usize = 10;

/// Why an ID could not be generated or resolved.
#[derive(Debug)]
pub enum IdError {
    /// No node has this ID, and no node's ID ends with `.` and it.
    NoMatch(String),
    /// No node has this ID, and several end with `.` and it (all listed).
    Ambiguous(String, Vec<String>),
    /// Every drawn ID was already taken.
    Exhausted,
}

/// The segment built from four draws: each draw, modulo 62, picks a base62 digit.
pub open spec fn segment_of(draws: Seq<usize>) -> Seq<char> {
    Seq::new(4, |i: int| b62((draws[i] % 62) as int))
}

/// The ID built from four draws: the segment alone for a root, or the
/// parent's ID, a dot and the segment.
pub open spec fn id_of_draws(parent: Option<Seq<char>>, draws: Seq<usize>) -> Seq<char> {
    match parent {
        Some(p) => p + seq!['.'] + segment_of(draws),
        None => segment_of(draws),
    }
}

/// A base62 digit: `0-9`, `A-Z` or `a-z`.
pub open spec fn is_b62_digit(c: char) -> bool {
    (48 <= c as int <= 57) || (65 <= c as int <= 90) || (97 <= c as int <= 122)
}

/// A four-digit base62 segment.
pub open spec fn is_segment(s: Seq<char>) -> bool {
    s.len() == 4 && forall|i: int| 0 <= i < 4 ==> #[trigger] is_b62_digit(s[i])
}

/// An ID as `generate` makes them: a segment, under the parent when there is one.
pub open spec fn is_generated_id(parent: Option<Seq<char>>, id: Seq<char>) -> bool {
    match parent {
        Some(p) => id.len() == p.len() + 5 && id.subrange(0, p.len() as int) == p && id[p.len() as int]
            == '.' && is_segment(id.subrange(p.len() as int + 1, id.len() as int)),
        None => is_segment(id),
    }
}

/// An optional string slice, by its characters.
pub open spec fn opt_str(o: Option<&str>) -> Option<Seq<char>> {
    match o {
        Some(s) => Some(s@),
        None => None,
    }
}

/// The ID spelt by four draws under `parent`.
pub fn id_from_draws(parent: Option<&str>, draws: &Vec<usize>) -> (r: String)
    requires
        draws.len() == 4,
    ensures
        r@ == id_of_draws(opt_str(parent), draws@),
        is_generated_id(opt_str(parent), r@),
{
    let mut r = String::new();
    match parent {
        Some(p) => {
            r = p.to_string();
            push_char(&mut r, '.');
        },
        None => {},
    }
    let ghost start = r@;
    let mut i: usize = 0;
    while i < 4
        invariant
            draws.len() == 4,
            i <= 4,
            r@ == start + segment_of(draws@).subrange(0, i as int),
        decreases 4 - i,
    {
        let c = b62_char(draws[i] % 62);
        push_char(&mut r, c);
        assert(segment_of(draws@).subrange(0, i + 1) =~= segment_of(draws@).subrange(0, i as int).push(c));
        i += 1;
    }
    proof {
        let seg = segment_of(draws@);
        assert(seg.subrange(0, 4) =~= seg);
        assert forall|i: int| 0 <= i < 4 implies #[trigger] is_b62_digit(seg[i]) by {
            assert(seg[i] == b62((draws@[i] % 62) as int));
        }
        match parent {
            Some(p) => {
                assert(r@ =~= p@ + seq!['.'] + seg);
                assert(r@.subrange(0, p@.len() as int) =~= p@);
                assert(r@.subrange(p@.len() as int + 1, r@.len() as int) =~= seg);
            },
            None => {
                assert(r@ =~= seg);
            },
        }
    }
    r
}

/// Draws a random `usize` with `rand::random`. Nothing is promised of the value.
#[verifier::external_body]
fn random_draw() -> usize {
    rand::random::<usize>()
}

/// The first of `rounds`, from round `k` on, whose ID under `parent` is not
/// in `existing`; `None` when every one of them is taken.
pub open spec fn first_fresh(
    parent: Option<Seq<char>>,
    existing: Seq<Seq<char>>,
    rounds: Seq<Seq<usize>>,
    k: int,
) -> Option<Seq<char>>
    decreases rounds.len() - k,
{
    if k < 0 || k >= rounds.len() {
        None
    } else if !existing.contains(id_of_draws(parent, rounds[k])) {
        Some(id_of_draws(parent, rounds[k]))
    } else {
        first_fresh(parent, existing, rounds, k + 1)
    }
}

/// Picks the ID of the first round of draws that `existing` does not hold:
/// `Exhausted` exactly when every round gives a taken ID.
pub fn pick_fresh(parent: Option<&str>, existing: &Vec<String>, rounds: &Vec<Vec<usize>>) -> (r: Result<
    String,
    IdError,
>)
    requires
        rounds.len() == MAX_RETRIES,
        forall|i: int| 0 <= i < rounds.len() ==> (#[trigger] rounds[i]).len() == 4,
    ensures
        match r {
            Ok(id) => first_fresh(opt_str(parent), existing.deep_view(), rounds.deep_view(), 0) == Some(id@)
                && is_generated_id(opt_str(parent), id@),
            Err(e) => e is Exhausted && first_fresh(opt_str(parent), existing.deep_view(), rounds.deep_view(), 0) is None,
        },
{
    let ghost par = opt_str(parent);
    let ghost ex = existing.deep_view();
    let ghost rs = rounds.deep_view();
    let mut attempt: usize = 0;
    while attempt < rounds.len()
        invariant
            attempt <= rounds.len(),
            rounds.len() == MAX_RETRIES,
            forall|i: int| 0 <= i < rounds.len() ==> (#[trigger] rounds[i]).len() == 4,
            par == opt_str(parent),
            ex == existing.deep_view(),
            rs == rounds.deep_view(),
            first_fresh(par, ex, rs, 0) == first_fresh(par, ex, rs, attempt as int),
        decreases rounds.len() - attempt,
    {
        let full = id_from_draws(parent, &rounds[attempt]);
        assert(rs[attempt as int] == rounds@[attempt as int]@);
        if !crate::text::contains_str(existing, full.as_str()) {
            return Ok(full);
        }
        attempt += 1;
    }
    Err(IdError::Exhausted)
}

/// `MAX_RETRIES` rounds of four random draws each.
pub(crate) fn draw_rounds() -> (rounds: Vec<Vec<usize>>)
    ensures
        rounds.len() == MAX_RETRIES,
        forall|i: int| 0 <= i < rounds.len() ==> (#[trigger] rounds[i]).len() == 4,
{
    let mut rounds: Vec<Vec<usize>> = Vec::new();
    let mut attempt: usize = 0;
    while attempt < MAX_RETRIES
        invariant
            attempt <= MAX_RETRIES,
            rounds.len() == attempt,
            forall|i: int| 0 <= i < rounds.len() ==> (#[trigger] rounds[i]).len() == 4,
        decreases MAX_RETRIES - attempt,
    {
        let mut draws: Vec<usize> = Vec::new();
        let mut k: usize = 0;
        while k < 4
            invariant
                k <= 4,
                draws.len() == k,
            decreases 4 - k,
        {
            draws.push(random_draw());
            k += 1;
        }
        rounds.push(draws);
        attempt += 1;
    }
    rounds
}

/// Generates a fresh ID: a random four-digit base62 segment (under the
/// parent's ID when there is a parent) that `existing` does not hold,
/// trying up to `MAX_RETRIES` rounds of draws. Which ID comes out rests on
/// the draws; `pick_fresh` states what each set of draws gives.
pub fn generate(parent: Option<&str>, existing: &Vec<String>) -> (r: Result<String, IdError>)
    ensures
        match r {
            Ok(id) => is_generated_id(opt_str(parent), id@) && !existing.deep_view().contains(id@),
            Err(e) => e is Exhausted,
        },
        (forall|k: int| 0 <= k < existing@.len() ==> !is_generated_id(opt_str(parent), #[trigger] existing@[k]@))
            ==> r is Ok,
{
    let rounds = draw_rounds();
    let r = pick_fresh(parent, existing, &rounds);
    proof {
        if forall|k: int| 0 <= k < existing@.len() ==> !is_generated_id(opt_str(parent), #[trigger] existing@[k]@) {
            let ev = existing.deep_view();
            assert forall|k: int| 0 <= k < ev.len() implies !is_generated_id(opt_str(parent), #[trigger] ev[k]) by {
                assert(ev[k] == existing@[k]@);
            }
            assert(rounds.deep_view()[0] == rounds@[0]@);
            lemma_first_fresh_free_when_none_generated(opt_str(parent), ev, rounds.deep_view());
        }
        if r is Ok {
            lemma_first_fresh_free(opt_str(parent), existing.deep_view(), rounds.deep_view(), 0);
        }
    }
    r
}

/// What `first_fresh` picks for a root is a generated root ID, when every
/// round holds four draws.
pub proof fn lemma_first_fresh_generated(existing: Seq<Seq<char>>, rounds: Seq<Seq<usize>>, k: int)
    requires
        forall|i: int| 0 <= i < rounds.len() ==> (#[trigger] rounds[i]).len() == 4,
    ensures
        first_fresh(None, existing, rounds, k) matches Some(id) ==> is_generated_id(None, id),
    decreases rounds.len() - k,
{
    if 0 <= k < rounds.len() {
        if existing.contains(id_of_draws(None, rounds[k])) {
            lemma_first_fresh_generated(existing, rounds, k + 1);
        } else {
            let seg = segment_of(rounds[k]);
            assert forall|i: int| 0 <= i < 4 implies #[trigger] is_b62_digit(seg[i]) by {
                assert(seg[i] == b62((rounds[k][i] % 62) as int));
            }
        }
    }
}

/// The ID that four draws spell is a generated ID.
pub proof fn lemma_draws_generated(parent: Option<Seq<char>>, draws: Seq<usize>)
    requires
        draws.len() == 4,
    ensures
        is_generated_id(parent, id_of_draws(parent, draws)),
{
    let seg = segment_of(draws);
    assert forall|i: int| 0 <= i < 4 implies #[trigger] is_b62_digit(seg[i]) by {
        assert(seg[i] == b62((draws[i] % 62) as int));
    }
    if let Some(p) = parent {
        let id = id_of_draws(parent, draws);
        assert(id.subrange(0, p.len() as int) =~= p);
        assert(id.subrange(p.len() as int + 1, id.len() as int) =~= seg);
    } else {
        assert(id_of_draws(parent, draws) =~= seg);
    }
}

/// When no ID in `existing` has the shape a draw gives, the first round
/// already gives a free ID.
pub proof fn lemma_first_fresh_free_when_none_generated(
    parent: Option<Seq<char>>,
    existing: Seq<Seq<char>>,
    rounds: Seq<Seq<usize>>,
)
    requires
        rounds.len() > 0,
        rounds[0].len() == 4,
        forall|k: int| 0 <= k < existing.len() ==> !is_generated_id(parent, #[trigger] existing[k]),
    ensures
        first_fresh(parent, existing, rounds, 0) is Some,
{
    lemma_draws_generated(parent, rounds[0]);
    if existing.contains(id_of_draws(parent, rounds[0])) {
        let k = choose|k: int| 0 <= k < existing.len() && existing[k] == id_of_draws(parent, rounds[0]);
        assert(!is_generated_id(parent, existing[k]));
    }
}

/// What `first_fresh` picks is not in `existing`.
pub proof fn lemma_first_fresh_free(
    parent: Option<Seq<char>>,
    existing: Seq<Seq<char>>,
    rounds: Seq<Seq<usize>>,
    k: int,
)
    ensures
        first_fresh(parent, existing, rounds, k) matches Some(id) ==> !existing.contains(id),
    decreases rounds.len() - k,
{
    if 0 <= k < rounds.len() && existing.contains(id_of_draws(parent, rounds[k])) {
        lemma_first_fresh_free(parent, existing, rounds, k + 1);
    }
}

/// The IDs that end with a dot followed by `partial`.
pub open spec fn suffix_matches(nodes: Seq<Node>, partial: Seq<char>) -> Seq<Seq<char>> {
    ids_of(nodes.filter(|n: Node| is_suffix(seq!['.'] + partial, n.id@)))
}

/// What `partial` resolves to: itself when a node has exactly that ID,
/// otherwise the one ID ending with a dot and `partial`, if there is
/// exactly one.
pub open spec fn resolves_to(nodes: Seq<Node>, partial: Seq<char>) -> Option<Seq<char>> {
    if lookup(nodes, partial) is Some {
        Some(partial)
    } else if suffix_matches(nodes, partial).len() == 1 {
        Some(suffix_matches(nodes, partial)[0])
    } else {
        None
    }
}

/// Resolve a possibly-short id (leaf segment) to a full id.
/// Exact match wins. Otherwise matches any node whose id ends with ".<partial>".
pub fn resolve(graph: &Graph, partial: &str) -> (r: Result<String, IdError>)
    ensures
        match r {
            Ok(id) => resolves_to(graph.nodes@, partial@) == Some(id@),
            Err(IdError::NoMatch(p)) => p@ == partial@ && lookup(graph.nodes@, partial@) is None
                && suffix_matches(graph.nodes@, partial@).len() == 0,
            Err(IdError::Ambiguous(p, ms)) => p@ == partial@ && lookup(graph.nodes@, partial@) is None
                && ms.deep_view() == suffix_matches(graph.nodes@, partial@)
                && ms.len() > 1,
            Err(IdError::Exhausted) => false,
        },
{
    if graph.get_node(partial).is_some() {
        return Ok(partial.to_string());
    }
    let mut suffix = String::new();
    push_char(&mut suffix, '.');
    suffix.append(partial);
    let ghost pred = |n: Node| is_suffix(seq!['.'] + partial@, n.id@);
    assert(suffix@ =~= seq!['.'] + partial@);
    let mut matches: Vec<String> = Vec::new();
    let mut i: usize = 0;
    while i < graph.nodes.len()
        invariant
            i <= graph.nodes@.len(),
            suffix@ == seq!['.'] + partial@,
            pred == (|n: Node| is_suffix(seq!['.'] + partial@, n.id@)),
            matches.deep_view() == ids_of(graph.nodes@.subrange(0, i as int).filter(pred)),
        decreases graph.nodes@.len() - i,
    {
        let n = &graph.nodes[i];
        proof {
            assert(graph.nodes@.subrange(0, i + 1) == graph.nodes@.subrange(0, i as int).push(
                graph.nodes@[i as int],
            ));
            graph.nodes@.subrange(0, i as int).lemma_filter_push(graph.nodes@[i as int], pred);
        }
        let ghost before = matches.deep_view();
        if ends_with(n.id.as_str(), suffix.as_str()) {
            matches.push(n.id.clone());
            assert(matches.deep_view() =~= before.push(n.id@));
        }
        assert(matches.deep_view() =~= ids_of(graph.nodes@.subrange(0, i + 1).filter(pred)));
        i += 1;
    }
    assert(graph.nodes@.subrange(0, graph.nodes@.len() as int) == graph.nodes@);
    if matches.len() == 0 {
        Err(IdError::NoMatch(partial.to_string()))
    } else if matches.len() == 1 {
        let m = matches[0].clone();
        Ok(m)
    } else {
        Err(IdError::Ambiguous(partial.to_string(), matches))
    }
}

} // verus!
