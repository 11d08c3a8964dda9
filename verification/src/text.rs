//! Character-level helpers on strings: equality, ordering, searching.
use vstd::prelude::*;

verus! {

/// The characters of `s`, in order.
pub fn chars_of(s: &str) -> (v: Vec<char>)
    ensures
        v@ == s@,
{
    let mut v: Vec<char> = Vec::new();
    for c in it: s.chars()
        invariant
            v@ == it.seq().subrange(0, it.index() as int),
    {
        v.push(c);
    }
    v
}

/// Whether two strings hold the same characters.
pub fn str_eq(a: &str, b: &str) -> (r: bool)
    ensures
        r == (a@ == b@),
{
    let x = chars_of(a);
    let y = chars_of(b);
    if x.len() != y.len() {
        return false;
    }
    let mut i: usize = 0;
    while i < x.len()
        invariant
            x@ == a@,
            y@ == b@,
            x.len() == y.len(),
            i <= x.len(),
            forall|j: int| 0 <= j < i ==> x@[j] == y@[j],
        decreases x.len() - i,
    {
        if x[i] != y[i] {
            return false;
        }
        i += 1;
    }
    assert(x@ =~= y@);
    true
}


/// Strict lexicographic order on strings, comparing characters by code
/// point (the order of `String`'s `Ord`, which compares UTF-8 bytes).
pub open spec fn seq_lt(a: Seq<char>, b: Seq<char>) -> bool
    decreases a.len(),
{
    if a.len() == 0 {
        b.len() > 0
    } else if b.len() == 0 {
        false
    } else if (a[0] as int) < (b[0] as int) {
        true
    } else if a[0] == b[0] {
        seq_lt(a.drop_first(), b.drop_first())
    } else {
        false
    }
}

/// The strings of `s` are strictly increasing: sorted, without repeats.
pub open spec fn strictly_sorted(s: Seq<Seq<char>>) -> bool {
    forall|i: int, j: int| 0 <= i < j < s.len() ==> seq_lt(s[i], s[j])
}

/// `seq_lt` never holds of a string and itself.
pub proof fn lemma_seq_lt_irreflexive(a: Seq<char>)
    ensures
        !seq_lt(a, a),
    decreases a.len(),
{
    if a.len() > 0 {
        lemma_seq_lt_irreflexive(a.drop_first());
    }
}

/// `seq_lt` is transitive.
pub proof fn lemma_seq_lt_transitive(a: Seq<char>, b: Seq<char>, c: Seq<char>)
    requires
        seq_lt(a, b),
        seq_lt(b, c),
    ensures
        seq_lt(a, c),
    decreases a.len(),
{
    if a.len() > 0 && b.len() > 0 && c.len() > 0 {
        if a[0] == b[0] && b[0] == c[0] {
            lemma_seq_lt_transitive(a.drop_first(), b.drop_first(), c.drop_first());
        }
    }
}

/// Of two different strings, one comes before the other.
pub proof fn lemma_seq_lt_total(a: Seq<char>, b: Seq<char>)
    ensures
        a == b || seq_lt(a, b) || seq_lt(b, a),
    decreases a.len(),
{
    if a.len() > 0 && b.len() > 0 {
        if a[0] == b[0] {
            lemma_seq_lt_total(a.drop_first(), b.drop_first());
            if a.drop_first() == b.drop_first() {
                assert(a =~= seq![a[0]] + a.drop_first());
                assert(b =~= seq![b[0]] + b.drop_first());
            }
        }
    } else if a.len() == 0 && b.len() == 0 {
        assert(a =~= b);
    }
}

/// Whether `a` comes strictly before `b` in code-point order.
pub fn str_lt(a: &str, b: &str) -> (r: bool)
    ensures
        r == seq_lt(a@, b@),
{
    let x = chars_of(a);
    let y = chars_of(b);
    let mut i: usize = 0;
    assert(a@.skip(0) =~= a@);
    assert(b@.skip(0) =~= b@);
    while i < x.len() && i < y.len()
        invariant
            x@ == a@,
            y@ == b@,
            i <= x.len(),
            i <= y.len(),
            seq_lt(a@, b@) == seq_lt(a@.skip(i as int), b@.skip(i as int)),
        decreases x.len() - i,
    {
        let cx = x[i];
        let cy = y[i];
        proof {
            assert(a@.skip(i as int)[0] == cx);
            assert(b@.skip(i as int)[0] == cy);
            assert(a@.skip(i as int).drop_first() =~= a@.skip(i + 1));
            assert(b@.skip(i as int).drop_first() =~= b@.skip(i + 1));
        }
        if cx < cy {
            return true;
        }
        if cx != cy {
            return false;
        }
        i += 1;
    }
    i < y.len()
}

/// Adds `t` to a strictly sorted list of strings, keeping it strictly
/// sorted; nothing changes when `t` is already there.
pub fn insert_sorted(v: &mut Vec<String>, t: String)
    requires
        strictly_sorted(old(v).deep_view()),
    ensures
        strictly_sorted(final(v).deep_view()),
        forall|x: Seq<char>| #[trigger]
            final(v).deep_view().contains(x) <==> (old(v).deep_view().contains(x) || x == t@),
{
    let ghost old_v = v.deep_view();
    let mut k: usize = 0;
    while k < v.len()
        invariant
            v.deep_view() == old_v,
            k <= v.len(),
            forall|j: int| 0 <= j < k ==> seq_lt(old_v[j], t@),
        ensures
            v.deep_view() == old_v,
            k <= v.len(),
            forall|j: int| 0 <= j < k ==> seq_lt(old_v[j], t@),
            k < v.len() ==> !seq_lt(old_v[k as int], t@),
        decreases v.len() - k,
    {
        if !str_lt(v[k].as_str(), t.as_str()) {
            break;
        }
        k += 1;
    }
    if k < v.len() && str_eq(v[k].as_str(), t.as_str()) {
        assert(old_v[k as int] == t@);
        assert forall|x: Seq<char>| #[trigger] v.deep_view().contains(x) <==> (old_v.contains(x)
            || x == t@) by {
            if x == t@ {
                assert(old_v[k as int] == x);
            }
        }
        return;
    }
    proof {
        if k < v.len() {
            lemma_seq_lt_total(old_v[k as int], t@);
            assert(seq_lt(t@, old_v[k as int]));
        }
    }
    let ghost tv = t@;
    v.insert(k, t);
    proof {
        let nv = v.deep_view();
        assert(nv =~= old_v.insert(k as int, tv));
        assert forall|j: int| k < j < nv.len() implies seq_lt(tv, #[trigger] nv[j]) by {
            if j > k + 1 {
                lemma_seq_lt_transitive(tv, old_v[k as int], nv[j]);
            }
        }
        assert forall|i: int, j: int| 0 <= i < j < nv.len() implies seq_lt(nv[i], nv[j]) by {
            if j < k {
            } else if j == k {
            } else if i < k {
                assert(seq_lt(tv, nv[j]));
                lemma_seq_lt_transitive(nv[i], tv, nv[j]);
            } else if i == k {
            } else {
                assert(nv[i] == old_v[i - 1]);
                assert(nv[j] == old_v[j - 1]);
            }
        }
        assert forall|x: Seq<char>| #[trigger] nv.contains(x) <==> (old_v.contains(x) || x == tv) by {
            if old_v.contains(x) {
                let i = choose|i: int| 0 <= i < old_v.len() && old_v[i] == x;
                if i < k {
                    assert(nv[i] == x);
                } else {
                    assert(nv[i + 1] == x);
                }
            }
            if x == tv {
                assert(nv[k as int] == x);
            }
        }
    }
}


/// Adds every string of `tags` to a strictly sorted list, keeping it
/// strictly sorted and free of repeats.
pub fn insert_all_sorted(v: &mut Vec<String>, tags: &Vec<String>)
    requires
        strictly_sorted(old(v).deep_view()),
    ensures
        strictly_sorted(final(v).deep_view()),
        forall|x: Seq<char>| #[trigger]
            final(v).deep_view().contains(x) <==> (old(v).deep_view().contains(x)
                || tags.deep_view().contains(x)),
{
    let ghost old_v = v.deep_view();
    let mut i: usize = 0;
    while i < tags.len()
        invariant
            i <= tags.len(),
            strictly_sorted(v.deep_view()),
            forall|x: Seq<char>| #[trigger]
                v.deep_view().contains(x) <==> (old_v.contains(x) || tags.deep_view().subrange(
                    0,
                    i as int,
                ).contains(x)),
        decreases tags.len() - i,
    {
        insert_sorted(v, tags[i].clone());
        proof {
            assert(tags.deep_view().subrange(0, i + 1) =~= tags.deep_view().subrange(
                0,
                i as int,
            ).push(tags[i as int]@));
            let pre = tags.deep_view().subrange(0, i as int);
            assert forall|x: Seq<char>| #[trigger] pre.push(tags[i as int]@).contains(x) <==> (
            pre.contains(x) || x == tags[i as int]@) by {
                if pre.push(tags[i as int]@).contains(x) {
                    let j = choose|j: int| 0 <= j < pre.len() + 1 && pre.push(tags[i as int]@)[j] == x;
                    if j < pre.len() {
                        assert(pre[j] == x);
                    }
                }
                if pre.contains(x) {
                    let j = choose|j: int| 0 <= j < pre.len() && pre[j] == x;
                    assert(pre.push(tags[i as int]@)[j] == x);
                }
                if x == tags[i as int]@ {
                    assert(pre.push(tags[i as int]@)[pre.len() as int] == x);
                }
            }
        }
        i += 1;
    }
    assert(tags.deep_view().subrange(0, tags.len() as int) =~= tags.deep_view());
}


/// Whether `v` holds a string equal to `s`.
pub fn contains_str(v: &Vec<String>, s: &str) -> (r: bool)
    ensures
        r == v.deep_view().contains(s@),
{
    let mut i: usize = 0;
    while i < v.len()
        invariant
            i <= v.len(),
            forall|j: int| 0 <= j < i ==> v.deep_view()[j] != s@,
        decreases v.len() - i,
    {
        if str_eq(v[i].as_str(), s) {
            assert(v.deep_view()[i as int] == s@);
            return true;
        }
        i += 1;
    }
    false
}


/// `suf` is a suffix of `s`.
pub open spec fn is_suffix(suf: Seq<char>, s: Seq<char>) -> bool {
    suf.len() <= s.len() && s.subrange(s.len() - suf.len(), s.len() as int) == suf
}

/// `pre` is a prefix of `s`.
pub open spec fn is_prefix(pre: Seq<char>, s: Seq<char>) -> bool {
    pre.len() <= s.len() && s.subrange(0, pre.len() as int) == pre
}

/// Whether `s` ends with `suf`.
pub fn ends_with(s: &str, suf: &str) -> (r: bool)
    ensures
        r == is_suffix(suf@, s@),
{
    let x = chars_of(s);
    let y = chars_of(suf);
    if y.len() > x.len() {
        return false;
    }
    let off = x.len() - y.len();
    let mut i: usize = 0;
    while i < y.len()
        invariant
            x@ == s@,
            y@ == suf@,
            off == x.len() - y.len(),
            i <= y.len(),
            forall|j: int| 0 <= j < i ==> x@[off + j] == y@[j],
        decreases y.len() - i,
    {
        if x[off + i] != y[i] {
            assert(s@.subrange(s@.len() - suf@.len(), s@.len() as int)[i as int] != suf@[i as int]);
            return false;
        }
        i += 1;
    }
    assert(s@.subrange(s@.len() - suf@.len(), s@.len() as int) =~= suf@);
    true
}

/// Whether `s` starts with `pre`.
pub fn starts_with(s: &str, pre: &str) -> (r: bool)
    ensures
        r == is_prefix(pre@, s@),
{
    let x = chars_of(s);
    let y = chars_of(pre);
    if y.len() > x.len() {
        return false;
    }
    let mut i: usize = 0;
    while i < y.len()
        invariant
            x@ == s@,
            y@ == pre@,
            y.len() <= x.len(),
            i <= y.len(),
            forall|j: int| 0 <= j < i ==> x@[j] == y@[j],
        decreases y.len() - i,
    {
        if x[i] != y[i] {
            assert(s@.subrange(0, pre@.len() as int)[i as int] != pre@[i as int]);
            return false;
        }
        i += 1;
    }
    assert(s@.subrange(0, pre@.len() as int) =~= pre@);
    true
}

/// Appends one character with `String::push`.
#[verifier::external_body]
pub(crate) fn push_char(s: &mut String, c: char)
    ensures
        final(s)@ == old(s)@.push(c),
{
    s.push(c);
}

/// A string made of the characters of `v`.
pub fn string_of(v: &Vec<char>) -> (r: String)
    ensures
        r@ == v@,
{
    let mut r = String::new();
    let mut i: usize = 0;
    while i < v.len()
        invariant
            i <= v.len(),
            r@ == v@.subrange(0, i as int),
        decreases v.len() - i,
    {
        push_char(&mut r, v[i]);
        assert(v@.subrange(0, i + 1) =~= v@.subrange(0, i as int).push(v@[i as int]));
        i += 1;
    }
    assert(v@.subrange(0, v.len() as int) =~= v@);
    r
}


/// What a sequence holds after a push: what it held, and the new element.
pub proof fn lemma_contains_push<A>(s: Seq<A>, x: A, y: A)
    ensures
        s.push(x).contains(y) <==> (s.contains(y) || y == x),
{
    if s.push(x).contains(y) {
        let j = choose|j: int| 0 <= j < s.push(x).len() && s.push(x)[j] == y;
        if j < s.len() {
            assert(s[j] == y);
        }
    }
    if s.contains(y) {
        let j = choose|j: int| 0 <= j < s.len() && s[j] == y;
        assert(s.push(x)[j] == y);
    }
    if y == x {
        assert(s.push(x)[s.len() as int] == y);
    }
}


/// The strings of `s` are in non-decreasing order.
pub open spec fn sorted_le(s: Seq<Seq<char>>) -> bool {
    forall|i: int, j: int| 0 <= i < j < s.len() ==> !seq_lt(s[j], s[i])
}

/// Inserting an element into a sequence adds it to the multiset.
pub proof fn lemma_insert_multiset<A>(s: Seq<A>, k: int, x: A)
    requires
        0 <= k <= s.len(),
    ensures
        s.insert(k, x).to_multiset() =~= s.to_multiset().insert(x),
{
    broadcast use vstd::seq_lib::group_to_multiset_ensures;

    let t = s.insert(k, x);
    assert(t.remove(k) =~= s);
    assert(t[k] == x);
    assert(t.to_multiset().count(x) > 0) by {
        assert(t.contains(x));
    }
    assert forall|y: A| t.to_multiset().count(y) == s.to_multiset().insert(x).count(y) by {
        if y == x {
        } else {
        }
    }
}

/// Sorts strings into non-decreasing code-point order, keeping every copy
/// (what `slice::sort` does for `String`).
pub fn sort_strings(v: Vec<String>) -> (r: Vec<String>)
    ensures
        sorted_le(r.deep_view()),
        r.deep_view().to_multiset() == v.deep_view().to_multiset(),
{
    let mut r: Vec<String> = Vec::new();
    let mut i: usize = 0;
    proof {
        broadcast use vstd::seq_lib::group_to_multiset_ensures;

        assert(v.deep_view().subrange(0, 0) =~= Seq::<Seq<char>>::empty());
        assert(r.deep_view() =~= Seq::<Seq<char>>::empty());
    }
    while i < v.len()
        invariant
            i <= v.len(),
            sorted_le(r.deep_view()),
            r.deep_view().to_multiset() == v.deep_view().subrange(0, i as int).to_multiset(),
        decreases v.len() - i,
    {
        let x = v[i].clone();
        let ghost xv = x@;
        let ghost old_r = r.deep_view();
        let mut k: usize = 0;
        while k < r.len()
            invariant
                r.deep_view() == old_r,
                xv == x@,
                k <= r.len(),
                forall|j: int| 0 <= j < k ==> !seq_lt(xv, old_r[j]),
            ensures
                r.deep_view() == old_r,
                k <= r.len(),
                forall|j: int| 0 <= j < k ==> !seq_lt(xv, old_r[j]),
                k < r.len() ==> seq_lt(xv, old_r[k as int]),
            decreases r.len() - k,
        {
            assert(r.deep_view()[k as int] == r@[k as int]@);
            if str_lt(x.as_str(), r[k].as_str()) {
                break;
            }
            k += 1;
        }
        r.insert(k, x);
        proof {
            broadcast use vstd::seq_lib::group_to_multiset_ensures;

            let nr = r.deep_view();
            assert(nr =~= old_r.insert(k as int, xv));
            assert forall|j: int| k < j < nr.len() implies seq_lt(xv, #[trigger] nr[j]) by {
                if j > k + 1 {
                    lemma_seq_lt_total(old_r[k as int], nr[j]);
                    if seq_lt(old_r[k as int], nr[j]) {
                        lemma_seq_lt_transitive(xv, old_r[k as int], nr[j]);
                    }
                }
            }
            assert forall|a: int, b: int| 0 <= a < b < nr.len() implies !seq_lt(nr[b], nr[a]) by {
                if b < k {
                } else if b == k {
                    assert(!seq_lt(xv, old_r[a]));
                } else if a < k {
                    assert(seq_lt(xv, nr[b]));
                    if seq_lt(nr[b], nr[a]) {
                        lemma_seq_lt_transitive(xv, nr[b], nr[a]);
                        assert(!seq_lt(xv, old_r[a]));
                    }
                } else if a == k {
                    assert(seq_lt(xv, nr[b]));
                    if seq_lt(nr[b], nr[a]) {
                        lemma_seq_lt_transitive(xv, nr[b], nr[a]);
                        lemma_seq_lt_irreflexive(xv);
                    }
                } else {
                    assert(nr[a] == old_r[a - 1] && nr[b] == old_r[b - 1]);
                }
            }
            lemma_insert_multiset(old_r, k as int, xv);
            assert(v.deep_view().subrange(0, i + 1) =~= v.deep_view().subrange(0, i as int).push(xv));
        }
        i += 1;
    }
    assert(v.deep_view().subrange(0, v.len() as int) =~= v.deep_view());
    r
}


/// Unicode white space (the `White_Space` property that `char::is_whitespace` tests).
pub open spec fn white_space(c: char) -> bool {
    let v = c as int;
    (9 <= v <= 13) || v == 32 || v == 0x85 || v == 0xA0 || v == 0x1680 || (0x2000 <= v <= 0x200A)
        || v == 0x2028 || v == 0x2029 || v == 0x202F || v == 0x205F || v == 0x3000
}

/// Whether `c` is Unicode white space.
pub fn is_white_space(c: char) -> (r: bool)
    ensures
        r == white_space(c),
{
    let v = c as u32;
    (9 <= v && v <= 13) || v == 32 || v == 0x85 || v == 0xA0 || v == 0x1680 || (0x2000 <= v && v
        <= 0x200A) || v == 0x2028 || v == 0x2029 || v == 0x202F || v == 0x205F || v == 0x3000
}

/// Every character of `s` is white space (so `s.trim()` is empty).
pub open spec fn blank(s: Seq<char>) -> bool {
    forall|i: int| 0 <= i < s.len() ==> #[trigger] white_space(s[i])
}

/// Whether `s` is empty once trimmed.
pub fn is_blank(s: &str) -> (r: bool)
    ensures
        r == blank(s@),
{
    let x = chars_of(s);
    let mut i: usize = 0;
    while i < x.len()
        invariant
            x@ == s@,
            i <= x.len(),
            forall|j: int| 0 <= j < i ==> #[trigger] white_space(x@[j]),
        decreases x.len() - i,
    {
        if !is_white_space(x[i]) {
            return false;
        }
        i += 1;
    }
    true
}




/// The strings of `s` joined with `sep` between them.
pub open spec fn join(s: Seq<Seq<char>>, sep: Seq<char>) -> Seq<char>
    decreases s.len(),
{
    if s.len() == 0 {
        Seq::empty()
    } else if s.len() == 1 {
        s[0]
    } else {
        join(s.drop_last(), sep) + sep + s.last()
    }
}


/// `q` occurs in `s` as a run of consecutive characters.
pub open spec fn has_substring(s: Seq<char>, q: Seq<char>) -> bool {
    exists|i: int| 0 <= i <= s.len() - q.len() && #[trigger] s.subrange(i, i + q.len()) == q
}

/// Whether `q` occurs in `s`.
pub fn contains_substring(s: &str, q: &str) -> (r: bool)
    ensures
        r == has_substring(s@, q@),
{
    let x = chars_of(s);
    let y = chars_of(q);
    if y.len() > x.len() {
        assert forall|i: int| 0 <= i <= s@.len() - q@.len() implies #[trigger] s@.subrange(i, i + q@.len()) != q@ by {
        }
        return false;
    }
    let mut i: usize = 0;
    while i <= x.len() - y.len()
        invariant
            x@ == s@,
            y@ == q@,
            y.len() <= x.len(),
            i <= x.len() - y.len() + 1,
            forall|a: int| 0 <= a < i ==> #[trigger] s@.subrange(a, a + q@.len()) != q@,
        decreases x.len() - y.len() + 1 - i,
    {
        let mut j: usize = 0;
        let mut same = true;
        while j < y.len()
            invariant
                x@ == s@,
                y@ == q@,
                i + y.len() <= x.len(),
                j <= y.len(),
                same == forall|b: int| 0 <= b < j ==> x@[i + b] == y@[b],
            decreases y.len() - j,
        {
            if x[i + j] != y[j] {
                same = false;
            }
            j += 1;
        }
        if same {
            assert(s@.subrange(i as int, i + q@.len()) =~= q@);
            return true;
        }
        proof {
            let b = choose|b: int| 0 <= b < y.len() && x@[i + b] != y@[b];
            assert(s@.subrange(i as int, i + q@.len())[b] != q@[b]);
        }
        i += 1;
    }
    false
}

/// What `str::to_lowercase` makes of a string (full Unicode lower-casing).
pub uninterp spec fn lowercase(s: Seq<char>) -> Seq<char>;

/// Lower-cases a string with `str::to_lowercase`; the result is named
/// `lowercase`.
#[verifier::external_body]
pub(crate) fn to_lowercase(s: &str) -> (r: String)
    ensures
        r@ == lowercase(s@),
{
    s.to_lowercase()
}


/// `s` cut at every `sep` (an empty string gives one empty piece).
pub open spec fn split_on(s: Seq<char>, sep: char) -> Seq<Seq<char>>
    decreases s.len(),
{
    if s.len() == 0 {
        seq![Seq::empty()]
    } else {
        let rest = split_on(s.drop_last(), sep);
        if s.last() == sep {
            rest.push(Seq::empty())
        } else {
            rest.update(rest.len() - 1, rest.last().push(s.last()))
        }
    }
}

/// `split_on` always gives at least one piece.
pub proof fn lemma_split_on_nonempty(s: Seq<char>, sep: char)
    ensures
        split_on(s, sep).len() >= 1,
    decreases s.len(),
{
    if s.len() > 0 {
        lemma_split_on_nonempty(s.drop_last(), sep);
    }
}

/// The number of white-space characters that `s` starts with.
pub open spec fn leading_space(s: Seq<char>) -> nat
    decreases s.len(),
{
    if s.len() > 0 && white_space(s[0]) {
        1 + leading_space(s.drop_first())
    } else {
        0
    }
}

/// The number of white-space characters that `s` ends with.
pub open spec fn trailing_space(s: Seq<char>) -> nat
    decreases s.len(),
{
    if s.len() > 0 && white_space(s.last()) {
        1 + trailing_space(s.drop_last())
    } else {
        0
    }
}

/// `s` without its leading and trailing white space (what `str::trim` gives).
pub open spec fn trim(s: Seq<char>) -> Seq<char> {
    let a = leading_space(s);
    if a == s.len() {
        Seq::empty()
    } else {
        s.subrange(a as int, s.len() - trailing_space(s))
    }
}

proof fn lemma_leading_space(s: Seq<char>)
    ensures
        leading_space(s) <= s.len(),
        forall|i: int| 0 <= i < leading_space(s) ==> white_space(s[i]),
        leading_space(s) < s.len() ==> !white_space(s[leading_space(s) as int]),
    decreases s.len(),
{
    if s.len() > 0 && white_space(s[0]) {
        lemma_leading_space(s.drop_first());
        assert forall|i: int| 0 <= i < leading_space(s) implies white_space(s[i]) by {
            if i > 0 {
                assert(s[i] == s.drop_first()[i - 1]);
            }
        }
    }
}

proof fn lemma_trailing_space(s: Seq<char>)
    ensures
        trailing_space(s) <= s.len(),
        forall|i: int| s.len() - trailing_space(s) <= i < s.len() ==> white_space(s[i]),
        trailing_space(s) < s.len() ==> !white_space(s[s.len() - 1 - trailing_space(s)]),
    decreases s.len(),
{
    if s.len() > 0 && white_space(s.last()) {
        lemma_trailing_space(s.drop_last());
        assert forall|i: int| s.len() - trailing_space(s) <= i < s.len() implies white_space(s[i]) by {
            if i < s.len() - 1 {
                assert(s[i] == s.drop_last()[i]);
            }
        }
    }
}

/// `s` with leading and trailing white space removed.
pub fn trim_str(s: &Vec<char>) -> (r: Vec<char>)
    ensures
        r@ == trim(s@),
{
    proof {
        lemma_leading_space(s@);
        lemma_trailing_space(s@);
    }
    let mut a: usize = 0;
    while a < s.len() && is_white_space(s[a])
        invariant
            a <= s.len(),
            forall|i: int| 0 <= i < a ==> white_space(s@[i]),
            leading_space(s@) <= s@.len(),
            forall|i: int| 0 <= i < leading_space(s@) ==> white_space(s@[i]),
            leading_space(s@) < s@.len() ==> !white_space(s@[leading_space(s@) as int]),
            a <= leading_space(s@),
        decreases s.len() - a,
    {
        a += 1;
    }
    assert(a == leading_space(s@));
    if a == s.len() {
        return Vec::new();
    }
    let mut b: usize = s.len();
    while b > a && is_white_space(s[b - 1])
        invariant
            a < s.len(),
            a <= b <= s.len(),
            a == leading_space(s@),
            !white_space(s@[a as int]),
            trailing_space(s@) <= s@.len(),
            forall|i: int| s@.len() - trailing_space(s@) <= i < s@.len() ==> white_space(s@[i]),
            trailing_space(s@) < s@.len() ==> !white_space(s@[s@.len() - 1 - trailing_space(s@)]),
            s.len() - b <= trailing_space(s@),
        decreases b,
    {
        b -= 1;
    }
    assert(b == s.len() - trailing_space(s@));
    let mut r: Vec<char> = Vec::new();
    let mut k: usize = a;
    while k < b
        invariant
            a <= k <= b,
            b <= s.len(),
            r@ == s@.subrange(a as int, k as int),
        decreases b - k,
    {
        r.push(s[k]);
        assert(r@ =~= s@.subrange(a as int, k + 1));
        k += 1;
    }
    r
}

/// The non-empty pieces of a comma-separated list, each trimmed.
pub open spec fn comma_list(s: Seq<char>) -> Seq<Seq<char>> {
    split_on(s, ',').map_values(|p: Seq<char>| trim(p)).filter(|p: Seq<char>| p.len() > 0)
}

/// `x` cut at every `sep`, as `split_on` describes.
pub fn split_chars(x: &Vec<char>, sep: char) -> (r: Vec<Vec<char>>)
    ensures
        r@.map_values(|v: Vec<char>| v@) == split_on(x@, sep),
{
    let mut pieces: Vec<Vec<char>> = Vec::new();
    let mut cur: Vec<char> = Vec::new();
    let mut i: usize = 0;
    assert(x@.subrange(0, 0) =~= Seq::<char>::empty());
    while i < x.len()
        invariant
            i <= x.len(),
            pieces@.map_values(|v: Vec<char>| v@).push(cur@) == split_on(x@.subrange(0, i as int), sep),
        decreases x.len() - i,
    {
        let ghost before = pieces@.map_values(|v: Vec<char>| v@).push(cur@);
        proof {
            assert(x@.subrange(0, i + 1).drop_last() =~= x@.subrange(0, i as int));
            assert(x@.subrange(0, i + 1).last() == x@[i as int]);
        }
        if x[i] == sep {
            let done = cur;
            pieces.push(done);
            cur = Vec::new();
            assert(pieces@.map_values(|v: Vec<char>| v@).push(cur@) =~= before.push(Seq::empty()));
        } else {
            cur.push(x[i]);
            assert(pieces@.map_values(|v: Vec<char>| v@).push(cur@) =~= before.update(before.len() - 1, before.last().push(x@[i as int])));
        }
        i += 1;
    }
    assert(x@.subrange(0, x.len() as int) =~= x@);
    pieces.push(cur);
    pieces
}

/// Splits a comma-separated list, trims each piece and drops the empty ones.
pub fn split_list(s: &str) -> (r: Vec<String>)
    ensures
        r.deep_view() == comma_list(s@),
{
    let x = chars_of(s);
    let pieces = split_chars(&x, ',');
    let ghost all = pieces@.map_values(|v: Vec<char>| v@);
    assert(all == split_on(s@, ','));
    let ghost tp = |p: Seq<char>| trim(p);
    let ghost ne = |p: Seq<char>| p.len() > 0;
    let mut r: Vec<String> = Vec::new();
    let mut k: usize = 0;
    while k < pieces.len()
        invariant
            k <= pieces@.len(),
            all == pieces@.map_values(|v: Vec<char>| v@),
            tp == (|p: Seq<char>| trim(p)),
            ne == (|p: Seq<char>| p.len() > 0),
            r.deep_view() == all.subrange(0, k as int).map_values(tp).filter(ne),
        decreases pieces@.len() - k,
    {
        let t = trim_str(&pieces[k]);
        proof {
            let s0 = all.subrange(0, k as int);
            assert(all.subrange(0, k + 1) =~= s0.push(all[k as int]));
            assert(s0.push(all[k as int]).map_values(tp) =~= s0.map_values(tp).push(tp(all[k as int])));
            s0.map_values(tp).lemma_filter_push(tp(all[k as int]), ne);
        }
        let ghost before = r.deep_view();
        if t.len() > 0 {
            r.push(string_of(&t));
            assert(r.deep_view() =~= before.push(t@));
        }
        k += 1;
    }
    assert(all.subrange(0, pieces@.len() as int) =~= all);
    r
}

} // verus!
