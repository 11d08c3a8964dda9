//! What the queries and the history report, stated over the edges, states
//! and fields they read.
use vstd::prelude::*;

use crate::db::{
    held_by, is_ready_row, is_stale, ordered_selection, part_in_use, part_names, therapy_rows, PartEntry,
    TherapyNode, TherapyReason,
};
use crate::history::{field_changes, shown, shown_change, FieldView};
use crate::json::{json_equal, json_member};
use crate::model::{
    ancestors_of, has_open_blocker, is_open_blocker, lemma_node_index, lemma_node_index_same_ids, lookup,
    node_index, open_blocker_other, ov, Edge, EdgeType, Graph, Node, State,
};
use crate::clock::Timestamp;
use crate::ops::{
    auto_surfaced, blocked_by, blocking_ancestor, integrate_outcome, integrated_at, made_ready, picked, Integrated, blockers_spec, blocks_from, blocks_into, edge_source, edge_target,
    first_blocked,
};

verus! {

/// `s + t` holds what `s` or `t` holds.
proof fn lemma_concat_has<A>(s: Seq<A>, t: Seq<A>, x: A)
    ensures
        (s.contains(x) || t.contains(x)) ==> (s + t).contains(x),
{
    if s.contains(x) {
        let i = choose|i: int| 0 <= i < s.len() && s[i] == x;
        assert((s + t)[i] == x);
    } else if t.contains(x) {
        let i = choose|i: int| 0 <= i < t.len() && t[i] == x;
        assert((s + t)[s.len() + i] == x);
    }
}

/// The nodes that `id` blocks are exactly the targets of the `blocks`
/// edges out of it: an edge of another type (related, waits-for,
/// discovered-from) never counts.
pub proof fn law_blocked_by_follows_blocks_edges(edges: Seq<Edge>, id: Seq<char>, y: Seq<char>)
    ensures
        blocked_by(edges, id).contains(y) <==> exists|k: int|
            0 <= k < edges.len() && edges[k].from@ == id && edges[k].to@ == y && edges[k].edge_type
                == EdgeType::Blocks,
{
    let p = blocks_from(id);
    let f = edges.filter(p);
    let m = f.map_values(edge_target());
    assert(blocked_by(edges, id) == m);
    if m.contains(y) {
        let j = choose|j: int| 0 <= j < m.len() && m[j] == y;
        edges.lemma_filter_pred(p, j);
        assert(f.contains(f[j]));
        edges.lemma_filter_contains_rev(p, f[j]);
        let k = choose|k: int| 0 <= k < edges.len() && edges[k] == f[j];
        assert(edges[k].from@ == id && edges[k].to@ == y && edges[k].edge_type == EdgeType::Blocks);
    }
    if exists|k: int|
        0 <= k < edges.len() && edges[k].from@ == id && edges[k].to@ == y && edges[k].edge_type
            == EdgeType::Blocks {
        let k = choose|k: int|
            0 <= k < edges.len() && edges[k].from@ == id && edges[k].to@ == y && edges[k].edge_type
                == EdgeType::Blocks;
        edges.lemma_filter_contains(p, k);
        let j = choose|j: int| 0 <= j < f.len() && f[j] == edges[k];
        assert(m[j] == y);
    }
}

/// The nodes that block `id` are exactly the sources of the `blocks` edges
/// into it.
pub proof fn law_blockers_are_blocks_sources(edges: Seq<Edge>, id: Seq<char>, x: Seq<char>)
    ensures
        blockers_spec(edges, id).contains(x) <==> exists|k: int|
            0 <= k < edges.len() && edges[k].to@ == id && edges[k].from@ == x && edges[k].edge_type
                == EdgeType::Blocks,
{
    let p = blocks_into(id);
    let f = edges.filter(p);
    let m = f.map_values(edge_source());
    assert(blockers_spec(edges, id) == m);
    if m.contains(x) {
        let j = choose|j: int| 0 <= j < m.len() && m[j] == x;
        edges.lemma_filter_pred(p, j);
        assert(f.contains(f[j]));
        edges.lemma_filter_contains_rev(p, f[j]);
        let k = choose|k: int| 0 <= k < edges.len() && edges[k] == f[j];
        assert(edges[k].to@ == id && edges[k].from@ == x && edges[k].edge_type == EdgeType::Blocks);
    }
    if exists|k: int|
        0 <= k < edges.len() && edges[k].to@ == id && edges[k].from@ == x && edges[k].edge_type
            == EdgeType::Blocks {
        let k = choose|k: int|
            0 <= k < edges.len() && edges[k].to@ == id && edges[k].from@ == x && edges[k].edge_type
                == EdgeType::Blocks;
        edges.lemma_filter_contains(p, k);
        let j = choose|j: int| 0 <= j < f.len() && f[j] == edges[k];
        assert(m[j] == x);
    }
}

/// Integrating `id` surfaces a node only when a `blocks` edge runs from
/// `id` to it and it is latent: nodes that `id` reaches only through
/// related, waits-for or discovered-from edges are never surfaced.
pub proof fn law_integrate_surfaces_only_blocks_targets(nodes: Seq<Node>, edges: Seq<Edge>, id: Seq<char>, y: Seq<char>)
    ensures
        auto_surfaced(nodes, edges, id).contains(y) ==> {
            &&& exists|k: int|
                0 <= k < edges.len() && edges[k].from@ == id && edges[k].to@ == y && edges[k].edge_type
                    == EdgeType::Blocks
            &&& lookup(nodes, y) matches Some(n) && n.state == State::Latent
        },
{
    if auto_surfaced(nodes, edges, id).contains(y) {
        let b = blocked_by(edges, id);
        let j = choose|j: int| 0 <= j < auto_surfaced(nodes, edges, id).len() && auto_surfaced(nodes, edges, id)[j] == y;
        b.lemma_filter_pred(crate::ops::freed_by(nodes, edges, id), j);
        assert(b.filter(crate::ops::freed_by(nodes, edges, id)).contains(y));
        b.lemma_filter_contains_rev(crate::ops::freed_by(nodes, edges, id), y);
        law_blocked_by_follows_blocks_edges(edges, id, y);
    }
}

/// A chain in which some ID has an open blocker has a first such ID.
proof fn lemma_first_blocked_found(nodes: Seq<Node>, edges: Seq<Edge>, chain: Seq<Seq<char>>, i: int)
    requires
        0 <= i < chain.len(),
        has_open_blocker(nodes, edges, chain[i]),
    ensures
        first_blocked(nodes, edges, chain) is Some,
    decreases chain.len(),
{
    if !has_open_blocker(nodes, edges, chain[0]) {
        assert(i > 0);
        assert(chain.drop_first()[i - 1] == chain[i]);
        lemma_first_blocked_found(nodes, edges, chain.drop_first(), i - 1);
    }
}

/// A `blocks` edge from a live node that is not integrated (latent, ready
/// or claimed) holds back its target and every node below it: none of
/// them is in the ready list, and claiming one is refused as blocked.
pub proof fn law_unintegrated_blocker_holds_back(nodes: Seq<Node>, edges: Seq<Edge>, k: int, n: Node)
    requires
        0 <= k < edges.len(),
        edges[k].edge_type == EdgeType::Blocks,
        lookup(nodes, edges[k].from@) matches Some(b) && b.state != State::Integrated,
        n.id@ == edges[k].to@ || ancestors_of(nodes, n.id@).contains(edges[k].to@),
    ensures
        blocking_ancestor(nodes, edges, n.id@) is Some,
        !is_ready_row(nodes, edges, n),
{
    let t = edges[k].to@;
    assert(is_open_blocker(nodes, edges[k], t));
    assert(open_blocker_other(nodes, edges, t, None));
    let c = seq![n.id@] + ancestors_of(nodes, n.id@);
    if n.id@ == t {
        assert(c[0] == t);
        lemma_first_blocked_found(nodes, edges, c, 0);
    } else {
        let a = ancestors_of(nodes, n.id@);
        let i = choose|i: int| 0 <= i < a.len() && a[i] == t;
        assert(c[i + 1] == t);
        lemma_first_blocked_found(nodes, edges, c, i + 1);
    }
}

/// A node file whose state, title, part, shadowed flag or parent differs
/// between two versions shows that field as changed, from the shown old
/// value to the shown new one.
pub proof fn law_changed_fields_are_reported(
    before: serde_json::Value,
    after: serde_json::Value,
    key: Seq<char>,
)
    requires
        key == "state"@ || key == "title"@ || key == "part"@ || key == "shadowed"@ || key == "parent"@,
        !json_equal(json_member(before, key), json_member(after, key)),
    ensures
        field_changes(before, after).contains(
            (
                key,
                FieldView::Shown(shown(json_member(before, key))),
                FieldView::Shown(shown(json_member(after, key))),
            ),
        ),
{
    let x = (key, FieldView::Shown(shown(json_member(before, key))), FieldView::Shown(shown(json_member(after, key))));
    let s1 = shown_change(before, after, "state"@);
    let s2 = shown_change(before, after, "title"@);
    let s3 = shown_change(before, after, "part"@);
    let s4 = shown_change(before, after, "shadowed"@);
    let s5 = shown_change(before, after, "parent"@);
    assert(shown_change(before, after, key) == seq![x]);
    assert(shown_change(before, after, key)[0] == x);
    lemma_concat_has(s1, s2, x);
    lemma_concat_has(s1 + s2, s3, x);
    lemma_concat_has(s1 + s2 + s3, s4, x);
    lemma_concat_has(s1 + s2 + s3 + s4, s5, x);
    assert((s1 + s2 + s3 + s4 + s5).len() > 0);
}

/// Every row that the therapy list gives as stale is a claimed node whose
/// last update lies more than a day before `now`; and every such claimed
/// node (with times SQLite can show) is listed as stale.
pub proof fn law_stale_rows_are_claimed(
    nodes: Seq<Node>,
    now: Timestamp,
    rows: Seq<TherapyNode>,
    stale: Seq<usize>,
    shadowed: Seq<usize>,
)
    requires
        nodes.len() <= usize::MAX,
        ordered_selection(nodes, |n: Node| is_stale(n, now), stale),
        ordered_selection(nodes, |n: Node| n.shadowed, shadowed),
        therapy_rows(nodes, stale, rows.subrange(0, stale.len() as int), TherapyReason::Stale),
        therapy_rows(nodes, shadowed, rows.subrange(stale.len() as int, rows.len() as int), TherapyReason::Shadowed),
        rows.len() == stale.len() + shadowed.len(),
    ensures
        forall|k: int|
            0 <= k < rows.len() && rows[k].reason == TherapyReason::Stale ==> exists|j: int|
                0 <= j < nodes.len() && nodes[j].id@ == rows[k].id@ && nodes[j].state == State::Claimed
                    && nodes[j].updated_at == rows[k].updated_at && rows[k].updated_at.secs < now.secs - 86400,
        forall|j: int|
            0 <= j < nodes.len() && nodes[j].state == State::Claimed && -62167219200 <= nodes[j].updated_at.secs
                <= 253402300799 && -62167219200 <= now.secs - 86400 <= 253402300799
                && nodes[j].updated_at.secs < now.secs - 86400 ==> exists|k: int|
                0 <= k < rows.len() && rows[k].id@ == nodes[j].id@ && rows[k].reason == TherapyReason::Stale,
{
    let sr = rows.subrange(0, stale.len() as int);
    let hr = rows.subrange(stale.len() as int, rows.len() as int);
    assert forall|k: int|
        0 <= k < rows.len() && rows[k].reason == TherapyReason::Stale implies exists|j: int|
            0 <= j < nodes.len() && nodes[j].id@ == rows[k].id@ && nodes[j].state == State::Claimed
                && nodes[j].updated_at == rows[k].updated_at && rows[k].updated_at.secs < now.secs - 86400 by {
        if k >= stale.len() {
            assert(hr[k - stale.len()] == rows[k]);
            assert(hr[k - stale.len()].reason == TherapyReason::Shadowed);
        } else {
            assert(sr[k] == rows[k]);
            let j = stale[k] as int;
            assert(stale.contains(stale[k]));
            assert(is_stale(nodes[j], now));
        }
    }
    assert forall|j: int|
        0 <= j < nodes.len() && nodes[j].state == State::Claimed && -62167219200 <= nodes[j].updated_at.secs
            <= 253402300799 && -62167219200 <= now.secs - 86400 <= 253402300799
            && nodes[j].updated_at.secs < now.secs - 86400 implies exists|k: int|
            0 <= k < rows.len() && rows[k].id@ == nodes[j].id@ && rows[k].reason == TherapyReason::Stale by {
        assert(is_stale(nodes[j], now));
        assert(stale.contains(j as usize));
        let k = choose|k: int| 0 <= k < stale.len() && stale[k] == j as usize;
        assert(sr[k] == rows[k]);
        assert(stale[k] as int == j);
        assert(sr[k].id@ == nodes[stale[k] as int].id@);
        assert(rows[k].id@ == nodes[j].id@ && rows[k].reason == TherapyReason::Stale);
    }
}

/// A part is in the parts summary only while some node it holds is
/// claimed, and its count is the number of claimed nodes it holds: nodes
/// it once claimed that are now integrated (or in any other state) do not
/// count.
pub proof fn law_parts_count_claimed_nodes(nodes: Seq<Node>, r: Seq<PartEntry>)
    requires
        forall|p: Seq<char>| #[trigger] part_names(r).contains(p) <==> part_in_use(nodes, p),
        forall|k: int|
            #![trigger r[k]]
            0 <= k < r.len() ==> r[k].count == nodes.filter(|n: Node| held_by(n, r[k].part@)).len(),
    ensures
        forall|p: Seq<char>| #[trigger] part_names(r).contains(p) ==> exists|i: int|
            0 <= i < nodes.len() && nodes[i].state == State::Claimed && ov(nodes[i].part) == Some(p),
        forall|k: int|
            0 <= k < r.len() ==> #[trigger] r[k].count == nodes.filter(
                |n: Node| n.state == State::Claimed && ov(n.part) == Some(r[k].part@),
            ).len(),
{
    assert forall|k: int| 0 <= k < r.len() implies #[trigger] r[k].count == nodes.filter(
        |n: Node| n.state == State::Claimed && ov(n.part) == Some(r[k].part@),
    ).len() by {
        let p = r[k].part@;
        assert((|n: Node| held_by(n, p)) =~= (|n: Node| n.state == State::Claimed && ov(n.part) == Some(p)));
    }
}

/// Integrating node `i` changes no other node but the latent targets of
/// `blocks` edges out of it, which become ready: a node that `i` reaches
/// only through related, waits-for or discovered-from edges keeps its state.
pub proof fn law_integrate_changes_only_blocks_targets(
    old: Graph,
    new: Graph,
    id: Seq<char>,
    reason: Option<Seq<char>>,
    out: Integrated,
    j: int,
)
    requires
        node_index(old.nodes@, id) >= 0,
        integrate_outcome(old, new, id, reason, out),
        0 <= j < old.nodes@.len(),
        j != node_index(old.nodes@, id),
        new.nodes@[j] != old.nodes@[j],
    ensures
        old.nodes@[j].state == State::Latent,
        new.nodes@[j].state == State::Ready,
        exists|k: int|
            0 <= k < old.edges@.len() && old.edges@[k].from@ == id && old.edges@[k].to@ == old.nodes@[j].id@
                && old.edges@[k].edge_type == EdgeType::Blocks,
{
    let i = node_index(old.nodes@, id);
    let auto = auto_surfaced(old.nodes@, old.edges@, id);
    let mid = choose|mid: Seq<Node>|
        #[trigger] integrated_at(old.nodes@, mid, i, reason) && made_ready(mid, new.nodes@, auto, None);
    assert(mid[j] == old.nodes@[j]);
    assert(picked(mid, auto, j));
    let y = mid[j].id@;
    assert forall|q: int| 0 <= q < mid.len() implies #[trigger] mid[q].id@ == old.nodes@[q].id@ by {
        if q != i {
            assert(mid[q] == old.nodes@[q]);
        }
    }
    lemma_node_index_same_ids(mid, old.nodes@, y);
    law_integrate_surfaces_only_blocks_targets(old.nodes@, old.edges@, id, y);
    lemma_node_index(old.nodes@, y);
}

} // verus!
