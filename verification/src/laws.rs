//! Properties of the library that span several operations.
use vstd::prelude::*;

use crate::model::{
    Graph,
    ancestors_of, ancestry_finite, blocks_step, chain, ends_within, has_effective_tag, has_open_blocker,
    hierarchy_finite, ids_of, is_blocks_path, is_open_blocker, is_unblocked_latent,
    lemma_ancestors_unfold, lemma_node_index, lemma_node_index_same_ids, node_index, own_tags, ov,
    lookup, open_blocker_other, parent_of, reaches, surfaceable, Edge, EdgeType, Node, State,
    descendants_of, height_within, is_child_of, kids, lemma_kid_height, lemma_next_level_height,
    levels_from, next_level, subtree_finite,
};
use crate::ops::{
    auto_surfaced, blocked_by, edge_added, edge_outcome, freed_by, integrated_at, made_ready, picked, replaces_node, same_edge,
    other_than, tag_outcome, touched, untag_outcome,
};
use crate::id::{resolves_to, suffix_matches};

verus! {

/// No node reaches itself again along one or more `blocks` edges.
pub open spec fn blocks_acyclic(edges: Seq<Edge>) -> bool {
    forall|x: Seq<char>, y: Seq<char>| #[trigger] blocks_step(edges, x, y) ==> !reaches(edges, y, x)
}

/// Reaching is transitive.
pub proof fn lemma_reaches_trans(edges: Seq<Edge>, u: Seq<char>, v: Seq<char>, w: Seq<char>)
    requires
        reaches(edges, u, v),
        reaches(edges, v, w),
    ensures
        reaches(edges, u, w),
{
    let p = choose|p: Seq<Seq<char>>| #[trigger] is_blocks_path(edges, p) && p[0] == u && p.last() == v;
    let q = choose|q: Seq<Seq<char>>| #[trigger] is_blocks_path(edges, q) && q[0] == v && q.last() == w;
    let c = p + q.drop_first();
    assert forall|i: int| 0 <= i < c.len() - 1 implies #[trigger] blocks_step(edges, c[i], c[i + 1]) by {
        if i < p.len() - 1 {
            assert(c[i] == p[i] && c[i + 1] == p[i + 1]);
            assert(blocks_step(edges, p[i], p[i + 1]));
        } else {
            let j = i - p.len() + 1;
            assert(c[i] == q[j]);
            assert(c[i + 1] == q[j + 1]);
            assert(blocks_step(edges, q[j], q[j + 1]));
        }
    }
    assert(is_blocks_path(edges, c));
    assert(c[0] == u);
    if q.len() == 1 {
        assert(c =~= p);
    } else {
        assert(c.last() == q.last());
    }
}

/// A walk along old edges is a walk from its first to its last node.
proof fn lemma_path_reaches(edges: Seq<Edge>, p: Seq<Seq<char>>)
    requires
        is_blocks_path(edges, p),
    ensures
        reaches(edges, p[0], p.last()),
{
}

/// The `blocks` steps after adding an edge are the old ones and the new one.
proof fn lemma_step_added(old: Seq<Edge>, new: Seq<Edge>, a: Seq<char>, b: Seq<char>, x: Seq<char>, y: Seq<char>)
    requires
        edge_added(old, new, a, b, EdgeType::Blocks),
        blocks_step(new, x, y),
    ensures
        blocks_step(old, x, y) || (x == a && y == b),
{
    if !(exists|k: int| 0 <= k < old.len() && #[trigger] same_edge(old[k], a, b, EdgeType::Blocks)) {
        let k = choose|k: int|
            0 <= k < new.len() && new[k].from@ == x && new[k].to@ == y && new[k].edge_type
                == EdgeType::Blocks;
        if k < old.len() {
            assert(new[k] == new.subrange(0, old.len() as int)[k]);
        }
    }
}

/// A walk after adding the edge either uses only old edges, or it has a
/// first use of the new edge, before which it is an old walk.
proof fn lemma_first_use(old: Seq<Edge>, new: Seq<Edge>, a: Seq<char>, b: Seq<char>, p: Seq<Seq<char>>)
    requires
        edge_added(old, new, a, b, EdgeType::Blocks),
        is_blocks_path(new, p),
    ensures
        is_blocks_path(old, p) || exists|i: int|
            0 <= i < p.len() - 1 && p[i] == a && #[trigger] is_blocks_path(old, p.subrange(0, i + 1)),
    decreases p.len(),
{
    if p.len() > 1 && !is_blocks_path(old, p) {
        let q = p.drop_last();
        assert forall|i: int| 0 <= i < q.len() - 1 implies #[trigger] blocks_step(new, q[i], q[i + 1]) by {
            assert(blocks_step(new, p[i], p[i + 1]));
        }
        lemma_first_use(old, new, a, b, q);
        if is_blocks_path(old, q) {
            let i = p.len() - 2;
            assert(blocks_step(new, p[i], p[i + 1]));
            lemma_step_added(old, new, a, b, p[i], p[i + 1]);
            if blocks_step(old, p[i], p[i + 1]) {
                assert forall|j: int| 0 <= j < p.len() - 1 implies #[trigger] blocks_step(old, p[j], p[j + 1]) by {
                    if j < i {
                        assert(blocks_step(old, q[j], q[j + 1]));
                    }
                }
            } else {
                assert(p.subrange(0, i + 1) =~= q);
            }
        } else {
            let i = choose|i: int| 0 <= i < q.len() - 1 && q[i] == a && #[trigger] is_blocks_path(old, q.subrange(0, i + 1));
            assert(q.subrange(0, i + 1) =~= p.subrange(0, i + 1));
        }
    }
}

/// A walk after adding the edge either uses only old edges, or it has a
/// last use of the new edge, after which it is an old walk.
proof fn lemma_last_use(old: Seq<Edge>, new: Seq<Edge>, a: Seq<char>, b: Seq<char>, p: Seq<Seq<char>>)
    requires
        edge_added(old, new, a, b, EdgeType::Blocks),
        is_blocks_path(new, p),
    ensures
        is_blocks_path(old, p) || exists|i: int|
            0 < i < p.len() && p[i] == b && #[trigger] is_blocks_path(old, p.subrange(i, p.len() as int)),
    decreases p.len(),
{
    if p.len() > 1 && !is_blocks_path(old, p) {
        let q = p.drop_first();
        assert forall|i: int| 0 <= i < q.len() - 1 implies #[trigger] blocks_step(new, q[i], q[i + 1]) by {
            assert(blocks_step(new, p[i + 1], p[(i + 1) + 1]));
        }
        lemma_last_use(old, new, a, b, q);
        if is_blocks_path(old, q) {
            assert(blocks_step(new, p[0int], p[0int + 1]));
            lemma_step_added(old, new, a, b, p[0], p[1]);
            if blocks_step(old, p[0], p[1]) {
                assert forall|j: int| 0 <= j < p.len() - 1 implies #[trigger] blocks_step(old, p[j], p[j + 1]) by {
                    if j > 0 {
                        assert(blocks_step(old, q[j - 1], q[j]));
                    }
                }
            } else {
                assert(p.subrange(1, p.len() as int) =~= q);
            }
        } else {
            let i = choose|i: int| 0 < i < q.len() && q[i] == b && #[trigger] is_blocks_path(old, q.subrange(i, q.len() as int));
            assert(q.subrange(i, q.len() as int) =~= p.subrange(i + 1, p.len() as int));
        }
    }
}

/// Adding a `blocks` edge from `a` to `b`, where `b` does not already reach
/// `a` (the check that `block` makes), keeps the blocks edges free of cycles.
pub proof fn law_block_keeps_acyclic(old: Seq<Edge>, new: Seq<Edge>, a: Seq<char>, b: Seq<char>)
    requires
        blocks_acyclic(old),
        !reaches(old, b, a),
        edge_added(old, new, a, b, EdgeType::Blocks),
    ensures
        blocks_acyclic(new),
{
    assert forall|x: Seq<char>, y: Seq<char>| #[trigger] blocks_step(new, x, y) implies !reaches(new, y, x) by {
        if reaches(new, y, x) {
            let p = choose|p: Seq<Seq<char>>| #[trigger] is_blocks_path(new, p) && p[0] == y && p.last() == x;
            lemma_step_added(old, new, a, b, x, y);
            lemma_first_use(old, new, a, b, p);
            lemma_last_use(old, new, a, b, p);
            if is_blocks_path(old, p) {
                lemma_path_reaches(old, p);
                if !blocks_step(old, x, y) {
                    assert(reaches(old, b, a));
                }
            } else {
                let i = choose|i: int| 0 <= i < p.len() - 1 && p[i] == a && #[trigger] is_blocks_path(old, p.subrange(0, i + 1));
                let j = choose|j: int| 0 < j < p.len() && p[j] == b && #[trigger] is_blocks_path(old, p.subrange(j, p.len() as int));
                let pre = p.subrange(0, i + 1);
                let suf = p.subrange(j, p.len() as int);
                lemma_path_reaches(old, pre);
                lemma_path_reaches(old, suf);
                assert(pre[0] == y && pre.last() == a);
                assert(suf[0] == b && suf.last() == x);
                if blocks_step(old, x, y) {
                    crate::model::lemma_reaches_refl(old, x);
                    crate::model::lemma_reaches_step(old, x, x, y);
                    lemma_reaches_trans(old, b, x, y);
                    lemma_reaches_trans(old, b, y, a);
                } else {
                    assert(y == b && x == a);
                }
            }
        }
    }
}

/// A parent's effective tags are effective tags of each child: tags flow
/// down the hierarchy.
pub proof fn law_tags_inherited(nodes: Seq<Node>, child: Seq<char>, parent: Seq<char>, t: Seq<char>)
    requires
        ancestry_finite(nodes, child),
        parent_of(nodes, child) == Some(parent),
        has_effective_tag(nodes, parent, t),
    ensures
        has_effective_tag(nodes, child, t),
{
    lemma_ancestors_unfold(nodes, child);
    let anc = ancestors_of(nodes, child);
    let up = ancestors_of(nodes, parent);
    assert(anc == seq![parent] + up);
    if own_tags(nodes, parent).contains(t) {
        assert(anc[0] == parent);
        assert(own_tags(nodes, anc[0]).contains(t));
    } else {
        let k = choose|k: int| 0 <= k < up.len() && #[trigger] own_tags(nodes, up[k]).contains(t);
        assert(anc[k + 1] == up[k]);
        assert(own_tags(nodes, anc[k + 1]).contains(t));
    }
}

/// Claiming a ready node and then releasing it leaves it as it was, but
/// for its part (cleared), its `updated_at` and its recorded reason.
pub proof fn law_unclaim_undoes_claim(
    n0: Node,
    n1: Node,
    n2: Node,
    r1: Option<Seq<char>>,
    r2: Option<Seq<char>>,
)
    requires
        n0.state == State::Ready,
        touched(n0, n1, Node { state: State::Claimed, part: n1.part, ..n0 }, r1),
        n2.part is None,
        touched(n1, n2, Node { state: State::Ready, part: n2.part, ..n1 }, r2),
    ensures
        n2 == (Node { part: None, updated_at: n2.updated_at, meta: n2.meta, ..n0 }),
{
}

/// `ends_within` only grows with more fuel.
proof fn lemma_ends_within_more(nodes: Seq<Node>, z: Seq<char>, a: nat, b: nat)
    requires
        ends_within(nodes, z, a),
        a <= b,
    ensures
        ends_within(nodes, z, b),
    decreases a,
{
    if let Some(p) = parent_of(nodes, z) {
        lemma_ends_within_more(nodes, p, (a - 1) as nat, (b - 1) as nat);
    }
}

/// Changing only the parent of node `i` (the first with its ID) changes
/// only the parent that ID has.
proof fn lemma_parent_after_reparent(old: Seq<Node>, new: Seq<Node>, i: int, z: Seq<char>)
    requires
        0 <= i < old.len(),
        node_index(old, old[i].id@) == i,
        new == old.update(i, new[i]),
        new[i].id@ == old[i].id@,
    ensures
        z != old[i].id@ ==> parent_of(new, z) == parent_of(old, z),
        z == old[i].id@ ==> parent_of(new, z) == ov(new[i].parent),
{
    assert forall|q: int| 0 <= q < old.len() implies #[trigger] old[q].id@ == new[q].id@ by {
        if q != i {
            assert(new[q] == old[q]);
        }
    }
    lemma_node_index_same_ids(old, new, z);
    lemma_node_index(old, z);
    let j = node_index(old, z);
    if j >= 0 && j != i {
        assert(new[j] == old[j]);
    }
}

/// A parent chain that ends without passing through the moved node ends
/// the same way after the move.
proof fn lemma_chain_avoiding(old: Seq<Node>, new: Seq<Node>, i: int, z: Seq<char>, f: nat)
    requires
        0 <= i < old.len(),
        node_index(old, old[i].id@) == i,
        new == old.update(i, new[i]),
        new[i].id@ == old[i].id@,
        ends_within(old, z, f),
        z != old[i].id@,
        !chain(old, z, f).contains(old[i].id@),
    ensures
        ends_within(new, z, f),
    decreases f,
{
    lemma_parent_after_reparent(old, new, i, z);
    if let Some(p) = parent_of(old, z) {
        let c = chain(old, z, f);
        assert(c == seq![p] + chain(old, p, (f - 1) as nat));
        assert(c[0] == p);
        let up = chain(old, p, (f - 1) as nat);
        assert forall|k: int| 0 <= k < up.len() implies #[trigger] up[k] != old[i].id@ by {
            assert(c[k + 1] == up[k]);
        }
        lemma_chain_avoiding(old, new, i, p, (f - 1) as nat);
    }
}

/// Once the moved node's chain ends within `big`, every chain that ended
/// within `f` before the move ends within `f + big` after it.
proof fn lemma_chain_through(old: Seq<Node>, new: Seq<Node>, i: int, z: Seq<char>, f: nat, big: nat)
    requires
        0 <= i < old.len(),
        node_index(old, old[i].id@) == i,
        new == old.update(i, new[i]),
        new[i].id@ == old[i].id@,
        ends_within(new, old[i].id@, big),
        ends_within(old, z, f),
    ensures
        ends_within(new, z, f + big),
    decreases f,
{
    lemma_parent_after_reparent(old, new, i, z);
    if z == old[i].id@ {
        lemma_ends_within_more(new, z, big, f + big);
    } else if let Some(p) = parent_of(old, z) {
        lemma_chain_through(old, new, i, p, (f - 1) as nat, big);
    }
}

/// Moving a node under a target that is neither the node nor one of its
/// descendants (the check that `move` makes), or to the root level, keeps
/// every parent chain finite: the hierarchy stays free of cycles.
pub proof fn law_move_keeps_hierarchy_finite(old: Seq<Node>, new: Seq<Node>, i: int)
    requires
        hierarchy_finite(old),
        0 <= i < old.len(),
        node_index(old, old[i].id@) == i,
        new == old.update(i, new[i]),
        new[i].id@ == old[i].id@,
        ov(new[i].parent) matches Some(pid) ==> pid != old[i].id@ && !ancestors_of(old, pid).contains(
            old[i].id@,
        ),
    ensures
        hierarchy_finite(new),
{
    let x = old[i].id@;
    lemma_parent_after_reparent(old, new, i, x);
    let big: nat = match ov(new[i].parent) {
        None => 0,
        Some(pid) => {
            assert(ancestry_finite(old, pid));
            let fp = choose|n: nat| ends_within(old, pid, n);
            assert(ancestors_of(old, pid) == chain(old, pid, fp));
            lemma_chain_avoiding(old, new, i, pid, fp);
            fp + 1
        },
    };
    assert(ends_within(new, x, big));
    assert forall|z: Seq<char>| #[trigger] ancestry_finite(new, z) by {
        assert(ancestry_finite(old, z));
        let fz = choose|n: nat| ends_within(old, z, n);
        lemma_chain_through(old, new, i, z, fz, big);
    }
}


/// After surfacing every latent node that nothing blocks, no latent node is
/// left unblocked: a second `surface --all` surfaces nothing. (Node IDs are
/// distinct, as in a loaded graph.)
pub proof fn law_surface_all_settles(old: Seq<Node>, new: Seq<Node>, edges: Seq<Edge>, reason: Option<Seq<char>>)
    requires
        forall|a: int, b: int| 0 <= a < b < old.len() ==> old[a].id@ != old[b].id@,
        made_ready(old, new, ids_of(old.filter(surfaceable(old, edges))), reason),
    ensures
        forall|j: int| 0 <= j < new.len() ==> !is_unblocked_latent(new, edges, #[trigger] new[j]),
{
    let ids = ids_of(old.filter(surfaceable(old, edges)));
    assert forall|q: int| 0 <= q < old.len() implies #[trigger] old[q].id@ == new[q].id@ by {
        if picked(old, ids, q) {
            assert(touched(old[q], new[q], Node { state: State::Ready, ..old[q] }, reason));
        } else {
            assert(new[q] == old[q]);
        }
    }
    assert forall|j: int| 0 <= j < new.len() implies !is_unblocked_latent(new, edges, #[trigger] new[j]) by {
        let n = old[j];
        lemma_node_index(old, n.id@);
        assert(node_index(old, n.id@) == j) by {
            if node_index(old, n.id@) < j {
                let i = node_index(old, n.id@);
                assert(old[i].id@ == n.id@);
            }
        }
        if picked(old, ids, j) {
            assert(touched(old[j], new[j], Node { state: State::Ready, ..old[j] }, reason));
        } else if n.state == State::Latent {
            assert(new[j] == n);
            assert(!ids.contains(n.id@));
            if !has_open_blocker(old, edges, n.id@) {
                let f = old.filter(surfaceable(old, edges));
                old.filter_lemma(surfaceable(old, edges));
                assert(surfaceable(old, edges)(n));
                old.lemma_filter_contains(surfaceable(old, edges), j);
                let m = choose|m: int| 0 <= m < f.len() && f[m] == n;
                assert(ids[m] == n.id@);
                assert(ids.contains(n.id@));
            }
            let k = choose|k: int| 0 <= k < edges.len() && #[trigger] is_open_blocker(old, edges[k], n.id@) && None::<Seq<char>> != Some(edges[k].from@);
            let b = edges[k].from@;
            lemma_node_index_same_ids(old, new, b);
            lemma_node_index(old, b);
            let p = node_index(old, b);
            assert(p >= 0);
            if picked(old, ids, p) {
                assert(touched(old[p], new[p], Node { state: State::Ready, ..old[p] }, reason));
            } else {
                assert(new[p] == old[p]);
            }
            assert(is_open_blocker(new, edges[k], n.id@));
            assert(has_open_blocker(new, edges, new[j].id@));
        }
    }
}

/// A `blocks` target becomes ready on its own only once its blockers are
/// integrated: after `integrate`, no node it surfaced has a blocker that is
/// not integrated. (Node IDs are distinct, as in a loaded graph; and the
/// integrated node is not among those it surfaces, which a latent node
/// blocking itself would be.)
pub proof fn law_integrate_surfaces_only_unblocked(
    old: Seq<Node>,
    mid: Seq<Node>,
    new: Seq<Node>,
    edges: Seq<Edge>,
    id: Seq<char>,
    reason: Option<Seq<char>>,
)
    requires
        forall|a: int, b: int| 0 <= a < b < old.len() ==> old[a].id@ != old[b].id@,
        node_index(old, id) >= 0,
        integrated_at(old, mid, node_index(old, id), reason),
        made_ready(mid, new, auto_surfaced(old, edges, id), None),
        !auto_surfaced(old, edges, id).contains(id),
    ensures
        forall|q: int|
            0 <= q < auto_surfaced(old, edges, id).len() ==> !has_open_blocker(
                new,
                edges,
                #[trigger] auto_surfaced(old, edges, id)[q],
            ),
{
    let i = node_index(old, id);
    let auto = auto_surfaced(old, edges, id);
    assert(old[i].id@ == mid[i].id@) by {
        assert(touched(old[i], mid[i], Node { state: State::Integrated, ..old[i] }, reason));
    }
    assert forall|q: int| 0 <= q < old.len() implies #[trigger] old[q].id@ == mid[q].id@ by {
        if q != i {
            assert(mid[q] == old[q]);
        }
    }
    assert forall|q: int| 0 <= q < mid.len() implies #[trigger] mid[q].id@ == new[q].id@ by {
        if picked(mid, auto, q) {
            assert(touched(mid[q], new[q], Node { state: State::Ready, ..mid[q] }, None));
        } else {
            assert(new[q] == mid[q]);
        }
    }
    blocked_by(edges, id).filter_lemma(freed_by(old, edges, id));
    assert forall|q: int| 0 <= q < auto.len() implies !has_open_blocker(new, edges, #[trigger] auto[q]) by {
        let y = auto[q];
        assert(freed_by(old, edges, id)(y));
        if has_open_blocker(new, edges, y) {
            let k = choose|k: int| 0 <= k < edges.len() && #[trigger] is_open_blocker(new, edges[k], y) && None::<Seq<char>> != Some(edges[k].from@);
            let b = edges[k].from@;
            lemma_node_index_same_ids(old, mid, b);
            lemma_node_index_same_ids(mid, new, b);
            lemma_node_index(old, b);
            let p = node_index(old, b);
            assert(p >= 0);
            if b == id {
                assert(p == i);
                assert(mid[i].state == State::Integrated) by {
                    assert(touched(old[i], mid[i], Node { state: State::Integrated, ..old[i] }, reason));
                }
                if picked(mid, auto, i) {
                    assert(auto.contains(mid[i].id@));
                    assert(false);
                } else {
                    assert(new[i] == mid[i]);
                }
            } else {
                assert(old[p].id@ == b);
                lemma_node_index(old, id);
                assert(p != i);
                assert(mid[p] == old[p]);
                assert(lookup(old, b) == Some(old[p]));
                assert(is_open_blocker(old, edges[k], y)) by {
                    if picked(mid, auto, p) {
                        assert(touched(mid[p], new[p], Node { state: State::Ready, ..mid[p] }, None));
                        let r = choose|r: int| 0 <= r < auto.len() && auto[r] == mid[p].id@;
                        assert(freed_by(old, edges, id)(auto[r]));
                        assert(auto[r] == b);
                        assert(old[p].state == State::Latent);
                    } else {
                        assert(new[p] == mid[p]);
                    }
                }
                assert(open_blocker_other(old, edges, y, Some(id)));
            }
        }
    }
}

/// The nodes `d + 1` parent links below `a`: its children at `d = 0`, their
/// children at `d = 1`, and so on.
pub open spec fn level(nodes: Seq<Node>, a: Seq<char>, d: nat) -> Seq<Node>
    decreases d,
{
    if d == 0 {
        kids(nodes, a)
    } else {
        next_level(nodes, level(nodes, a, (d - 1) as nat))
    }
}

proof fn lemma_concat_contains(s: Seq<Node>, t: Seq<Node>, x: Node)
    ensures
        (s + t).contains(x) <==> s.contains(x) || t.contains(x),
{
    if (s + t).contains(x) {
        let i = choose|i: int| 0 <= i < (s + t).len() && (s + t)[i] == x;
        if i < s.len() {
            assert(s[i] == x);
        } else {
            assert(t[i - s.len()] == x);
        }
    }
    if s.contains(x) {
        let i = choose|i: int| 0 <= i < s.len() && s[i] == x;
        assert((s + t)[i] == x);
    }
    if t.contains(x) {
        let i = choose|i: int| 0 <= i < t.len() && t[i] == x;
        assert((s + t)[s.len() + i] == x);
    }
}

proof fn lemma_kids_contains(nodes: Seq<Node>, id: Seq<char>, x: Node)
    ensures
        kids(nodes, id).contains(x) <==> nodes.contains(x) && is_child_of(x, id),
{
    let p = |n: Node| is_child_of(n, id);
    if kids(nodes, id).contains(x) {
        nodes.lemma_filter_contains_rev(p, x);
    }
    if nodes.contains(x) && is_child_of(x, id) {
        let i = choose|i: int| 0 <= i < nodes.len() && nodes[i] == x;
        nodes.lemma_filter_contains(p, i);
    }
}

proof fn lemma_next_level_contains(nodes: Seq<Node>, l: Seq<Node>, x: Node)
    ensures
        next_level(nodes, l).contains(x) <==> exists|j: int|
            0 <= j < l.len() && #[trigger] kids(nodes, l[j].id@).contains(x),
    decreases l.len(),
{
    if l.len() > 0 {
        let pre = l.drop_last();
        lemma_next_level_contains(nodes, pre, x);
        lemma_concat_contains(next_level(nodes, pre), kids(nodes, l.last().id@), x);
        if exists|j: int| 0 <= j < pre.len() && #[trigger] kids(nodes, pre[j].id@).contains(x) {
            let j = choose|j: int| 0 <= j < pre.len() && #[trigger] kids(nodes, pre[j].id@).contains(x);
            assert(l[j] == pre[j]);
        }
        if exists|j: int| 0 <= j < l.len() && #[trigger] kids(nodes, l[j].id@).contains(x) {
            let j = choose|j: int| 0 <= j < l.len() && #[trigger] kids(nodes, l[j].id@).contains(x);
            if j < l.len() - 1 {
                assert(pre[j] == l[j]);
            }
        }
    }
}

proof fn lemma_levels_contains(nodes: Seq<Node>, a: Seq<char>, d: nat, g: nat, x: Node)
    ensures
        levels_from(nodes, level(nodes, a, d), g).contains(x) <==> exists|e: nat|
            d <= e < d + g && #[trigger] level(nodes, a, e).contains(x),
    decreases g,
{
    if g > 0 {
        let l = level(nodes, a, d);
        assert(next_level(nodes, l) == level(nodes, a, d + 1));
        lemma_levels_contains(nodes, a, d + 1, (g - 1) as nat, x);
        lemma_concat_contains(l, levels_from(nodes, level(nodes, a, d + 1), (g - 1) as nat), x);
        if exists|e: nat| d <= e < d + g && #[trigger] level(nodes, a, e).contains(x) {
            let e = choose|e: nat| d <= e < d + g && #[trigger] level(nodes, a, e).contains(x);
            if e > d {
                assert(d + 1 <= e < d + 1 + (g - 1));
            }
        }
    }
}

/// Below a subtree of height `f`, level `d` holds nodes of height
/// `f - 1 - d`, and is empty from `d = f` on.
proof fn lemma_level_height(nodes: Seq<Node>, a: Seq<char>, f: nat, d: nat)
    requires
        height_within(nodes, a, f),
    ensures
        d < f ==> forall|i: int|
            0 <= i < level(nodes, a, d).len() ==> height_within(
                nodes,
                #[trigger] level(nodes, a, d)[i].id@,
                (f - 1 - d) as nat,
            ),
        d >= f ==> level(nodes, a, d).len() == 0,
    decreases d,
{
    if d == 0 {
        let ks = kids(nodes, a);
        if ks.len() > 0 {
            lemma_kid_height(nodes, a, f, ks[0]);
        }
        assert forall|i: int| 0 <= i < ks.len() implies height_within(nodes, #[trigger] ks[i].id@, (f - 1) as nat) by {
            lemma_kid_height(nodes, a, f, ks[i]);
        }
    } else {
        lemma_level_height(nodes, a, f, (d - 1) as nat);
        let prev = level(nodes, a, (d - 1) as nat);
        if d - 1 < f {
            lemma_next_level_height(nodes, prev, (f - d) as nat);
        } else {
            assert(prev.len() == 0);
            assert(next_level(nodes, prev) == Seq::<Node>::empty());
        }
    }
}

proof fn lemma_level_in_nodes(nodes: Seq<Node>, a: Seq<char>, d: nat, x: Node)
    requires
        level(nodes, a, d).contains(x),
    ensures
        nodes.contains(x),
    decreases d,
{
    if d == 0 {
        lemma_kids_contains(nodes, a, x);
    } else {
        lemma_next_level_contains(nodes, level(nodes, a, (d - 1) as nat), x);
        let l = level(nodes, a, (d - 1) as nat);
        let j = choose|j: int| 0 <= j < l.len() && #[trigger] kids(nodes, l[j].id@).contains(x);
        lemma_kids_contains(nodes, l[j].id@, x);
    }
}

/// With distinct IDs, a node's recorded parent is the parent its ID has.
proof fn lemma_parent_of_node(nodes: Seq<Node>, x: Node)
    requires
        forall|a: int, b: int| 0 <= a < b < nodes.len() ==> nodes[a].id@ != nodes[b].id@,
        nodes.contains(x),
    ensures
        lookup(nodes, x.id@) == Some(x),
        parent_of(nodes, x.id@) == ov(x.parent),
{
    let k = choose|k: int| 0 <= k < nodes.len() && nodes[k] == x;
    lemma_node_index(nodes, x.id@);
    let i = node_index(nodes, x.id@);
    assert(i >= 0) by {
        if i < 0 {
            assert(nodes[k].id@ == x.id@);
        }
    }
    assert(i == k) by {
        if i < k {
            assert(nodes[i].id@ == nodes[k].id@);
        } else if i > k {
            assert(nodes[k].id@ != x.id@);
        }
    }
}

proof fn lemma_level_ancestor(nodes: Seq<Node>, a: Seq<char>, d: nat, x: Node)
    requires
        forall|p: int, q: int| 0 <= p < q < nodes.len() ==> nodes[p].id@ != nodes[q].id@,
        hierarchy_finite(nodes),
        level(nodes, a, d).contains(x),
    ensures
        ancestors_of(nodes, x.id@).contains(a),
    decreases d,
{
    lemma_level_in_nodes(nodes, a, d, x);
    lemma_parent_of_node(nodes, x);
    lemma_ancestors_unfold(nodes, x.id@);
    let anc = ancestors_of(nodes, x.id@);
    if d == 0 {
        lemma_kids_contains(nodes, a, x);
        assert(anc[0] == a);
    } else {
        let l = level(nodes, a, (d - 1) as nat);
        lemma_next_level_contains(nodes, l, x);
        let j = choose|j: int| 0 <= j < l.len() && #[trigger] kids(nodes, l[j].id@).contains(x);
        lemma_kids_contains(nodes, l[j].id@, x);
        assert(l.contains(l[j]));
        lemma_level_ancestor(nodes, a, (d - 1) as nat, l[j]);
        let up = ancestors_of(nodes, l[j].id@);
        let m = choose|m: int| 0 <= m < up.len() && up[m] == a;
        assert(anc == seq![l[j].id@] + up);
        assert(anc[m + 1] == a);
    }
}

proof fn lemma_ancestor_level(nodes: Seq<Node>, a: Seq<char>, x: Node, m: nat)
    requires
        forall|p: int, q: int| 0 <= p < q < nodes.len() ==> nodes[p].id@ != nodes[q].id@,
        hierarchy_finite(nodes),
        nodes.contains(x),
        m < ancestors_of(nodes, x.id@).len(),
        ancestors_of(nodes, x.id@)[m as int] == a,
    ensures
        level(nodes, a, m).contains(x),
    decreases m,
{
    lemma_parent_of_node(nodes, x);
    lemma_ancestors_unfold(nodes, x.id@);
    let p = x.parent->0@;
    assert(parent_of(nodes, x.id@) == Some(p));
    if m == 0 {
        assert(is_child_of(x, a));
        lemma_kids_contains(nodes, a, x);
    } else {
        lemma_ancestors_unfold(nodes, p);
        let up = ancestors_of(nodes, p);
        assert(up[m - 1] == a);
        assert(parent_of(nodes, p) is Some);
        let y = lookup(nodes, p)->0;
        lemma_node_index(nodes, p);
        assert(nodes[node_index(nodes, p)] == y);
        assert(nodes.contains(y));
        lemma_ancestor_level(nodes, a, y, (m - 1) as nat);
        let l = level(nodes, a, (m - 1) as nat);
        let j = choose|j: int| 0 <= j < l.len() && l[j] == y;
        lemma_kids_contains(nodes, y.id@, x);
        assert(kids(nodes, l[j].id@).contains(x));
        lemma_next_level_contains(nodes, l, x);
    }
}

/// A node is a descendant of `a` exactly when `a` is one of its ancestors:
/// walking down the children and walking up the parents agree. (Node IDs
/// are distinct and the hierarchy is finite, as in a loaded graph.)
pub proof fn law_descendants_match_ancestors(nodes: Seq<Node>, a: Seq<char>, x: Node)
    requires
        forall|p: int, q: int| 0 <= p < q < nodes.len() ==> nodes[p].id@ != nodes[q].id@,
        hierarchy_finite(nodes),
        subtree_finite(nodes, a),
        nodes.contains(x),
    ensures
        descendants_of(nodes, a).contains(x) <==> ancestors_of(nodes, x.id@).contains(a),
{
    let f = choose|f: nat| height_within(nodes, a, f);
    assert(descendants_of(nodes, a) == levels_from(nodes, level(nodes, a, 0), f));
    lemma_levels_contains(nodes, a, 0, f, x);
    if descendants_of(nodes, a).contains(x) {
        let e = choose|e: nat| 0 <= e < 0 + f && #[trigger] level(nodes, a, e).contains(x);
        lemma_level_ancestor(nodes, a, e, x);
    }
    if ancestors_of(nodes, x.id@).contains(a) {
        let anc = ancestors_of(nodes, x.id@);
        let m = choose|m: int| 0 <= m < anc.len() && anc[m] == a;
        lemma_ancestor_level(nodes, a, x, m as nat);
        lemma_level_height(nodes, a, f, m as nat);
        assert(level(nodes, a, m as nat).len() > 0);
        assert(0 <= m < 0 + f);
        assert(level(nodes, a, m as nat).contains(x));
    }
}

/// Keeping the same ID at every position keeps which IDs a filter on IDs
/// picks.
proof fn lemma_ids_filter_same(a: Seq<Node>, b: Seq<Node>, suffix: Seq<char>)
    requires
        a.len() == b.len(),
        forall|q: int| 0 <= q < a.len() ==> #[trigger] a[q].id@ == b[q].id@,
    ensures
        ids_of(a.filter(|n: Node| crate::text::is_suffix(suffix, n.id@)))
            == ids_of(b.filter(|n: Node| crate::text::is_suffix(suffix, n.id@))),
    decreases a.len(),
{
    let p = |n: Node| crate::text::is_suffix(suffix, n.id@);
    if a.len() > 0 {
        let a0 = a.drop_last();
        let b0 = b.drop_last();
        assert forall|q: int| 0 <= q < a0.len() implies #[trigger] a0[q].id@ == b0[q].id@ by {
            assert(a[q].id@ == b[q].id@);
        }
        lemma_ids_filter_same(a0, b0, suffix);
        assert(a0.push(a.last()) =~= a);
        assert(b0.push(b.last()) =~= b);
        a0.lemma_filter_push(a.last(), p);
        b0.lemma_filter_push(b.last(), p);
        assert(a.last().id@ == b.last().id@);
        if p(a.last()) {
            assert(ids_of(a0.filter(p).push(a.last())) =~= ids_of(a0.filter(p)).push(a.last().id@));
            assert(ids_of(b0.filter(p).push(b.last())) =~= ids_of(b0.filter(p)).push(b.last().id@));
        }
    } else {
        assert(a.filter(p) =~= Seq::<Node>::empty());
        assert(b.filter(p) =~= Seq::<Node>::empty());
    }
}

/// A graph whose nodes keep their IDs resolves every partial ID as before.
proof fn lemma_resolves_same_ids(a: Seq<Node>, b: Seq<Node>, partial: Seq<char>)
    requires
        a.len() == b.len(),
        forall|q: int| 0 <= q < a.len() ==> #[trigger] a[q].id@ == b[q].id@,
    ensures
        resolves_to(a, partial) == resolves_to(b, partial),
        forall|id: Seq<char>| node_index(a, id) == node_index(b, id),
{
    lemma_node_index_same_ids(a, b, partial);
    lemma_ids_filter_same(a, b, seq!['.'] + partial);
    assert(suffix_matches(a, partial) == suffix_matches(b, partial));
    assert forall|id: Seq<char>| node_index(a, id) == node_index(b, id) by {
        lemma_node_index_same_ids(a, b, id);
    }
}

/// Tagging a node twice with the same label is tagging it once: the second
/// call finds the tag there and changes nothing.
pub proof fn law_tag_idempotent(g0: Graph, g1: Graph, g2: Graph, partial: Seq<char>, label: Seq<char>)
    requires
        tag_outcome(g0, g1, partial, label),
        tag_outcome(g1, g2, partial, label),
    ensures
        g2 == g1,
{
    broadcast use vstd::seq_lib::group_to_multiset_ensures;

    if let Some(id) = resolves_to(g0.nodes@, partial) {
        let i = node_index(g0.nodes@, id);
        let n = g0.nodes@[i];
        if !n.tags.deep_view().contains(label) {
            let m = g1.nodes@[i];
            assert forall|q: int| 0 <= q < g0.nodes@.len() implies #[trigger] g0.nodes@[q].id@ == g1.nodes@[q].id@ by {
                if q != i {
                    assert(g1.nodes@[q] == g0.nodes@[q]);
                }
            }
            lemma_resolves_same_ids(g0.nodes@, g1.nodes@, partial);
            assert(n.tags.deep_view().push(label).to_multiset().count(label) > 0);
            assert(m.tags.deep_view().contains(label));
        }
    }
}

/// How many copies of each label are left after dropping every `label`.
proof fn lemma_filter_out_count(s: Seq<Seq<char>>, label: Seq<char>, x: Seq<char>)
    ensures
        s.filter(other_than(label)).to_multiset().count(x)
            == if x == label { 0 } else { s.to_multiset().count(x) },
    decreases s.len(),
{
    broadcast use vstd::seq_lib::group_to_multiset_ensures;

    let p = other_than(label);
    if s.len() == 0 {
        assert(s.filter(p) =~= Seq::<Seq<char>>::empty());
        assert(s.to_multiset() =~= vstd::multiset::Multiset::empty());
        assert(s.filter(p).to_multiset() =~= vstd::multiset::Multiset::empty());
    } else {
        let s0 = s.drop_last();
        lemma_filter_out_count(s0, label, x);
        assert(s0.push(s.last()) =~= s);
        s0.lemma_filter_push(s.last(), p);
    }
}

/// Untagging undoes tagging: a node that lacked the label, tagged and then
/// untagged, has its old tags again (as a multiset; tagging sorts them) and
/// is otherwise as it was but for `updated_at`; nothing else changes.
pub proof fn law_untag_undoes_tag(g0: Graph, g1: Graph, g2: Graph, partial: Seq<char>, label: Seq<char>)
    requires
        tag_outcome(g0, g1, partial, label),
        untag_outcome(g1, g2, partial, label),
        resolves_to(g0.nodes@, partial) matches Some(id)
            && !g0.nodes@[node_index(g0.nodes@, id)].tags.deep_view().contains(label),
    ensures
        ({
            let i = node_index(g0.nodes@, resolves_to(g0.nodes@, partial)->0);
            let n0 = g0.nodes@[i];
            let n2 = g2.nodes@[i];
            &&& replaces_node(g0, g2, i)
            &&& n2 == (Node { tags: n2.tags, updated_at: n2.updated_at, ..n0 })
            &&& n2.tags.deep_view().to_multiset() == n0.tags.deep_view().to_multiset()
        }),
{
    broadcast use vstd::seq_lib::group_to_multiset_ensures;

    let id = resolves_to(g0.nodes@, partial)->0;
    let i = node_index(g0.nodes@, id);
    let n0 = g0.nodes@[i];
    let n1 = g1.nodes@[i];
    assert forall|q: int| 0 <= q < g0.nodes@.len() implies #[trigger] g0.nodes@[q].id@ == g1.nodes@[q].id@ by {
        if q != i {
            assert(g1.nodes@[q] == g0.nodes@[q]);
        }
    }
    lemma_resolves_same_ids(g0.nodes@, g1.nodes@, partial);
    assert(resolves_to(g1.nodes@, partial) == Some(id));
    assert(node_index(g1.nodes@, id) == i);
    let n2 = g2.nodes@[i];
    assert(n1.tags.deep_view().push(label).to_multiset().count(label) > 0) by {
        assert(n0.tags.deep_view().push(label).to_multiset().count(label) > 0);
    }
    assert(n1.tags.deep_view().contains(label)) by {
        assert(n0.tags.deep_view().push(label).to_multiset().count(label) > 0);
    }
    assert forall|x: Seq<char>| #[trigger] n2.tags.deep_view().to_multiset().count(x)
        == n0.tags.deep_view().to_multiset().count(x) by {
        lemma_filter_out_count(n1.tags.deep_view(), label, x);
        assert(n2.tags.deep_view() == n1.tags.deep_view().filter(other_than(label)));
        assert(n1.tags.deep_view().to_multiset() == n0.tags.deep_view().push(label).to_multiset());
        assert(n0.tags.deep_view().push(label).to_multiset() =~= n0.tags.deep_view().to_multiset().insert(label));
        if x == label {
            assert(n0.tags.deep_view().to_multiset().count(label) == 0);
        } else {
            assert(n0.tags.deep_view().push(label).to_multiset().count(x) == n0.tags.deep_view().to_multiset().count(x));
        }
    }
    assert(n2.tags.deep_view().to_multiset() =~= n0.tags.deep_view().to_multiset());
    assert(g2.nodes@ =~= g0.nodes@.update(i, n2));
}

/// Where every `blocks` step of `new` is one of `old`, whatever `new`
/// reaches, `old` reaches too.
proof fn lemma_reaches_fewer(old: Seq<Edge>, new: Seq<Edge>, u: Seq<char>, v: Seq<char>)
    requires
        forall|x: Seq<char>, y: Seq<char>| #[trigger] blocks_step(new, x, y) ==> blocks_step(old, x, y),
        reaches(new, u, v),
    ensures
        reaches(old, u, v),
{
    let p = choose|p: Seq<Seq<char>>| #[trigger] is_blocks_path(new, p) && p[0] == u && p.last() == v;
    assert forall|i: int| 0 <= i < p.len() - 1 implies #[trigger] blocks_step(old, p[i], p[i + 1]) by {
        assert(blocks_step(new, p[i], p[i + 1]));
    }
    assert(is_blocks_path(old, p));
}

/// Every edge operation keeps the `blocks` edges free of cycles: removing
/// an edge, adding one of another type, or adding a `blocks` edge that the
/// cycle check lets through (a refused one changes nothing).
pub proof fn law_edges_keep_acyclic(
    g0: Graph,
    g1: Graph,
    a: Seq<char>,
    b: Seq<char>,
    edge_type: EdgeType,
    remove: bool,
)
    requires
        blocks_acyclic(g0.edges@),
        edge_outcome(g0, g1, a, b, edge_type, remove),
    ensures
        blocks_acyclic(g1.edges@),
{
    if let (Some(x), Some(y)) = (resolves_to(g0.nodes@, a), resolves_to(g0.nodes@, b)) {
        let old = g0.edges@;
        let new = g1.edges@;
        if remove {
            let pr = |e: Edge| !same_edge(e, x, y, edge_type);
            assert forall|u: Seq<char>, w: Seq<char>| #[trigger] blocks_step(new, u, w) implies blocks_step(old, u, w) by {
                let k = choose|k: int| 0 <= k < new.len() && new[k].from@ == u && new[k].to@ == w
                    && new[k].edge_type == EdgeType::Blocks;
                assert(new.contains(new[k]));
                old.lemma_filter_contains_rev(pr, new[k]);
                let m = choose|m: int| 0 <= m < old.len() && old[m] == new[k];
                assert(old[m].from@ == u && old[m].to@ == w && old[m].edge_type == EdgeType::Blocks);
            }
            assert forall|u: Seq<char>, w: Seq<char>| #[trigger] blocks_step(new, u, w) implies !reaches(new, w, u) by {
                if reaches(new, w, u) {
                    lemma_reaches_fewer(old, new, w, u);
                }
            }
        } else if edge_type == EdgeType::Blocks {
            if !reaches(old, y, x) {
                law_block_keeps_acyclic(old, new, x, y);
            }
        } else {
            assert forall|u: Seq<char>, w: Seq<char>| #[trigger] blocks_step(new, u, w) implies blocks_step(old, u, w) by {
                let k = choose|k: int| 0 <= k < new.len() && new[k].from@ == u && new[k].to@ == w
                    && new[k].edge_type == EdgeType::Blocks;
                if !(exists|j: int| 0 <= j < old.len() && #[trigger] same_edge(old[j], x, y, edge_type)) {
                    if k < old.len() {
                        assert(new[k] == old[k]);
                    } else {
                        assert(new[k] == new.last());
                    }
                }
            }
            assert forall|u: Seq<char>, w: Seq<char>| #[trigger] blocks_step(new, u, w) implies !reaches(new, w, u) by {
                if reaches(new, w, u) {
                    lemma_reaches_fewer(old, new, w, u);
                }
            }
        }
    }
}

} // verus!
