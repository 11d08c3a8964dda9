//! The queries that answer what work is available: ready nodes, nodes
//! that need attention, and who holds what.
use vstd::prelude::*;

use crate::clock::{ts_lt, Timestamp};
use crate::model::{hierarchy_finite, ov, Edge, EdgeType, Graph, Node, State};
use crate::ops::CxError;
use crate::text::str_eq;
use crate::ops::{ancestor_blocker, blocking_ancestor};

verus! {

/// No two nodes share an ID.
pub open spec fn ids_unique(nodes: Seq<Node>) -> bool {
    forall|i: int, j: int| 0 <= i < j < nodes.len() ==> nodes[i].id@ != nodes[j].id@
}

/// No edge is stored twice.
pub open spec fn edges_unique(edges: Seq<Edge>) -> bool {
    forall|i: int, j: int|
        0 <= i < j < edges.len() ==> !(edges[i].from@ == edges[j].from@ && edges[i].to@ == edges[j].to@
            && edges[i].edge_type == edges[j].edge_type)
}

/// Checks that the graph can be laid out as the query tables, whose keys are
/// a node's ID and an edge's endpoints and type: fails on a repeated ID or
/// a repeated edge.
pub fn materialize(graph: &Graph) -> (r: Result<(), CxError>)
    ensures
        r is Ok <==> ids_unique(graph.nodes@) && edges_unique(graph.edges@),
        r matches Err(CxError::DuplicateNodeId(x)) ==> exists|i: int, j: int|
            0 <= i < j < graph.nodes@.len() && graph.nodes@[i].id@ == x@ && graph.nodes@[j].id@ == x@,
{
    let mut i: usize = 0;
    while i < graph.nodes.len()
        invariant
            i <= graph.nodes@.len(),
            forall|a: int, b: int| 0 <= a < b < i ==> graph.nodes@[a].id@ != graph.nodes@[b].id@,
        decreases graph.nodes@.len() - i,
    {
        let mut j: usize = 0;
        while j < i
            invariant
                j <= i,
                i < graph.nodes@.len(),
                forall|a: int| 0 <= a < j ==> graph.nodes@[a].id@ != graph.nodes@[i as int].id@,
            decreases i - j,
        {
            if str_eq(graph.nodes[j].id.as_str(), graph.nodes[i].id.as_str()) {
                return Err(CxError::DuplicateNodeId(graph.nodes[i].id.clone()));
            }
            j += 1;
        }
        i += 1;
    }
    let mut i: usize = 0;
    while i < graph.edges.len()
        invariant
            i <= graph.edges@.len(),
            ids_unique(graph.nodes@),
            forall|a: int, b: int|
                0 <= a < b < i ==> !(graph.edges@[a].from@ == graph.edges@[b].from@ && graph.edges@[a].to@
                    == graph.edges@[b].to@ && graph.edges@[a].edge_type == graph.edges@[b].edge_type),
        decreases graph.edges@.len() - i,
    {
        let mut j: usize = 0;
        while j < i
            invariant
                j <= i,
                i < graph.edges@.len(),
                forall|a: int|
                    0 <= a < j ==> !(graph.edges@[a].from@ == graph.edges@[i as int].from@ && graph.edges@[a].to@
                        == graph.edges@[i as int].to@ && graph.edges@[a].edge_type == graph.edges@[i as int].edge_type),
            decreases i - j,
        {
            let e = &graph.edges[j];
            let f = &graph.edges[i];
            if str_eq(e.from.as_str(), f.from.as_str()) && str_eq(e.to.as_str(), f.to.as_str())
                && e.edge_type == f.edge_type {
                return Err(
                    CxError::DuplicateEdge { from: f.from.clone(), to: f.to.clone(), edge_type: f.edge_type },
                );
            }
            j += 1;
        }
        i += 1;
    }
    Ok(())
}

/// A node listed as ready: ready, not shadowed, and neither it nor any of
/// its ancestors (along the `parent` field) has an open blocker.
pub open spec fn is_ready_row(nodes: Seq<Node>, edges: Seq<Edge>, n: Node) -> bool {
    &&& n.state == State::Ready
    &&& !n.shadowed
    &&& blocking_ancestor(nodes, edges, n.id@) is None
}

/// `idx` lists, once each, the positions of the nodes that `keep` selects,
/// in order of `updated_at` (earliest first).
pub open spec fn ordered_selection(nodes: Seq<Node>, keep: spec_fn(Node) -> bool, idx: Seq<usize>) -> bool {
    &&& forall|a: int, b: int| 0 <= a < b < idx.len() ==> idx[a] != idx[b]
    &&& forall|i: int| 0 <= i < nodes.len() ==> (idx.contains(i as usize) <==> keep(nodes[i]))
    &&& forall|a: int| 0 <= a < idx.len() ==> idx[a] < nodes.len()
    &&& forall|a: int, b: int|
        0 <= a < b < idx.len() ==> !ts_lt(nodes[idx[b] as int].updated_at, nodes[idx[a] as int].updated_at)
}

/// Whether the node at `i` is listed as ready.
fn ready_row(graph: &Graph, i: usize) -> (r: bool)
    requires
        i < graph.nodes@.len(),
        hierarchy_finite(graph.nodes@),
    ensures
        r == is_ready_row(graph.nodes@, graph.edges@, graph.nodes@[i as int]),
{
    let n = &graph.nodes[i];
    if n.state != State::Ready || n.shadowed {
        return false;
    }
    ancestor_blocker(graph, n.id.as_str()).is_none()
}

/// Inserts position `i` into `idx`, after every position whose node was
/// updated no later than node `i` (so equal times keep their order).
fn insert_by_time(nodes: &Vec<Node>, idx: &mut Vec<usize>, i: usize)
    requires
        i < nodes@.len(),
        forall|a: int| 0 <= a < old(idx)@.len() ==> old(idx)@[a] < nodes@.len(),
        forall|a: int, b: int|
            0 <= a < b < old(idx)@.len() ==> !ts_lt(nodes@[old(idx)@[b] as int].updated_at, nodes@[old(idx)@[a] as int].updated_at),
    ensures
        exists|k: int| 0 <= k <= old(idx)@.len() && final(idx)@ == old(idx)@.insert(k, i),
        forall|a: int| 0 <= a < final(idx)@.len() ==> final(idx)@[a] < nodes@.len(),
        forall|a: int, b: int|
            0 <= a < b < final(idx)@.len() ==> !ts_lt(nodes@[final(idx)@[b] as int].updated_at, nodes@[final(idx)@[a] as int].updated_at),
{
    let t = nodes[i].updated_at;
    let mut k: usize = 0;
    while k < idx.len()
        invariant
            k <= idx@.len(),
            idx@ == old(idx)@,
            t == nodes@[i as int].updated_at,
            forall|a: int| 0 <= a < k ==> !ts_lt(t, nodes@[idx@[a] as int].updated_at),
            forall|a: int| 0 <= a < idx@.len() ==> idx@[a] < nodes@.len(),
        ensures
            k <= idx@.len(),
            idx@ == old(idx)@,
            forall|a: int| 0 <= a < k ==> !ts_lt(t, nodes@[idx@[a] as int].updated_at),
            k < idx@.len() ==> ts_lt(t, nodes@[idx@[k as int] as int].updated_at),
        decreases idx@.len() - k,
    {
        if crate::clock::timestamp_lt(t, nodes[idx[k]].updated_at) {
            break;
        }
        k += 1;
    }
    let ghost before = idx@;
    idx.insert(k, i);
    proof {
        assert(idx@ == before.insert(k as int, i));
        let ni = idx@;
        assert forall|b: int| k < b < ni.len() implies ts_lt(t, nodes@[#[trigger] ni[b] as int].updated_at) by {
            let tb = nodes@[ni[b] as int].updated_at;
            let tk = nodes@[before[k as int] as int].updated_at;
            if b > k + 1 {
                assert(!ts_lt(tb, tk));
            }
        }
    }
}

/// The positions of the nodes listed as ready, earliest update first.
pub fn ready_indices(graph: &Graph) -> (r: Vec<usize>)
    requires
        hierarchy_finite(graph.nodes@),
    ensures
        ordered_selection(graph.nodes@, |n: Node| is_ready_row(graph.nodes@, graph.edges@, n), r@),
{
    let mut idx: Vec<usize> = Vec::new();
    let mut i: usize = 0;
    while i < graph.nodes.len()
        invariant
            i <= graph.nodes@.len(),
            hierarchy_finite(graph.nodes@),
            forall|a: int, b: int| 0 <= a < b < idx@.len() ==> idx@[a] != idx@[b],
            forall|j: int| 0 <= j < graph.nodes@.len() ==> (idx@.contains(j as usize) <==> (j < i
                && is_ready_row(graph.nodes@, graph.edges@, graph.nodes@[j]))),
            forall|a: int| 0 <= a < idx@.len() ==> idx@[a] < i,
            forall|a: int, b: int|
                0 <= a < b < idx@.len() ==> !ts_lt(graph.nodes@[idx@[b] as int].updated_at, graph.nodes@[idx@[a] as int].updated_at),
        decreases graph.nodes@.len() - i,
    {
        if ready_row(graph, i) {
            let ghost before = idx@;
            insert_by_time(&graph.nodes, &mut idx, i);
            proof {
                let k = choose|k: int| 0 <= k <= before.len() && idx@ == before.insert(k, i);
                assert forall|a: int, b: int| 0 <= a < b < idx@.len() implies idx@[a] != idx@[b] by {
                    if a == k {
                        assert(!before.contains(i));
                        if b > k {
                            assert(before[b - 1] == idx@[b]);
                        }
                    } else if b == k {
                        assert(before[a] == idx@[a]);
                    } else {
                    }
                }
                assert forall|a: int| 0 <= a < idx@.len() implies idx@[a] < i + 1 by {
                }
                assert forall|j: int| 0 <= j < graph.nodes@.len() implies (idx@.contains(j as usize) <==> (j < i + 1
                    && is_ready_row(graph.nodes@, graph.edges@, graph.nodes@[j]))) by {
                    if idx@.contains(j as usize) {
                        let a = choose|a: int| 0 <= a < idx@.len() && idx@[a] == j as usize;
                        if a < k {
                            assert(before[a] == j as usize);
                        } else if a > k {
                            assert(before[a - 1] == j as usize);
                        }
                    }
                    if j < i && is_ready_row(graph.nodes@, graph.edges@, graph.nodes@[j]) {
                        let a = choose|a: int| 0 <= a < before.len() && before[a] == j as usize;
                        if a < k {
                            assert(idx@[a] == j as usize);
                        } else {
                            assert(idx@[a + 1] == j as usize);
                        }
                    }
                    if j == i {
                        assert(idx@[k] == i);
                    }
                }
            }
        }
        i += 1;
    }
    idx
}

/// A node that is ready for work.
pub struct ReadyNode {
    pub id: String,
    pub title: String,
    pub part: Option<String>,
}

/// Nodes that are ready and have no unresolved blocking dependencies,
/// earliest update first.
pub fn ready_nodes(graph: &Graph) -> (r: Vec<ReadyNode>)
    requires
        hierarchy_finite(graph.nodes@),
    ensures
        exists|idx: Seq<usize>|
            ordered_selection(graph.nodes@, |n: Node| is_ready_row(graph.nodes@, graph.edges@, n), idx)
                && #[trigger] idx.len() == r@.len() && forall|k: int|
                0 <= k < r@.len() ==> r@[k].id@ == graph.nodes@[idx[k] as int].id@ && r@[k].title@
                    == graph.nodes@[idx[k] as int].title@ && ov(r@[k].part) == ov(
                    graph.nodes@[idx[k] as int].part,
                ),
{
    let idx = ready_indices(graph);
    let mut r: Vec<ReadyNode> = Vec::new();
    let mut k: usize = 0;
    while k < idx.len()
        invariant
            k <= idx@.len(),
            r@.len() == k,
            forall|a: int| 0 <= a < idx@.len() ==> idx@[a] < graph.nodes@.len(),
            forall|q: int|
                0 <= q < k ==> r@[q].id@ == graph.nodes@[idx@[q] as int].id@ && r@[q].title@
                    == graph.nodes@[idx@[q] as int].title@ && ov(r@[q].part) == ov(
                    graph.nodes@[idx@[q] as int].part,
                ),
        decreases idx@.len() - k,
    {
        let n = &graph.nodes[idx[k]];
        r.push(ReadyNode { id: n.id.clone(), title: n.title.clone(), part: n.part.clone() });
        k += 1;
    }
    assert(idx@.len() == r@.len());
    r
}


/// Why a node needs attention.
#[derive(Clone, Copy, Debug, PartialEq, Eq, Structural)]
pub enum TherapyReason {
    /// Claimed, and not touched for more than a day.
    Stale,
    /// Flagged as shadowed.
    Shadowed,
}

impl TherapyReason {
    /// How the reason is shown: `stale (claimed > 24h)` or `shadowed`.
    pub fn text(&self) -> (r: &'static str)
        ensures
            r@ == (match *self {
                TherapyReason::Stale => "stale (claimed > 24h)"@,
                TherapyReason::Shadowed => "shadowed"@,
            }),
    {
        match self {
            TherapyReason::Stale => "stale (claimed > 24h)",
            TherapyReason::Shadowed => "shadowed",
        }
    }
}

/// A node that needs attention.
pub struct TherapyNode {
    pub id: String,
    pub title: String,
    pub part: Option<String>,
    pub updated_at: Timestamp,
    pub reason: TherapyReason,
}

/// The instants that SQLite's `datetime` can show: years 0000 to 9999.
pub open spec fn in_datetime_range(secs: int) -> bool {
    -62167219200 <= secs <= 253402300799
}

/// A claimed node last updated more than a day (in whole seconds) before `now`.
pub open spec fn is_stale(n: Node, now: Timestamp) -> bool {
    &&& n.state == State::Claimed
    &&& in_datetime_range(n.updated_at.secs as int)
    &&& in_datetime_range(now.secs - 86400)
    &&& n.updated_at.secs < now.secs - 86400
}

/// The rows for the nodes at `idx`, in that order, with `reason`.
pub open spec fn therapy_rows(
    nodes: Seq<Node>,
    idx: Seq<usize>,
    rows: Seq<TherapyNode>,
    reason: TherapyReason,
) -> bool {
    &&& rows.len() == idx.len()
    &&& forall|k: int|
        #![trigger rows[k]]
        0 <= k < rows.len() ==> {
            let n = nodes[idx[k] as int];
            &&& rows[k].id@ == n.id@ && rows[k].title@ == n.title@ && ov(rows[k].part) == ov(n.part)
            &&& rows[k].updated_at == n.updated_at && rows[k].reason == reason
        }
}

/// The positions of the nodes `keep` selects, earliest update first.
fn select_by_time(graph: &Graph, stale_now: Option<Timestamp>) -> (r: Vec<usize>)
    ensures
        match stale_now {
            Some(now) => ordered_selection(graph.nodes@, |n: Node| is_stale(n, now), r@),
            None => ordered_selection(graph.nodes@, |n: Node| n.shadowed, r@),
        },
{
    let ghost keep = match stale_now {
        Some(now) => |n: Node| is_stale(n, now),
        None => |n: Node| n.shadowed,
    };
    let mut idx: Vec<usize> = Vec::new();
    let mut i: usize = 0;
    while i < graph.nodes.len()
        invariant
            i <= graph.nodes@.len(),
            keep == (match stale_now {
                Some(now) => |n: Node| is_stale(n, now),
                None => |n: Node| n.shadowed,
            }),
            forall|a: int, b: int| 0 <= a < b < idx@.len() ==> idx@[a] != idx@[b],
            forall|j: int| 0 <= j < graph.nodes@.len() ==> (idx@.contains(j as usize) <==> (j < i
                && keep(graph.nodes@[j]))),
            forall|a: int| 0 <= a < idx@.len() ==> idx@[a] < i,
            forall|a: int, b: int|
                0 <= a < b < idx@.len() ==> !ts_lt(graph.nodes@[idx@[b] as int].updated_at, graph.nodes@[idx@[a] as int].updated_at),
        decreases graph.nodes@.len() - i,
    {
        let n = &graph.nodes[i];
        let selected = match stale_now {
            Some(now) => n.state == State::Claimed && -62167219200 <= n.updated_at.secs
                && n.updated_at.secs <= 253402300799 && now.secs >= -62167219200 + 86400
                && now.secs <= 253402300799 + 86400 && n.updated_at.secs < now.secs - 86400,
            None => n.shadowed,
        };
        if selected {
            let ghost before = idx@;
            insert_by_time(&graph.nodes, &mut idx, i);
            proof {
                let k = choose|k: int| 0 <= k <= before.len() && idx@ == before.insert(k, i);
                assert forall|a: int, b: int| 0 <= a < b < idx@.len() implies idx@[a] != idx@[b] by {
                    if a == k {
                        assert(!before.contains(i));
                        if b > k {
                            assert(before[b - 1] == idx@[b]);
                        }
                    } else if b == k {
                        assert(before[a] == idx@[a]);
                    } else {
                    }
                }
                assert forall|a: int| 0 <= a < idx@.len() implies idx@[a] < i + 1 by {
                }
                assert forall|j: int| 0 <= j < graph.nodes@.len() implies (idx@.contains(j as usize) <==> (j < i + 1
                    && keep(graph.nodes@[j]))) by {
                    if idx@.contains(j as usize) {
                        let a = choose|a: int| 0 <= a < idx@.len() && idx@[a] == j as usize;
                        if a < k {
                            assert(before[a] == j as usize);
                        } else if a > k {
                            assert(before[a - 1] == j as usize);
                        }
                    }
                    if j < i && keep(graph.nodes@[j]) {
                        let a = choose|a: int| 0 <= a < before.len() && before[a] == j as usize;
                        if a < k {
                            assert(idx@[a] == j as usize);
                        } else {
                            assert(idx@[a + 1] == j as usize);
                        }
                    }
                    if j == i {
                        assert(idx@[k] == i);
                    }
                }
            }
        }
        i += 1;
    }
    idx
}

/// Stale claimed nodes (earliest update first), then shadowed nodes
/// (earliest update first): the nodes needing attention at `now`.
pub fn therapy_nodes(graph: &Graph, now: Timestamp) -> (r: Vec<TherapyNode>)
    ensures
        exists|stale: Seq<usize>, shadowed: Seq<usize>|
            {
                &&& ordered_selection(graph.nodes@, |n: Node| is_stale(n, now), stale)
                &&& ordered_selection(graph.nodes@, |n: Node| n.shadowed, shadowed)
                &&& therapy_rows(graph.nodes@, stale, r@.subrange(0, stale.len() as int), TherapyReason::Stale)
                &&& #[trigger] therapy_rows(
                    graph.nodes@,
                    shadowed,
                    r@.subrange(stale.len() as int, r@.len() as int),
                    TherapyReason::Shadowed,
                )
                &&& r@.len() == stale.len() + shadowed.len()
            },
{
    let stale = select_by_time(graph, Some(now));
    let shadowed = select_by_time(graph, None);
    let mut r: Vec<TherapyNode> = Vec::new();
    let mut k: usize = 0;
    while k < stale.len()
        invariant
            k <= stale@.len(),
            ordered_selection(graph.nodes@, |n: Node| is_stale(n, now), stale@),
            therapy_rows(graph.nodes@, stale@.subrange(0, k as int), r@, TherapyReason::Stale),
        decreases stale@.len() - k,
    {
        let n = &graph.nodes[stale[k]];
        r.push(TherapyNode {
            id: n.id.clone(),
            title: n.title.clone(),
            part: n.part.clone(),
            updated_at: n.updated_at,
            reason: TherapyReason::Stale,
        });
        k += 1;
    }
    assert(stale@.subrange(0, stale@.len() as int) =~= stale@);
    let ghost first = r@;
    let mut k: usize = 0;
    while k < shadowed.len()
        invariant
            k <= shadowed@.len(),
            ordered_selection(graph.nodes@, |n: Node| n.shadowed, shadowed@),
            r@.len() == first.len() + k,
            r@.subrange(0, first.len() as int) == first,
            therapy_rows(graph.nodes@, shadowed@.subrange(0, k as int), r@.subrange(first.len() as int, r@.len() as int), TherapyReason::Shadowed),
        decreases shadowed@.len() - k,
    {
        let n = &graph.nodes[shadowed[k]];
        let ghost before = r@;
        r.push(TherapyNode {
            id: n.id.clone(),
            title: n.title.clone(),
            part: n.part.clone(),
            updated_at: n.updated_at,
            reason: TherapyReason::Shadowed,
        });
        assert(r@.subrange(0, first.len() as int) =~= before.subrange(0, first.len() as int));
        assert(r@.subrange(first.len() as int, r@.len() as int) =~= before.subrange(first.len() as int, before.len() as int).push(r@.last()));
        k += 1;
    }
    assert(shadowed@.subrange(0, shadowed@.len() as int) =~= shadowed@);
    assert(therapy_rows(graph.nodes@, shadowed@, r@.subrange(stale@.len() as int, r@.len() as int), TherapyReason::Shadowed));
    r
}


/// A claimed node held by part `p`.
pub open spec fn held_by(n: Node, p: Seq<char>) -> bool {
    n.state == State::Claimed && ov(n.part) == Some(p)
}

/// Some claimed node is held by part `p`.
pub open spec fn part_in_use(nodes: Seq<Node>, p: Seq<char>) -> bool {
    exists|i: int| 0 <= i < nodes.len() && held_by(nodes[i], p)
}

/// A part and the nodes it holds.
pub struct PartEntry {
    pub part: String,
    /// The IDs of the nodes it holds, joined with `, `.
    pub ids: String,
    pub count: i64,
}

/// The parts of a summary, in order.
pub open spec fn part_names(r: Seq<PartEntry>) -> Seq<Seq<char>> {
    r.map_values(|e: PartEntry| e.part@)
}

/// Claimed nodes grouped by part, in order of the part's name.
pub fn parts_summary(graph: &Graph) -> (r: Vec<PartEntry>)
    requires
        graph.nodes@.len() <= i64::MAX,
    ensures
        crate::text::strictly_sorted(part_names(r@)),
        forall|p: Seq<char>| #[trigger] part_names(r@).contains(p) <==> part_in_use(graph.nodes@, p),
        forall|k: int|
            #![trigger r@[k]]
            0 <= k < r@.len() ==> {
                let held = graph.nodes@.filter(|n: Node| held_by(n, r@[k].part@));
                &&& r@[k].count == held.len()
                &&& r@[k].ids@ == crate::text::join(crate::model::ids_of(held), seq![',', ' '])
            },
{
    let mut parts: Vec<String> = Vec::new();
    let mut i: usize = 0;
    assert(parts.deep_view() =~= Seq::<Seq<char>>::empty());
    while i < graph.nodes.len()
        invariant
            i <= graph.nodes@.len(),
            crate::text::strictly_sorted(parts.deep_view()),
            forall|p: Seq<char>| #[trigger] parts.deep_view().contains(p) <==> exists|j: int| 0 <= j < i && held_by(graph.nodes@[j], p),
        decreases graph.nodes@.len() - i,
    {
        let n = &graph.nodes[i];
        if n.state == State::Claimed {
            if let Some(p) = &n.part {
                crate::text::insert_sorted(&mut parts, p.clone());
                assert(held_by(graph.nodes@[i as int], p@));
            }
        }
        i += 1;
    }
    let sep = ", ";
    proof {
        reveal_strlit(", ");
    }
    let mut r: Vec<PartEntry> = Vec::new();
    let mut k: usize = 0;
    while k < parts.len()
        invariant
            k <= parts@.len(),
            sep@ == seq![',', ' '],
            graph.nodes@.len() <= i64::MAX,
            r@.len() == k,
            forall|q: int| 0 <= q < k ==> r@[q].part@ == parts.deep_view()[q],
            forall|q: int|
                #![trigger r@[q]]
                0 <= q < k ==> {
                    let held = graph.nodes@.filter(|n: Node| held_by(n, r@[q].part@));
                    &&& r@[q].count == held.len()
                    &&& r@[q].ids@ == crate::text::join(crate::model::ids_of(held), seq![',', ' '])
                },
        decreases parts@.len() - k,
    {
        let part = &parts[k];
        let ghost pred = |n: Node| held_by(n, part@);
        let mut ids = String::new();
        let mut count: usize = 0;
        let mut j: usize = 0;
        while j < graph.nodes.len()
            invariant
                j <= graph.nodes@.len(),
                sep@ == seq![',', ' '],
                pred == (|n: Node| held_by(n, part@)),
                count == graph.nodes@.subrange(0, j as int).filter(pred).len(),
                count <= j,
                ids@ == crate::text::join(crate::model::ids_of(graph.nodes@.subrange(0, j as int).filter(pred)), seq![',', ' ']),
            decreases graph.nodes@.len() - j,
        {
            let n = &graph.nodes[j];
            proof {
                let s0 = graph.nodes@.subrange(0, j as int);
                assert(graph.nodes@.subrange(0, j + 1) =~= s0.push(*n));
                s0.lemma_filter_push(*n, pred);
                s0.lemma_filter_len(pred);
            }
            let held = n.state == State::Claimed && match &n.part {
                Some(p) => str_eq(p.as_str(), part.as_str()),
                None => false,
            };
            if held {
                let ghost before = crate::model::ids_of(graph.nodes@.subrange(0, j as int).filter(pred));
                proof {
                    assert(crate::model::ids_of(graph.nodes@.subrange(0, j as int).filter(pred).push(*n)) =~= before.push(n.id@));
                    assert(before.push(n.id@).drop_last() =~= before);
                }
                if count > 0 {
                    ids.append(sep);
                }
                ids.append(n.id.as_str());
                count += 1;
                proof {
                    if before.len() == 0 {
                        assert(ids@ =~= n.id@);
                    }
                }
            }
            j += 1;
        }
        assert(graph.nodes@.subrange(0, graph.nodes@.len() as int) =~= graph.nodes@);
        r.push(PartEntry { part: part.clone(), ids, count: count as i64 });
        k += 1;
    }
    proof {
        assert(part_names(r@) =~= parts.deep_view());
        assert forall|p: Seq<char>| #[trigger] parts.deep_view().contains(p) <==> part_in_use(graph.nodes@, p) by {
        }
    }
    r
}

} // verus!
