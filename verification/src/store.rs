//! What loading, saving and archiving do to the graph; reading and
//! writing the files is left to the caller.
use vstd::prelude::*;

use crate::model::{lemma_node_index, lemma_node_index_same_ids, lookup, node_index, Edge, EdgeType, Graph, Node, OutgoingEdge};
use crate::json::{
    array_items, array_value, as_string, edge_value, is_object, json_array_items, json_equal, json_is_object,
    json_member, json_parsed, json_pretty, json_str_value, json_text_valid, member, parse_json, pretty_text,
    set_member, values_equal,
};
use crate::model::{edge_type_name, ov, State};
use crate::ops::CxError;
use crate::text::{chars_of, split_chars, split_on, str_eq, trim, trim_str};
use crate::history::text_lines;

verus! {

/// An edge, by its endpoints' IDs and its type.
pub open spec fn edge_view(e: Edge) -> (Seq<char>, Seq<char>, EdgeType) {
    (e.from@, e.to@, e.edge_type)
}

/// The edges stored in a node's own file, each from the node.
pub open spec fn outs_of(n: Node) -> Seq<(Seq<char>, Seq<char>, EdgeType)> {
    n.outgoing_edges@.map_values(|oe: OutgoingEdge| (n.id@, oe.to@, oe.edge_type))
}

/// Edges (by their views) whose target is a loaded node.
pub open spec fn live_target(nodes: Seq<Node>) -> spec_fn((Seq<char>, Seq<char>, EdgeType)) -> bool {
    |t: (Seq<char>, Seq<char>, EdgeType)| is_live(nodes, t.1)
}

/// The views of a list of edges.
pub open spec fn edge_views(edges: Seq<Edge>) -> Seq<(Seq<char>, Seq<char>, EdgeType)> {
    edges.map_values(|e: Edge| edge_view(e))
}

/// Edges that start at `id`.
pub open spec fn starts_at(id: Seq<char>) -> spec_fn(Edge) -> bool {
    |e: Edge| e.from@ == id
}

/// An edge as its source stores it: target and type.
pub open spec fn target_and_type() -> spec_fn(Edge) -> (Seq<char>, EdgeType) {
    |e: Edge| (e.to@, e.edge_type)
}

/// The edges stored in the nodes' own files, node by node, each from its node.
pub open spec fn stored_edges(nodes: Seq<Node>) -> Seq<(Seq<char>, Seq<char>, EdgeType)>
    decreases nodes.len(),
{
    if nodes.len() == 0 {
        Seq::empty()
    } else {
        stored_edges(nodes.drop_last()) + outs_of(nodes.last())
    }
}

/// Some loaded node has this ID.
pub open spec fn is_live(nodes: Seq<Node>, id: Seq<char>) -> bool {
    lookup(nodes, id) is Some
}

/// The graph's edges after loading: each node's stored edges, leaving out
/// the dormant ones (whose target is not a loaded node).
pub fn load_edges(nodes: &Vec<Node>) -> (r: Vec<Edge>)
    ensures
        r@.map_values(|e: Edge| edge_view(e)) == stored_edges(nodes@).filter(live_target(nodes@)),
{
    let ghost live = live_target(nodes@);
    let mut r: Vec<Edge> = Vec::new();
    let mut i: usize = 0;
    while i < nodes.len()
        invariant
            i <= nodes@.len(),
            live == live_target(nodes@),
            r@.map_values(|e: Edge| edge_view(e)) == stored_edges(nodes@.subrange(0, i as int)).filter(live),
        decreases nodes@.len() - i,
    {
        let n = &nodes[i];
        let ghost outs = outs_of(*n);
        proof {
            assert(nodes@.subrange(0, i + 1).drop_last() =~= nodes@.subrange(0, i as int));
            assert(nodes@.subrange(0, i + 1).last() == n);
            Seq::filter_distributes_over_add(
                stored_edges(nodes@.subrange(0, i as int)),
                outs,
                live,
            );
        }
        let ghost base = r@.map_values(|e: Edge| edge_view(e));
        let mut j: usize = 0;
        while j < n.outgoing_edges.len()
            invariant
                j <= n.outgoing_edges@.len(),
                n == nodes@[i as int],
                i < nodes@.len(),
                outs == outs_of(*n),
                live == live_target(nodes@),
                r@.map_values(|e: Edge| edge_view(e)) == base + outs.subrange(0, j as int).filter(live),
            decreases n.outgoing_edges@.len() - j,
        {
            let oe = &n.outgoing_edges[j];
            proof {
                assert(outs.subrange(0, j + 1) =~= outs.subrange(0, j as int).push(outs[j as int]));
                outs.subrange(0, j as int).lemma_filter_push(outs[j as int], live);
            }
            let ghost before = r@.map_values(|e: Edge| edge_view(e));
            if live_in(nodes, oe.to.as_str()) {
                r.push(Edge { from: n.id.clone(), to: oe.to.clone(), edge_type: oe.edge_type });
                assert(r@.map_values(|e: Edge| edge_view(e)) =~= before.push(outs[j as int]));
            }
            assert(r@.map_values(|e: Edge| edge_view(e)) =~= base + outs.subrange(0, j + 1).filter(live));
            j += 1;
        }
        assert(outs.subrange(0, n.outgoing_edges@.len() as int) =~= outs);
        i += 1;
    }
    assert(nodes@.subrange(0, nodes@.len() as int) =~= nodes@);
    r
}

/// Whether some node of `nodes` has ID `id`.
pub fn live_in(nodes: &Vec<Node>, id: &str) -> (r: bool)
    ensures
        r == is_live(nodes@, id@),
{
    let mut k: usize = 0;
    while k < nodes.len()
        invariant
            k <= nodes@.len(),
            forall|j: int| 0 <= j < k ==> nodes@[j].id@ != id@,
        decreases nodes@.len() - k,
    {
        if str_eq(nodes[k].id.as_str(), id) {
            proof {
                crate::model::lemma_node_index(nodes@, id@);
            }
            return true;
        }
        k += 1;
    }
    proof {
        crate::model::lemma_node_index(nodes@, id@);
        if node_index(nodes@, id@) >= 0 {
            assert(nodes@[node_index(nodes@, id@)].id@ == id@);
        }
    }
    false
}


/// An outgoing edge, by its target's ID and its type.
pub open spec fn out_view(oe: OutgoingEdge) -> (Seq<char>, EdgeType) {
    (oe.to@, oe.edge_type)
}

/// The graph's edges from `id`, as outgoing edges.
pub open spec fn edges_from(edges: Seq<Edge>, id: Seq<char>) -> Seq<(Seq<char>, EdgeType)> {
    edges.filter(starts_at(id)).map_values(target_and_type())
}

/// `acc` followed by each of `stored` whose target is not live and that is
/// not there already, in order: the dormant edges a node keeps on saving.
pub open spec fn keep_dormant(
    nodes: Seq<Node>,
    acc: Seq<(Seq<char>, EdgeType)>,
    stored: Seq<(Seq<char>, EdgeType)>,
) -> Seq<(Seq<char>, EdgeType)>
    decreases stored.len(),
{
    if stored.len() == 0 {
        acc
    } else {
        let before = keep_dormant(nodes, acc, stored.drop_last());
        let x = stored.last();
        if !is_live(nodes, x.0) && !before.contains(x) {
            before.push(x)
        } else {
            before
        }
    }
}

/// What node `i`'s file stores as its outgoing edges: its edges in the
/// graph, then the dormant edges it was loaded with (those whose target
/// is not live), each once.
pub open spec fn saved_outgoing(g: Graph, i: int) -> Seq<(Seq<char>, EdgeType)> {
    keep_dormant(
        g.nodes@,
        edges_from(g.edges@, g.nodes@[i].id@),
        g.nodes@[i].outgoing_edges@.map_values(|oe: OutgoingEdge| out_view(oe)),
    )
}

/// Whether `v` holds an outgoing edge with this target and type.
fn has_out(v: &Vec<OutgoingEdge>, to: &str, t: EdgeType) -> (r: bool)
    ensures
        r == v@.map_values(|oe: OutgoingEdge| out_view(oe)).contains((to@, t)),
{
    let ghost vs = v@.map_values(|oe: OutgoingEdge| out_view(oe));
    let mut k: usize = 0;
    while k < v.len()
        invariant
            k <= v@.len(),
            vs == v@.map_values(|oe: OutgoingEdge| out_view(oe)),
            forall|j: int| 0 <= j < k ==> vs[j] != (to@, t),
        decreases v@.len() - k,
    {
        if str_eq(v[k].to.as_str(), to) && v[k].edge_type == t {
            assert(vs[k as int] == (to@, t));
            return true;
        }
        k += 1;
    }
    false
}

/// The outgoing edges to write into node `i`'s file when saving.
pub fn outgoing_for_save(g: &Graph, i: usize) -> (r: Vec<OutgoingEdge>)
    requires
        i < g.nodes@.len(),
    ensures
        r@.map_values(|oe: OutgoingEdge| out_view(oe)) == saved_outgoing(*g, i as int),
{
    let node = &g.nodes[i];
    let ghost pf = starts_at(node.id@);
    let ghost mv = target_and_type();
    let mut r: Vec<OutgoingEdge> = Vec::new();
    let mut k: usize = 0;
    while k < g.edges.len()
        invariant
            k <= g.edges@.len(),
            node == g.nodes@[i as int],
            pf == starts_at(node.id@),
            mv == target_and_type(),
            r@.map_values(|oe: OutgoingEdge| out_view(oe)) == g.edges@.subrange(0, k as int).filter(pf).map_values(mv),
        decreases g.edges@.len() - k,
    {
        let e = &g.edges[k];
        proof {
            assert(g.edges@.subrange(0, k + 1) =~= g.edges@.subrange(0, k as int).push(*e));
            g.edges@.subrange(0, k as int).lemma_filter_push(*e, pf);
            let f = g.edges@.subrange(0, k as int).filter(pf);
            assert(f.push(*e).map_values(mv) =~= f.map_values(mv).push(mv(*e)));
        }
        let ghost before = r@.map_values(|oe: OutgoingEdge| out_view(oe));
        if str_eq(e.from.as_str(), node.id.as_str()) {
            r.push(OutgoingEdge { to: e.to.clone(), edge_type: e.edge_type });
            assert(r@.map_values(|oe: OutgoingEdge| out_view(oe)) =~= before.push(mv(*e)));
        }
        k += 1;
    }
    assert(g.edges@.subrange(0, g.edges@.len() as int) =~= g.edges@);
    let ghost acc = r@.map_values(|oe: OutgoingEdge| out_view(oe));
    let ghost stored = node.outgoing_edges@.map_values(|oe: OutgoingEdge| out_view(oe));
    assert(acc == edges_from(g.edges@, node.id@));
    let mut j: usize = 0;
    while j < node.outgoing_edges.len()
        invariant
            j <= node.outgoing_edges@.len(),
            node == g.nodes@[i as int],
            stored == node.outgoing_edges@.map_values(|oe: OutgoingEdge| out_view(oe)),
            r@.map_values(|oe: OutgoingEdge| out_view(oe)) == keep_dormant(g.nodes@, acc, stored.subrange(0, j as int)),
        decreases node.outgoing_edges@.len() - j,
    {
        let oe = &node.outgoing_edges[j];
        proof {
            assert(stored.subrange(0, j + 1).drop_last() =~= stored.subrange(0, j as int));
            assert(stored.subrange(0, j + 1).last() == out_view(*oe));
        }
        let ghost before = r@.map_values(|oe: OutgoingEdge| out_view(oe));
        if !live_in(&g.nodes, oe.to.as_str()) && !has_out(&r, oe.to.as_str(), oe.edge_type) {
            r.push(OutgoingEdge { to: oe.to.clone(), edge_type: oe.edge_type });
            assert(r@.map_values(|oe: OutgoingEdge| out_view(oe)) =~= before.push(out_view(*oe)));
        }
        j += 1;
    }
    assert(stored.subrange(0, node.outgoing_edges@.len() as int) =~= stored);
    r
}


/// Edges that neither start nor end at `id`.
pub open spec fn avoids(e: Edge, id: Seq<char>) -> bool {
    e.from@ != id && e.to@ != id
}

/// Takes the first node with ID `id` out of the graph, together with every
/// edge that starts or ends there; the node comes back carrying the edges
/// it started as its outgoing edges (the ones its archive file keeps).
pub fn archive_node(graph: &mut Graph, id: &str) -> (r: Result<Node, CxError>)
    ensures
        match r {
            Ok(n) => {
                let p = node_index(old(graph).nodes@, id@);
                &&& p >= 0
                &&& n == (Node { outgoing_edges: n.outgoing_edges, ..old(graph).nodes@[p] })
                &&& n.outgoing_edges@.map_values(|oe: OutgoingEdge| out_view(oe)) == edges_from(
                    old(graph).edges@,
                    id@,
                )
                &&& final(graph).nodes@ == old(graph).nodes@.remove(p)
                &&& final(graph).edges@ == old(graph).edges@.filter(|e: Edge| avoids(e, id@))
                &&& final(graph).version == old(graph).version
            },
            Err(e) => {
                &&& node_index(old(graph).nodes@, id@) < 0
                &&& e matches CxError::NodeNotFound(x) && x@ == id@
                &&& *final(graph) == *old(graph)
            },
        },
{
    let pos = match graph.find_index(id) {
        Some(p) => p,
        None => {
            return Err(CxError::NodeNotFound(id.to_string()));
        },
    };
    let mut node = graph.nodes.remove(pos);
    let ghost edges = graph.edges@;
    let ghost pf = starts_at(id@);
    let ghost pa = |e: Edge| avoids(e, id@);
    let ghost mv = target_and_type();
    let mut outgoing: Vec<OutgoingEdge> = Vec::new();
    let mut keep: Vec<Edge> = Vec::new();
    let mut k: usize = 0;
    while k < graph.edges.len()
        invariant
            k <= edges.len(),
            edges == graph.edges@,
            pf == starts_at(id@),
            pa == (|e: Edge| avoids(e, id@)),
            mv == target_and_type(),
            outgoing@.map_values(|oe: OutgoingEdge| out_view(oe)) == edges.subrange(0, k as int).filter(pf).map_values(mv),
            keep@ == edges.subrange(0, k as int).filter(pa),
        decreases edges.len() - k,
    {
        let e = &graph.edges[k];
        proof {
            assert(edges.subrange(0, k + 1) =~= edges.subrange(0, k as int).push(*e));
            edges.subrange(0, k as int).lemma_filter_push(*e, pf);
            edges.subrange(0, k as int).lemma_filter_push(*e, pa);
            let f = edges.subrange(0, k as int).filter(pf);
            assert(f.push(*e).map_values(mv) =~= f.map_values(mv).push(mv(*e)));
        }
        let ghost before = outgoing@.map_values(|oe: OutgoingEdge| out_view(oe));
        if str_eq(e.from.as_str(), id) {
            outgoing.push(OutgoingEdge { to: e.to.clone(), edge_type: e.edge_type });
            assert(outgoing@.map_values(|oe: OutgoingEdge| out_view(oe)) =~= before.push(mv(*e)));
        } else if !str_eq(e.to.as_str(), id) {
            keep.push(Edge { from: e.from.clone(), to: e.to.clone(), edge_type: e.edge_type });
        }
        k += 1;
    }
    assert(edges.subrange(0, edges.len() as int) =~= edges);
    graph.edges = keep;
    node.outgoing_edges = outgoing;
    Ok(node)
}

/// The outgoing edges a node stores, each as its target and type.
pub open spec fn outs(n: Node) -> Seq<(Seq<char>, EdgeType)> {
    n.outgoing_edges@.map_values(|oe: OutgoingEdge| out_view(oe))
}

/// Stored outgoing edges that do not end at `id`.
pub open spec fn not_to(id: Seq<char>) -> spec_fn((Seq<char>, EdgeType)) -> bool {
    |v: (Seq<char>, EdgeType)| v.0 != id
}

/// `after` is `before` with every stored outgoing edge to `id` dropped,
/// the rest of each node as it was.
pub open spec fn edges_to_dropped(before: Seq<Node>, after: Seq<Node>, id: Seq<char>) -> bool {
    &&& after.len() == before.len()
    &&& forall|j: int| 0 <= j < after.len() ==> {
        &&& #[trigger] after[j] == (Node { outgoing_edges: after[j].outgoing_edges, ..before[j] })
        &&& outs(after[j]) == outs(before[j]).filter(not_to(id))
    }
}

/// Saving keeps no edge to `id` when neither the graph's edges from a node
/// nor the node's stored edges end there.
pub proof fn lemma_keep_dormant_avoids(
    nodes: Seq<Node>,
    acc: Seq<(Seq<char>, EdgeType)>,
    stored: Seq<(Seq<char>, EdgeType)>,
    id: Seq<char>,
)
    requires
        forall|k: int| 0 <= k < acc.len() ==> (#[trigger] acc[k]).0 != id,
        forall|k: int| 0 <= k < stored.len() ==> (#[trigger] stored[k]).0 != id,
    ensures
        forall|k: int| 0 <= k < keep_dormant(nodes, acc, stored).len()
            ==> (#[trigger] keep_dormant(nodes, acc, stored)[k]).0 != id,
    decreases stored.len(),
{
    if stored.len() > 0 {
        let d = stored.drop_last();
        assert forall|k: int| 0 <= k < d.len() implies (#[trigger] d[k]).0 != id by {
            assert(d[k] == stored[k]);
        }
        lemma_keep_dormant_avoids(nodes, acc, d, id);
        let before = keep_dormant(nodes, acc, d);
        let x = stored.last();
        assert(x == stored[stored.len() - 1]);
        if !is_live(nodes, x.0) && !before.contains(x) {
            let after = before.push(x);
            assert forall|k: int| 0 <= k < after.len() implies (#[trigger] after[k]).0 != id by {
                if k < before.len() {
                    assert(after[k] == before[k]);
                }
            }
        }
    }
}

/// The graph's edges from a node, when none of the graph's edges ends at
/// `id`, have no target `id`.
pub proof fn lemma_edges_from_avoid(edges: Seq<Edge>, from: Seq<char>, id: Seq<char>)
    requires
        forall|k: int| 0 <= k < edges.len() ==> (#[trigger] edges[k]).to@ != id,
    ensures
        forall|k: int| 0 <= k < edges_from(edges, from).len() ==> (#[trigger] edges_from(edges, from)[k]).0 != id,
{
    let f = edges.filter(starts_at(from));
    assert forall|k: int| 0 <= k < f.len() implies (#[trigger] f[k]).to@ != id by {
        assert(f.contains(f[k]));
        edges.lemma_filter_contains_rev(starts_at(from), f[k]);
    }
}

/// Drops, from every node's stored outgoing edges, those that end at `id`,
/// so that no node file keeps an edge to it.
pub fn drop_edges_to(graph: &mut Graph, id: &str)
    ensures
        edges_to_dropped(old(graph).nodes@, final(graph).nodes@, id@),
        final(graph).edges == old(graph).edges,
        final(graph).version == old(graph).version,
{
    let ghost keep = not_to(id@);
    let mut i: usize = 0;
    while i < graph.nodes.len()
        invariant
            i <= graph.nodes@.len(),
            graph.nodes@.len() == old(graph).nodes@.len(),
            graph.edges == old(graph).edges,
            graph.version == old(graph).version,
            keep == not_to(id@),
            forall|j: int| 0 <= j < i ==> {
                &&& #[trigger] graph.nodes@[j] == (Node { outgoing_edges: graph.nodes@[j].outgoing_edges, ..old(graph).nodes@[j] })
                &&& outs(graph.nodes@[j]) == outs(old(graph).nodes@[j]).filter(keep)
            },
            forall|j: int| i <= j < graph.nodes@.len() ==> #[trigger] graph.nodes@[j] == old(graph).nodes@[j],
        decreases graph.nodes@.len() - i,
    {
        let ghost src = outs(graph.nodes@[i as int]);
        let mut kept: Vec<OutgoingEdge> = Vec::new();
        let mut k: usize = 0;
        while k < graph.nodes[i].outgoing_edges.len()
            invariant
                i < graph.nodes@.len(),
                k <= graph.nodes@[i as int].outgoing_edges@.len(),
                src == outs(graph.nodes@[i as int]),
                keep == not_to(id@),
                kept@.map_values(|oe: OutgoingEdge| out_view(oe)) == src.subrange(0, k as int).filter(keep),
            decreases graph.nodes@[i as int].outgoing_edges@.len() - k,
        {
            let oe = &graph.nodes[i].outgoing_edges[k];
            proof {
                assert(src.subrange(0, k + 1) =~= src.subrange(0, k as int).push(src[k as int]));
                src.subrange(0, k as int).lemma_filter_push(src[k as int], keep);
            }
            let ghost before = kept@.map_values(|oe: OutgoingEdge| out_view(oe));
            if !str_eq(oe.to.as_str(), id) {
                kept.push(OutgoingEdge { to: oe.to.clone(), edge_type: oe.edge_type });
                assert(kept@.map_values(|oe: OutgoingEdge| out_view(oe)) =~= before.push(src[k as int]));
            }
            k += 1;
        }
        proof {
            assert(src.subrange(0, src.len() as int) =~= src);
        }
        let ghost mid = graph.nodes@;
        graph.nodes[i].outgoing_edges = kept;
        proof {
            assert(graph.nodes@ =~= mid.update(i as int, graph.nodes@[i as int]));
        }
        i += 1;
    }
}


/// An edge as found in a live node's file: its source, its target when
/// that is a string, and its type as stored.
pub struct RawEdge {
    pub from: String,
    pub to: Option<String>,
    pub edge_type: serde_json::Value,
}

/// Stored edges whose target is live, or is the node `id` itself.
pub open spec fn comes_back(nodes: Seq<Node>, id: Seq<char>) -> spec_fn(OutgoingEdge) -> bool {
    |oe: OutgoingEdge| is_live(nodes, oe.to@) || oe.to@ == id
}

/// The edges of `node`'s archive file that come back: those whose target is
/// live (or is the node itself), each from the node.
pub open spec fn restored_outgoing(nodes: Seq<Node>, node: Node) -> Seq<(Seq<char>, Seq<char>, EdgeType)> {
    node.outgoing_edges@.filter(comes_back(nodes, node.id@)).map_values(
        |oe: OutgoingEdge| (node.id@, oe.to@, oe.edge_type),
    )
}

/// The type a raw edge names, when it is a known name.
pub open spec fn raw_type(r: RawEdge) -> Option<EdgeType> {
    match json_str_value(r.edge_type) {
        Some(s) => if exists|t: EdgeType| edge_type_name(t) == s {
            Some(choose|t: EdgeType| edge_type_name(t) == s)
        } else {
            None
        },
        None => None,
    }
}

/// `edges` followed by each raw edge into `id` that is not there yet, in
/// order; `None` when one of them names no known type.
pub open spec fn restore_incoming(
    edges: Seq<(Seq<char>, Seq<char>, EdgeType)>,
    raws: Seq<RawEdge>,
    id: Seq<char>,
) -> Option<Seq<(Seq<char>, Seq<char>, EdgeType)>>
    decreases raws.len(),
{
    if raws.len() == 0 {
        Some(edges)
    } else {
        match restore_incoming(edges, raws.drop_last(), id) {
            None => None,
            Some(acc) => {
                let r = raws.last();
                if ov(r.to) == Some(id) {
                    match raw_type(r) {
                        None => None,
                        Some(t) => if acc.contains((r.from@, id, t)) {
                            Some(acc)
                        } else {
                            Some(acc.push((r.from@, id, t)))
                        },
                    }
                } else {
                    Some(acc)
                }
            },
        }
    }
}

/// Whether `v` holds an edge from `a` to `b` of type `t`.
fn has_edge(v: &Vec<Edge>, a: &str, b: &str, t: EdgeType) -> (r: bool)
    ensures
        r == v@.map_values(|e: Edge| edge_view(e)).contains((a@, b@, t)),
{
    let ghost vs = v@.map_values(|e: Edge| edge_view(e));
    let mut k: usize = 0;
    while k < v.len()
        invariant
            k <= v@.len(),
            vs == v@.map_values(|e: Edge| edge_view(e)),
            forall|j: int| 0 <= j < k ==> vs[j] != (a@, b@, t),
        decreases v@.len() - k,
    {
        if str_eq(v[k].from.as_str(), a) && str_eq(v[k].to.as_str(), b) && v[k].edge_type == t {
            assert(vs[k as int] == (a@, b@, t));
            return true;
        }
        k += 1;
    }
    false
}

/// Restores an archived node into the graph: its stored edges whose target
/// is live (or itself) come back, then the dormant edges from live nodes
/// into it (each once), and the node joins the graph as integrated,
/// whatever state it was archived in. Fails, changing
/// nothing, when a raw edge into the node names no known type.
pub fn unarchive_node(graph: &mut Graph, node: Node, incoming: &Vec<RawEdge>) -> (r: Result<(), CxError>)
    ensures
        match restore_incoming(
            old(graph).edges@.map_values(|e: Edge| edge_view(e)) + restored_outgoing(old(graph).nodes@, node),
            incoming@,
            node.id@,
        ) {
            Some(all) => {
                &&& r is Ok
                &&& final(graph).edges@.map_values(|e: Edge| edge_view(e)) == all
                &&& final(graph).nodes@ == old(graph).nodes@.push(Node { state: State::Integrated, ..node })
                &&& final(graph).version == old(graph).version
            },
            None => r matches Err(CxError::UnknownEdgeType) && *final(graph) == *old(graph),
        },
{
    let ghost start = graph.edges@.map_values(|e: Edge| edge_view(e));
    let ghost keep = comes_back(graph.nodes@, node.id@);
    let ghost mk = |oe: OutgoingEdge| (node.id@, oe.to@, oe.edge_type);
    let mut edges: Vec<Edge> = Vec::new();
    let mut k: usize = 0;
    while k < graph.edges.len()
        invariant
            k <= graph.edges@.len(),
            edges@ == graph.edges@.subrange(0, k as int),
        decreases graph.edges@.len() - k,
    {
        let e = &graph.edges[k];
        edges.push(Edge { from: e.from.clone(), to: e.to.clone(), edge_type: e.edge_type });
        assert(edges@ =~= graph.edges@.subrange(0, k + 1));
        k += 1;
    }
    assert(graph.edges@.subrange(0, graph.edges@.len() as int) =~= graph.edges@);
    let mut j: usize = 0;
    while j < node.outgoing_edges.len()
        invariant
            j <= node.outgoing_edges@.len(),
            *graph == *old(graph),
            start == graph.edges@.map_values(|e: Edge| edge_view(e)),
            keep == comes_back(graph.nodes@, node.id@),
            mk == (|oe: OutgoingEdge| (node.id@, oe.to@, oe.edge_type)),
            edges@.map_values(|e: Edge| edge_view(e)) == start + node.outgoing_edges@.subrange(0, j as int).filter(keep).map_values(mk),
        decreases node.outgoing_edges@.len() - j,
    {
        let oe = &node.outgoing_edges[j];
        proof {
            let s0 = node.outgoing_edges@.subrange(0, j as int);
            assert(node.outgoing_edges@.subrange(0, j + 1) =~= s0.push(*oe));
            s0.lemma_filter_push(*oe, keep);
            assert(s0.filter(keep).push(*oe).map_values(mk) =~= s0.filter(keep).map_values(mk).push(mk(*oe)));
        }
        let ghost before = edges@.map_values(|e: Edge| edge_view(e));
        if live_in(&graph.nodes, oe.to.as_str()) || str_eq(oe.to.as_str(), node.id.as_str()) {
            edges.push(Edge { from: node.id.clone(), to: oe.to.clone(), edge_type: oe.edge_type });
            assert(edges@.map_values(|e: Edge| edge_view(e)) =~= before.push(mk(*oe)));
        }
        j += 1;
    }
    assert(node.outgoing_edges@.subrange(0, node.outgoing_edges@.len() as int) =~= node.outgoing_edges@);
    let ghost mid = edges@.map_values(|e: Edge| edge_view(e));
    assert(mid == start + restored_outgoing(graph.nodes@, node));
    let mut q: usize = 0;
    assert(incoming@.subrange(0, 0) =~= Seq::<RawEdge>::empty());
    while q < incoming.len()
        invariant
            q <= incoming@.len(),
            *graph == *old(graph),
            mid == old(graph).edges@.map_values(|e: Edge| edge_view(e)) + restored_outgoing(old(graph).nodes@, node),
            restore_incoming(mid, incoming@.subrange(0, q as int), node.id@) == Some(
                edges@.map_values(|e: Edge| edge_view(e)),
            ),
        decreases incoming@.len() - q,
    {
        let raw = &incoming[q];
        proof {
            assert(incoming@.subrange(0, q + 1).drop_last() =~= incoming@.subrange(0, q as int));
            assert(incoming@.subrange(0, q + 1).last() == *raw);
        }
        let targets = match &raw.to {
            Some(t) => str_eq(t.as_str(), node.id.as_str()),
            None => false,
        };
        if targets {
            let name = match as_string(&raw.edge_type) {
                Some(n) => n,
                None => {
                    proof {
                        lemma_restore_none(mid, incoming@, node.id@, (q + 1) as int);
                    }
                    return Err(CxError::UnknownEdgeType);
                },
            };
            let t = match EdgeType::from_name(name.as_str()) {
                Some(t) => t,
                None => {
                    proof {
                        lemma_restore_none(mid, incoming@, node.id@, (q + 1) as int);
                    }
                    return Err(CxError::UnknownEdgeType);
                },
            };
            proof {
                assert(raw_type(*raw) == Some(t)) by {
                    let c = choose|c: EdgeType| edge_type_name(c) == name@;
                    lemma_edge_type_name_injective(c, t);
                }
            }
            if !has_edge(&edges, raw.from.as_str(), node.id.as_str(), t) {
                let ghost before = edges@.map_values(|e: Edge| edge_view(e));
                edges.push(Edge { from: raw.from.clone(), to: node.id.clone(), edge_type: t });
                assert(edges@.map_values(|e: Edge| edge_view(e)) =~= before.push((raw.from@, node.id@, t)));
            }
        }
        q += 1;
    }
    assert(incoming@.subrange(0, incoming@.len() as int) =~= incoming@);
    graph.edges = edges;
    let mut node = node;
    node.state = State::Integrated;
    graph.nodes.push(node);
    Ok(())
}

/// Different edge types have different names.
pub proof fn lemma_edge_type_name_injective(a: EdgeType, b: EdgeType)
    requires
        edge_type_name(a) == edge_type_name(b),
    ensures
        a == b,
{
    match a {
        EdgeType::Blocks => match b {
            EdgeType::Blocks => {},
            _ => assert(edge_type_name(a)[0] != edge_type_name(b)[0] || edge_type_name(a).len() != edge_type_name(b).len()),
        },
        EdgeType::WaitsFor => match b {
            EdgeType::WaitsFor => {},
            _ => assert(edge_type_name(a)[0] != edge_type_name(b)[0] || edge_type_name(a).len() != edge_type_name(b).len()),
        },
        EdgeType::DiscoveredFrom => match b {
            EdgeType::DiscoveredFrom => {},
            _ => assert(edge_type_name(a)[0] != edge_type_name(b)[0] || edge_type_name(a).len() != edge_type_name(b).len()),
        },
        EdgeType::Related => match b {
            EdgeType::Related => {},
            _ => assert(edge_type_name(a)[0] != edge_type_name(b)[0] || edge_type_name(a).len() != edge_type_name(b).len()),
        },
    }
}

/// Once restoring fails on a prefix, it fails on the whole list.
proof fn lemma_restore_none(edges: Seq<(Seq<char>, Seq<char>, EdgeType)>, raws: Seq<RawEdge>, id: Seq<char>, m: int)
    requires
        0 <= m <= raws.len(),
        restore_incoming(edges, raws.subrange(0, m), id) is None,
    ensures
        restore_incoming(edges, raws, id) is None,
    decreases raws.len() - m,
{
    if m < raws.len() {
        assert(raws.subrange(0, m + 1).drop_last() =~= raws.subrange(0, m));
        lemma_restore_none(edges, raws, id, m + 1);
    } else {
        assert(raws.subrange(0, m) =~= raws);
    }
}


/// The target that an edge of a node file names: its `to` member, when
/// that is a string.
pub open spec fn edge_target(e: serde_json::Value) -> Option<Seq<char>> {
    json_str_value(json_member(e, seq!['t', 'o']))
}

/// Edges of a node file that do not point at `id`.
pub open spec fn not_into(id: Seq<char>) -> spec_fn(serde_json::Value) -> bool {
    |e: serde_json::Value| edge_target(e) != Some(id)
}

/// The edges of a node file after removing node `id`: `None` when none of
/// them points at `id` (the file is left as it is), otherwise the others,
/// in their order.
pub fn scrub_edge_list(edges: Vec<serde_json::Value>, id: &str) -> (r: Option<Vec<serde_json::Value>>)
    ensures
        match r {
            None => forall|k: int| 0 <= k < edges@.len() ==> edge_target(#[trigger] edges@[k]) != Some(id@),
            Some(kept) => kept@ == edges@.filter(not_into(id@))
                && exists|k: int| 0 <= k < edges@.len() && edge_target(#[trigger] edges@[k]) == Some(id@),
        },
{
    let key = "to";
    proof {
        reveal_strlit("to");
        assert(key@ == seq!['t', 'o']);
    }
    let mut targets: Vec<Option<String>> = Vec::new();
    let mut k: usize = 0;
    while k < edges.len()
        invariant
            k <= edges@.len(),
            key@ == seq!['t', 'o'],
            targets@.len() == k,
            forall|j: int| 0 <= j < k ==> ov(#[trigger] targets@[j]) == edge_target(edges@[j]),
        decreases edges@.len() - k,
    {
        let t = as_string(&member(&edges[k], key));
        targets.push(t);
        k += 1;
    }
    let keep = match scrub_archived_edges(&targets, id) {
        None => {
            assert forall|k: int| 0 <= k < edges@.len() implies edge_target(#[trigger] edges@[k]) != Some(id@) by {
                assert(ov(targets@[k]) != Some(id@));
            }
            return None;
        },
        Some(keep) => keep,
    };
    proof {
        let w = choose|j: int| 0 <= j < keep@.len() && !#[trigger] keep@[j];
        assert(edge_target(edges@[w]) == Some(id@));
    }
    let ghost all = edges@;
    assert(all.len() == edges.len());
    let ghost pr = not_into(id@);
    let mut rest = edges;
    let mut kept: Vec<serde_json::Value> = Vec::new();
    let mut k: usize = 0;
    while rest.len() > 0
        invariant
            k <= all.len(),
            keep@.len() == all.len(),
            rest@ == all.subrange(k as int, all.len() as int),
            rest@.len() == all.len() - k,
            all.len() <= usize::MAX,
            pr == not_into(id@),
            forall|j: int| 0 <= j < keep@.len() ==> #[trigger] keep@[j] == pr(all[j]),
            kept@ == all.subrange(0, k as int).filter(pr),
        decreases rest@.len(),
    {
        let e = rest.remove(0);
        proof {
            assert(e == all[k as int]);
            assert(all.subrange(0, k + 1) =~= all.subrange(0, k as int).push(e));
            all.subrange(0, k as int).lemma_filter_push(e, pr);
        }
        if keep[k] {
            kept.push(e);
        }
        proof {
            assert(rest@ =~= all.subrange(k + 1, all.len() as int));
        }
        k += 1;
    }
    proof {
        assert(all.subrange(0, all.len() as int) =~= all);
    }
    Some(kept)
}

/// Scrubbing a node file twice is scrubbing it once: no edge that a scrub
/// keeps points at `id`, so a second scrub leaves the file alone.
pub proof fn law_scrub_settles(edges: Seq<serde_json::Value>, id: Seq<char>)
    ensures
        forall|k: int| 0 <= k < edges.filter(not_into(id)).len()
            ==> edge_target(#[trigger] edges.filter(not_into(id))[k]) != Some(id),
{
    assert forall|k: int| 0 <= k < edges.filter(not_into(id)).len()
        implies edge_target(#[trigger] edges.filter(not_into(id))[k]) != Some(id) by {
        edges.lemma_filter_pred(not_into(id), k);
    }
}

/// Which edges of a node file survive removing node `id`: all but those
/// whose target is `id`. `None` when none points at `id` (the file is left
/// as it is); otherwise one flag per edge, true for those that stay.
pub fn scrub_archived_edges(edge_targets: &Vec<Option<String>>, id: &str) -> (r: Option<Vec<bool>>)
    ensures
        match r {
            None => forall|k: int| 0 <= k < edge_targets@.len() ==> ov(#[trigger] edge_targets@[k]) != Some(id@),
            Some(keep) => {
                &&& keep@.len() == edge_targets@.len()
                &&& forall|k: int| 0 <= k < keep@.len() ==> #[trigger] keep@[k] == (ov(edge_targets@[k]) != Some(id@))
                &&& exists|k: int| 0 <= k < keep@.len() && !#[trigger] keep@[k]
            },
        },
{
    let mut keep: Vec<bool> = Vec::new();
    let mut changed = false;
    let mut k: usize = 0;
    while k < edge_targets.len()
        invariant
            k <= edge_targets@.len(),
            keep@.len() == k,
            forall|j: int| 0 <= j < k ==> #[trigger] keep@[j] == (ov(edge_targets@[j]) != Some(id@)),
            changed == exists|j: int| 0 <= j < k && !#[trigger] keep@[j],
        decreases edge_targets@.len() - k,
    {
        let stays = match &edge_targets[k] {
            Some(t) => !str_eq(t.as_str(), id),
            None => true,
        };
        let ghost before = keep@;
        keep.push(stays);
        assert(forall|j: int| 0 <= j < k ==> keep@[j] == before[j]);
        if !stays {
            changed = true;
            assert(!keep@[k as int]);
        } else if changed {
            proof {
                let w = choose|j: int| 0 <= j < k && !before[j];
                assert(!keep@[w]);
            }
        }
        k += 1;
    }
    if changed {
        Some(keep)
    } else {
        assert forall|k: int| 0 <= k < edge_targets@.len() implies ov(#[trigger] edge_targets@[k]) != Some(id@) by {
            assert(keep@[k]);
        }
        None
    }
}

/// The node IDs of issue files named `<id>.md`.
pub open spec fn md_stem(name: Seq<char>) -> Option<Seq<char>> {
    let suf = seq!['.', 'm', 'd'];
    if crate::text::is_suffix(suf, name) {
        Some(name.subrange(0, name.len() - 3))
    } else {
        None
    }
}

/// An issue file with no live node: its name is `<id>.md` and no node has that ID.
pub open spec fn is_orphan_body(nodes: Seq<Node>, name: Seq<char>) -> bool {
    md_stem(name) matches Some(id) && lookup(nodes, id) is None
}

/// The IDs of body files (`<id>.md` among `file_names`) that no node of
/// the graph has, sorted.
pub fn find_orphan_bodies(file_names: &Vec<String>, graph: &Graph) -> (r: Vec<String>)
    ensures
        crate::text::sorted_le(r.deep_view()),
        r.deep_view().to_multiset() == file_names.deep_view().filter(
            |n: Seq<char>| is_orphan_body(graph.nodes@, n),
        ).map_values(|n: Seq<char>| md_stem(n)->0).to_multiset(),
{
    let ghost pred = |n: Seq<char>| is_orphan_body(graph.nodes@, n);
    let ghost stem = |n: Seq<char>| md_stem(n)->0;
    let suffix = ".md";
    proof {
        reveal_strlit(".md");
    }
    let mut found: Vec<String> = Vec::new();
    let mut k: usize = 0;
    while k < file_names.len()
        invariant
            k <= file_names@.len(),
            suffix@ == seq!['.', 'm', 'd'],
            pred == (|n: Seq<char>| is_orphan_body(graph.nodes@, n)),
            stem == (|n: Seq<char>| md_stem(n)->0),
            found.deep_view() == file_names.deep_view().subrange(0, k as int).filter(pred).map_values(stem),
        decreases file_names@.len() - k,
    {
        let name = &file_names[k];
        proof {
            let s0 = file_names.deep_view().subrange(0, k as int);
            assert(file_names.deep_view().subrange(0, k + 1) =~= s0.push(name@));
            s0.lemma_filter_push(name@, pred);
            assert(s0.filter(pred).push(name@).map_values(stem) =~= s0.filter(pred).map_values(stem).push(stem(name@)));
        }
        let ghost before = found.deep_view();
        if crate::text::ends_with(name.as_str(), suffix) {
            let chars = crate::text::chars_of(name.as_str());
            let mut stem_chars: Vec<char> = Vec::new();
            let mut q: usize = 0;
            while q < chars.len() - 3
                invariant
                    chars@ == name@,
                    chars.len() >= 3,
                    q <= chars.len() - 3,
                    stem_chars@ == chars@.subrange(0, q as int),
                decreases chars.len() - 3 - q,
            {
                stem_chars.push(chars[q]);
                assert(stem_chars@ =~= chars@.subrange(0, q + 1));
                q += 1;
            }
            let id = crate::text::string_of(&stem_chars);
            assert(id@ == md_stem(name@)->0);
            if graph.get_node(id.as_str()).is_none() {
                found.push(id);
                assert(found.deep_view() =~= before.push(stem(name@)));
            }
        }
        k += 1;
    }
    assert(file_names.deep_view().subrange(0, file_names@.len() as int) =~= file_names.deep_view());
    crate::text::sort_strings(found)
}

/// The parent a legacy dotted ID implies: everything before its last dot.
pub open spec fn dotted_parent(id: Seq<char>) -> Option<Seq<char>> {
    if exists|i: int| 0 <= i < id.len() && id[i] == '.' {
        let d = choose|i: int| 0 <= i < id.len() && id[i] == '.' && forall|j: int| i < j < id.len() ==> id[j] != '.';
        Some(id.subrange(0, d))
    } else {
        None
    }
}

/// The parent a legacy dotted ID implies (before its last dot), if it has a dot.
pub fn legacy_parent(id: &str) -> (r: Option<String>)
    ensures
        ov(r) == dotted_parent(id@),
{
    let chars = crate::text::chars_of(id);
    let mut i: usize = chars.len();
    while i > 0
        invariant
            chars@ == id@,
            i <= chars.len(),
            forall|j: int| i <= j < chars.len() ==> chars@[j] != '.',
        decreases i,
    {
        if chars[i - 1] == '.' {
            let mut pre: Vec<char> = Vec::new();
            let mut q: usize = 0;
            while q < i - 1
                invariant
                    q <= i - 1,
                    i <= chars.len(),
                    pre@ == chars@.subrange(0, q as int),
                decreases i - 1 - q,
            {
                pre.push(chars[q]);
                assert(pre@ =~= chars@.subrange(0, q + 1));
                q += 1;
            }
            proof {
                let d = (i - 1) as int;
                assert(id@[d] == '.');
                let c = choose|c: int| 0 <= c < id@.len() && id@[c] == '.' && forall|j: int| c < j < id@.len() ==> id@[j] != '.';
                assert(c == d) by {
                    if c < d {
                    } else if c > d {
                    }
                }
            }
            return Some(crate::text::string_of(&pre));
        }
        i -= 1;
    }
    None
}

/// A node may be restored from the archive only when no live node has its
/// ID.
pub fn check_unarchive(graph: &Graph, id: &str) -> (r: Result<(), CxError>)
    ensures
        match r {
            Ok(()) => lookup(graph.nodes@, id@) is None,
            Err(e) => lookup(graph.nodes@, id@) is Some && (e matches CxError::AlreadyLive(s) && s@ == id@),
        },
{
    match graph.get_node(id) {
        Some(_) => Err(CxError::AlreadyLive(id.to_owned())),
        None => Ok(()),
    }
}

/// The lines of `s` as `str::lines` yields them: `text_lines` without the
/// empty piece after a final line break (or of an empty text).
pub open spec fn lines_of(s: Seq<char>) -> Seq<Seq<char>> {
    let t = text_lines(s);
    if t.last().len() == 0 {
        t.drop_last()
    } else {
        t
    }
}

/// `s` without the copies of `c` it ends with.
pub open spec fn trim_end_char(s: Seq<char>, c: char) -> Seq<char>
    decreases s.len(),
{
    if s.len() > 0 && s.last() == c {
        trim_end_char(s.drop_last(), c)
    } else {
        s
    }
}

/// Some line of a `.gitignore` already names `entry` (a directory written
/// with a trailing `/`), with or without its slashes.
pub open spec fn lists_entry(content: Seq<char>, entry: Seq<char>) -> bool {
    exists|i: int|
        0 <= i < lines_of(content).len() && (trim(#[trigger] lines_of(content)[i]) == trim_end_char(entry, '/')
            || trim(lines_of(content)[i]) == trim(entry))
}

fn trim_end_chars(x: &Vec<char>, c: char) -> (r: Vec<char>)
    ensures
        r@ == trim_end_char(x@, c),
{
    let mut e: usize = x.len();
    assert(x@.subrange(0, e as int) =~= x@);
    while e > 0 && x[e - 1] == c
        invariant
            e <= x.len(),
            trim_end_char(x@, c) == trim_end_char(x@.subrange(0, e as int), c),
        decreases e,
    {
        assert(x@.subrange(0, e as int).drop_last() =~= x@.subrange(0, e - 1));
        e -= 1;
    }
    let mut r: Vec<char> = Vec::new();
    let mut k: usize = 0;
    while k < e
        invariant
            e <= x.len(),
            k <= e,
            r@ == x@.subrange(0, k as int),
        decreases e - k,
    {
        r.push(x[k]);
        assert(r@ =~= x@.subrange(0, k + 1));
        k += 1;
    }
    r
}

fn chars_equal(a: &Vec<char>, b: &Vec<char>) -> (r: bool)
    ensures
        r == (a@ == b@),
{
    if a.len() != b.len() {
        return false;
    }
    let mut i: usize = 0;
    while i < a.len()
        invariant
            a.len() == b.len(),
            i <= a.len(),
            forall|j: int| 0 <= j < i ==> a@[j] == b@[j],
        decreases a.len() - i,
    {
        if a[i] != b[i] {
            return false;
        }
        i += 1;
    }
    assert(a@ =~= b@);
    true
}

/// Whether a `.gitignore` already lists the directory `entry`; when it does
/// not, `init --ephemeral` appends it.
pub fn gitignore_lists(content: &str, entry: &str) -> (r: bool)
    ensures
        r == lists_entry(content@, entry@),
{
    let e = chars_of(entry);
    let bare = trim_end_chars(&e, '/');
    let trimmed = trim_str(&e);
    let x = chars_of(content);
    let pieces = split_chars(&x, '\n');
    let ghost all = pieces@.map_values(|v: Vec<char>| v@);
    let ghost tl = text_lines(content@);
    let ghost ls = lines_of(content@);
    let n = pieces.len();
    proof {
        crate::text::lemma_split_on_nonempty(content@, '\n');
    }
    let count = if pieces[n - 1].len() == 0 { n - 1 } else { n };
    assert(tl.len() == all.len());
    assert(tl.last() == all.last());
    assert(ls.len() == count);
    let mut i: usize = 0;
    while i < count
        invariant
            count <= pieces@.len(),
            n == pieces@.len(),
            all == pieces@.map_values(|v: Vec<char>| v@),
            tl == text_lines(content@),
            ls == lines_of(content@),
            all == split_on(content@, '\n'),
            tl.len() == all.len(),
            ls.len() == count,
            bare@ == trim_end_char(entry@, '/'),
            trimmed@ == trim(entry@),
            i <= count,
            forall|j: int|
                0 <= j < i ==> !(trim(#[trigger] ls[j]) == trim_end_char(entry@, '/') || trim(ls[j]) == trim(entry@)),
        decreases count - i,
    {
        let p = &pieces[i];
        let m = if i + 1 < n && p.len() > 0 && p[p.len() - 1] == '\r' { p.len() - 1 } else { p.len() };
        let mut q: Vec<char> = Vec::new();
        let mut k: usize = 0;
        while k < m
            invariant
                m <= p@.len(),
                k <= m,
                q@ == p@.subrange(0, k as int),
            decreases m - k,
        {
            q.push(p[k]);
            assert(q@ =~= p@.subrange(0, k + 1));
            k += 1;
        }
        proof {
            assert(p@ == all[i as int]);
            if m < p@.len() {
                assert(q@ =~= p@.drop_last());
            } else {
                assert(q@ =~= p@);
            }
            assert(q@ == tl[i as int]);
            assert(ls[i as int] == tl[i as int]);
        }
        let t = trim_str(&q);
        if chars_equal(&t, &bare) || chars_equal(&t, &trimmed) {
            return true;
        }
        i += 1;
    }
    false
}

/// The lines of `s` as `str::lines` yields them.
pub fn split_lines(s: &str) -> (r: Vec<String>)
    ensures
        r.deep_view() == lines_of(s@),
{
    let x = chars_of(s);
    let pieces = split_chars(&x, '\n');
    let ghost all = pieces@.map_values(|v: Vec<char>| v@);
    let ghost tl = text_lines(s@);
    let ghost ls = lines_of(s@);
    let n = pieces.len();
    proof {
        crate::text::lemma_split_on_nonempty(s@, '\n');
    }
    let count = if pieces[n - 1].len() == 0 { n - 1 } else { n };
    assert(tl.len() == all.len());
    assert(tl.last() == all.last());
    assert(ls.len() == count);
    let mut out: Vec<String> = Vec::new();
    let mut i: usize = 0;
    while i < count
        invariant
            count <= pieces@.len(),
            n == pieces@.len(),
            all == pieces@.map_values(|v: Vec<char>| v@),
            tl == text_lines(s@),
            ls == lines_of(s@),
            all == split_on(s@, '\n'),
            tl.len() == all.len(),
            ls.len() == count,
            i <= count,
            out.deep_view() == ls.subrange(0, i as int),
        decreases count - i,
    {
        let p = &pieces[i];
        let m = if i + 1 < n && p.len() > 0 && p[p.len() - 1] == '\r' { p.len() - 1 } else { p.len() };
        let mut q: Vec<char> = Vec::new();
        let mut k: usize = 0;
        while k < m
            invariant
                m <= p@.len(),
                k <= m,
                q@ == p@.subrange(0, k as int),
            decreases m - k,
        {
            q.push(p[k]);
            assert(q@ =~= p@.subrange(0, k + 1));
            k += 1;
        }
        proof {
            assert(p@ == all[i as int]);
            if m < p@.len() {
                assert(q@ =~= p@.drop_last());
            } else {
                assert(q@ =~= p@);
            }
            assert(q@ == tl[i as int]);
            assert(ls[i as int] == tl[i as int]);
        }
        let line = crate::text::string_of(&q);
        let ghost before = out.deep_view();
        out.push(line);
        assert(out.deep_view() =~= before.push(ls[i as int]));
        assert(ls.subrange(0, i + 1) =~= ls.subrange(0, i as int).push(ls[i as int]));
        i += 1;
    }
    assert(ls.subrange(0, count as int) =~= ls);
    out
}

/// Some of the first `k` nodes has ID `y`.
pub open spec fn among(nodes: Seq<Node>, k: int, y: Seq<char>) -> bool {
    exists|j: int| 0 <= j < k && #[trigger] nodes[j].id@ == y
}

/// Edge views whose source is one of the first `k` nodes.
pub open spec fn among_first(nodes: Seq<Node>, k: int) -> spec_fn((Seq<char>, Seq<char>, EdgeType)) -> bool {
    |t: (Seq<char>, Seq<char>, EdgeType)| among(nodes, k, t.0)
}

/// Edge views whose source is `x`.
pub open spec fn from_id(x: Seq<char>) -> spec_fn((Seq<char>, Seq<char>, EdgeType)) -> bool {
    |t: (Seq<char>, Seq<char>, EdgeType)| t.0 == x
}

/// Splitting a filter along two predicates that never hold together splits
/// its multiset.
proof fn lemma_filter_split<A>(s: Seq<A>, p: spec_fn(A) -> bool, q: spec_fn(A) -> bool, pq: spec_fn(A) -> bool)
    requires
        forall|a: A| #[trigger] pq(a) == (p(a) || q(a)),
        forall|a: A| !(#[trigger] p(a) && q(a)),
    ensures
        s.filter(pq).to_multiset() == s.filter(p).to_multiset().add(s.filter(q).to_multiset()),
    decreases s.len(),
{
    broadcast use vstd::seq_lib::group_to_multiset_ensures;
    broadcast use vstd::multiset::group_multiset_axioms;

    if s.len() == 0 {
        assert(s.filter(pq) =~= Seq::<A>::empty());
        assert(s.filter(p) =~= Seq::<A>::empty());
        assert(s.filter(q) =~= Seq::<A>::empty());
        assert(Seq::<A>::empty().to_multiset().add(Seq::<A>::empty().to_multiset()) =~= Seq::<A>::empty().to_multiset());
    } else {
        let t = s.drop_last();
        let x = s.last();
        assert(s == t.push(x));
        lemma_filter_split(t, p, q, pq);
        t.lemma_filter_push(x, p);
        t.lemma_filter_push(x, q);
        t.lemma_filter_push(x, pq);
        if p(x) {
            assert(t.filter(p).to_multiset().insert(x).add(t.filter(q).to_multiset()) =~= t.filter(p).to_multiset().add(
                t.filter(q).to_multiset(),
            ).insert(x));
        } else if q(x) {
            assert(t.filter(p).to_multiset().add(t.filter(q).to_multiset().insert(x)) =~= t.filter(p).to_multiset().add(
                t.filter(q).to_multiset(),
            ).insert(x));
        }
    }
}

/// A filter that every element passes keeps the whole sequence.
pub proof fn lemma_filter_all<A>(s: Seq<A>, p: spec_fn(A) -> bool)
    requires
        forall|i: int| 0 <= i < s.len() ==> #[trigger] p(s[i]),
    ensures
        s.filter(p) == s,
    decreases s.len(),
{
    if s.len() > 0 {
        let t = s.drop_last();
        assert(s == t.push(s.last()));
        assert forall|i: int| 0 <= i < t.len() implies #[trigger] p(t[i]) by {
            assert(t[i] == s[i]);
        }
        lemma_filter_all(t, p);
        t.lemma_filter_push(s.last(), p);
    } else {
        assert(s.filter(p) =~= s);
    }
}

/// A filter that no element passes keeps nothing.
pub proof fn lemma_filter_none<A>(s: Seq<A>, p: spec_fn(A) -> bool)
    requires
        forall|i: int| 0 <= i < s.len() ==> !#[trigger] p(s[i]),
    ensures
        s.filter(p) == Seq::<A>::empty(),
    decreases s.len(),
{
    if s.len() > 0 {
        let t = s.drop_last();
        assert(s == t.push(s.last()));
        assert forall|i: int| 0 <= i < t.len() implies !#[trigger] p(t[i]) by {
            assert(t[i] == s[i]);
        }
        lemma_filter_none(t, p);
        t.lemma_filter_push(s.last(), p);
    } else {
        assert(s.filter(p) =~= Seq::<A>::empty());
    }
}

/// Selecting the edges from `x` and then viewing them is viewing them and
/// then selecting.
proof fn lemma_from_filter(edges: Seq<Edge>, x: Seq<char>)
    ensures
        edges.filter(starts_at(x)).map_values(|e: Edge| edge_view(e)) == edge_views(edges).filter(from_id(x)),
    decreases edges.len(),
{
    if edges.len() == 0 {
        assert(edges.filter(starts_at(x)) =~= Seq::<Edge>::empty());
        assert(edge_views(edges) =~= Seq::empty());
        assert(edges.filter(starts_at(x)).map_values(|e: Edge| edge_view(e)) =~= Seq::empty());
        assert(edge_views(edges).filter(from_id(x)) =~= Seq::empty());
    } else {
        let t = edges.drop_last();
        let e = edges.last();
        assert(edges == t.push(e));
        lemma_from_filter(t, x);
        t.lemma_filter_push(e, starts_at(x));
        assert(edge_views(edges) =~= edge_views(t).push(edge_view(e)));
        edge_views(t).lemma_filter_push(edge_view(e), from_id(x));
        if e.from@ == x {
            assert(t.filter(starts_at(x)).push(e).map_values(|e: Edge| edge_view(e)) =~= t.filter(
                starts_at(x),
            ).map_values(|e: Edge| edge_view(e)).push(edge_view(e)));
        }
    }
}

/// `keep_dormant` keeps `acc` in front and adds only edges whose target is
/// not live.
proof fn lemma_keep_dormant(nodes: Seq<Node>, acc: Seq<(Seq<char>, EdgeType)>, st: Seq<(Seq<char>, EdgeType)>)
    ensures
        keep_dormant(nodes, acc, st).len() >= acc.len(),
        keep_dormant(nodes, acc, st).subrange(0, acc.len() as int) == acc,
        forall|j: int|
            acc.len() <= j < keep_dormant(nodes, acc, st).len() ==> !is_live(
                nodes,
                #[trigger] keep_dormant(nodes, acc, st)[j].0,
            ),
    decreases st.len(),
{
    if st.len() == 0 {
        assert(acc.subrange(0, acc.len() as int) =~= acc);
    } else {
        lemma_keep_dormant(nodes, acc, st.drop_last());
        let before = keep_dormant(nodes, acc, st.drop_last());
        let x = st.last();
        if !is_live(nodes, x.0) && !before.contains(x) {
            let r = before.push(x);
            assert(r.subrange(0, acc.len() as int) =~= before.subrange(0, acc.len() as int));
            assert forall|j: int| acc.len() <= j < r.len() implies !is_live(nodes, #[trigger] r[j].0) by {
                if j < before.len() {
                    assert(r[j] == before[j]);
                }
            }
        }
    }
}

/// What a saved node's file holds, filtered to live targets on loading, is
/// exactly the graph's edges from that node.
proof fn lemma_saved_node_edges(g: Graph, nodes2: Seq<Node>, i: int)
    requires
        0 <= i < g.nodes@.len(),
        nodes2.len() == g.nodes@.len(),
        forall|q: int| 0 <= q < nodes2.len() ==> #[trigger] nodes2[q].id@ == g.nodes@[q].id@,
        nodes2[i].outgoing_edges@.map_values(|oe: OutgoingEdge| out_view(oe)) == saved_outgoing(g, i),
        forall|k: int| 0 <= k < g.edges@.len() ==> is_live(g.nodes@, #[trigger] g.edges@[k].to@),
    ensures
        outs_of(nodes2[i]).filter(live_target(nodes2)) == edge_views(g.edges@).filter(from_id(g.nodes@[i].id@)),
{
    let x = g.nodes@[i].id@;
    let nodes = g.nodes@;
    let live2 = live_target(nodes2);
    let h = |t: (Seq<char>, EdgeType)| (x, t.0, t.1);
    let saved = saved_outgoing(g, i);
    let acc = edges_from(g.edges@, x);
    assert forall|y: Seq<char>| is_live(nodes2, y) == is_live(nodes, y) by {
        lemma_node_index_same_ids(nodes2, nodes, y);
    }
    assert(nodes2[i].id@ == x);
    assert(outs_of(nodes2[i]) =~= saved.map_values(h));
    lemma_keep_dormant(nodes, acc, nodes[i].outgoing_edges@.map_values(|oe: OutgoingEdge| out_view(oe)));
    let rest = saved.subrange(acc.len() as int, saved.len() as int);
    assert(saved =~= acc + rest);
    assert(saved.map_values(h) =~= acc.map_values(h) + rest.map_values(h));
    Seq::filter_distributes_over_add(acc.map_values(h), rest.map_values(h), live2);
    let fe = g.edges@.filter(starts_at(x));
    g.edges@.filter_lemma(starts_at(x));
    assert forall|k: int| 0 <= k < fe.len() implies is_live(nodes, #[trigger] fe[k].to@) && fe[k].from@ == x by {
        g.edges@.lemma_filter_contains_rev(starts_at(x), fe[k]);
        let m = choose|m: int| 0 <= m < g.edges@.len() && g.edges@[m] == fe[k];
        assert(is_live(nodes, g.edges@[m].to@));
        assert(starts_at(x)(fe[k]));
    }
    assert(acc.map_values(h) =~= fe.map_values(|e: Edge| edge_view(e)));
    assert forall|k: int| 0 <= k < acc.map_values(h).len() implies #[trigger] live2(acc.map_values(h)[k]) by {
        assert(acc.map_values(h)[k].1 == fe[k].to@);
    }
    lemma_filter_all(acc.map_values(h), live2);
    assert forall|k: int| 0 <= k < rest.map_values(h).len() implies !#[trigger] live2(rest.map_values(h)[k]) by {
        assert(rest[k] == saved[acc.len() + k]);
    }
    lemma_filter_none(rest.map_values(h), live2);
    lemma_from_filter(g.edges@, x);
    assert(acc.map_values(h) + Seq::<(Seq<char>, Seq<char>, EdgeType)>::empty() =~= acc.map_values(h));
}

/// The edges read back from the first `k` saved node files are the
/// graph's edges from those nodes.
proof fn lemma_saved_prefix(g: Graph, nodes2: Seq<Node>, k: int)
    requires
        0 <= k <= g.nodes@.len(),
        forall|a: int, b: int| 0 <= a < b < g.nodes@.len() ==> g.nodes@[a].id@ != g.nodes@[b].id@,
        forall|j: int| 0 <= j < g.edges@.len() ==> is_live(g.nodes@, #[trigger] g.edges@[j].to@),
        nodes2.len() == g.nodes@.len(),
        forall|q: int|
            0 <= q < nodes2.len() ==> #[trigger] nodes2[q].id@ == g.nodes@[q].id@
                && nodes2[q].outgoing_edges@.map_values(|oe: OutgoingEdge| out_view(oe)) == saved_outgoing(g, q),
    ensures
        stored_edges(nodes2.subrange(0, k)).filter(live_target(nodes2)).to_multiset() == edge_views(g.edges@).filter(
            among_first(g.nodes@, k),
        ).to_multiset(),
    decreases k,
{
    broadcast use vstd::seq_lib::group_to_multiset_ensures;

    let nodes = g.nodes@;
    let v = edge_views(g.edges@);
    let live2 = live_target(nodes2);
    if k == 0 {
        assert(nodes2.subrange(0, 0) =~= Seq::<Node>::empty());
        lemma_filter_none(v, among_first(nodes, 0));
        assert(stored_edges(nodes2.subrange(0, 0)).filter(live2) =~= Seq::empty());
    } else {
        let m = k - 1;
        lemma_saved_prefix(g, nodes2, m);
        let x = nodes[m].id@;
        assert(nodes2[m].id@ == nodes[m].id@);
        assert forall|q: int| 0 <= q < nodes2.len() implies #[trigger] nodes2[q].id@ == nodes[q].id@ by {}
        lemma_saved_node_edges(g, nodes2, m);
        let sub = nodes2.subrange(0, k);
        assert(sub.drop_last() =~= nodes2.subrange(0, m));
        assert(sub.last() == nodes2[m]);
        let outs = outs_of(nodes2[m]);
        assert(stored_edges(sub) == stored_edges(nodes2.subrange(0, m)) + outs);
        Seq::filter_distributes_over_add(stored_edges(nodes2.subrange(0, m)), outs, live2);
        vstd::seq_lib::lemma_multiset_commutative(
            stored_edges(nodes2.subrange(0, m)).filter(live2),
            outs.filter(live2),
        );
        let p = among_first(nodes, m);
        let q = from_id(x);
        let pq = among_first(nodes, k);
        assert forall|t: (Seq<char>, Seq<char>, EdgeType)| #[trigger] pq(t) == (p(t) || q(t)) by {
            if pq(t) {
                let j = choose|j: int| 0 <= j < k && #[trigger] nodes[j].id@ == t.0;
                if j < m {
                    assert(p(t));
                }
            }
            if q(t) {
                assert(nodes[m].id@ == t.0);
            }
            if p(t) {
                let j = choose|j: int| 0 <= j < m && #[trigger] nodes[j].id@ == t.0;
                assert(nodes[j].id@ == t.0);
            }
        }
        assert forall|t: (Seq<char>, Seq<char>, EdgeType)| !(#[trigger] p(t) && q(t)) by {
            if p(t) && q(t) {
                let j = choose|j: int| 0 <= j < m && #[trigger] nodes[j].id@ == t.0;
                assert(nodes[j].id@ != nodes[m].id@);
            }
        }
        lemma_filter_split(v, p, q, pq);
    }
}

/// Saving and loading again gives back the graph's edges: when node IDs are
/// distinct and every edge joins two live nodes, the edges that a load
/// reads from the saved node files (those with a live target, as
/// `load_edges` keeps them) are exactly the graph's edges, each as often,
/// grouped by source node rather than in the graph's order.
pub proof fn law_save_load_edges(g: Graph, nodes2: Seq<Node>)
    requires
        forall|a: int, b: int| 0 <= a < b < g.nodes@.len() ==> g.nodes@[a].id@ != g.nodes@[b].id@,
        forall|k: int|
            0 <= k < g.edges@.len() ==> is_live(g.nodes@, #[trigger] g.edges@[k].from@) && is_live(
                g.nodes@,
                g.edges@[k].to@,
            ),
        nodes2.len() == g.nodes@.len(),
        forall|q: int|
            0 <= q < nodes2.len() ==> #[trigger] nodes2[q].id@ == g.nodes@[q].id@
                && nodes2[q].outgoing_edges@.map_values(|oe: OutgoingEdge| out_view(oe)) == saved_outgoing(g, q),
    ensures
        stored_edges(nodes2).filter(live_target(nodes2)).to_multiset() == edge_views(g.edges@).to_multiset(),
{
    let nodes = g.nodes@;
    let v = edge_views(g.edges@);
    let n = nodes.len() as int;
    assert forall|j: int| 0 <= j < g.edges@.len() implies is_live(nodes, #[trigger] g.edges@[j].to@) by {
        assert(is_live(nodes, g.edges@[j].from@));
    }
    lemma_saved_prefix(g, nodes2, n);
    assert(nodes2.subrange(0, n) =~= nodes2);
    assert forall|i: int| 0 <= i < v.len() implies #[trigger] among_first(nodes, n)(v[i]) by {
        let e = g.edges@[i];
        assert(is_live(nodes, e.from@));
        lemma_node_index(nodes, e.from@);
        let j = node_index(nodes, e.from@);
        assert(nodes[j].id@ == v[i].0);
    }
    lemma_filter_all(v, among_first(nodes, n));
}
/// The ID an archive file name gives: `<id>.json` with a non-empty `<id>`.
pub open spec fn json_stem(name: Seq<char>) -> Option<Seq<char>> {
    if crate::text::is_suffix(".json"@, name) && name.len() > 5 {
        Some(name.subrange(0, name.len() - 5))
    } else {
        None
    }
}

/// The IDs of archived nodes: those of the per-node archive files among
/// `file_names`, then those read from legacy archive lines.
pub fn archived_ids(file_names: &Vec<String>, legacy_ids: &Vec<String>) -> (r: Vec<String>)
    ensures
        r.deep_view() == file_names.deep_view().filter(|n: Seq<char>| json_stem(n) is Some).map_values(
            |n: Seq<char>| json_stem(n)->0,
        ) + legacy_ids.deep_view(),
{
    let ghost pred = |n: Seq<char>| json_stem(n) is Some;
    let ghost stem = |n: Seq<char>| json_stem(n)->0;
    let suffix = ".json";
    proof {
        reveal_strlit(".json");
    }
    let mut found: Vec<String> = Vec::new();
    let mut k: usize = 0;
    while k < file_names.len()
        invariant
            k <= file_names@.len(),
            suffix@ == ".json"@,
            suffix@.len() == 5,
            pred == (|n: Seq<char>| json_stem(n) is Some),
            stem == (|n: Seq<char>| json_stem(n)->0),
            found.deep_view() == file_names.deep_view().subrange(0, k as int).filter(pred).map_values(stem),
        decreases file_names@.len() - k,
    {
        let name = &file_names[k];
        proof {
            let s0 = file_names.deep_view().subrange(0, k as int);
            assert(file_names.deep_view().subrange(0, k + 1) =~= s0.push(name@));
            s0.lemma_filter_push(name@, pred);
            assert(s0.filter(pred).push(name@).map_values(stem) =~= s0.filter(pred).map_values(stem).push(stem(name@)));
        }
        let ghost before = found.deep_view();
        let chars = crate::text::chars_of(name.as_str());
        if chars.len() > 5 && crate::text::ends_with(name.as_str(), suffix) {
            let n = chars.len() - 5;
            let mut stem_chars: Vec<char> = Vec::new();
            let mut j: usize = 0;
            while j < n
                invariant
                    n <= chars@.len(),
                    j <= n,
                    stem_chars@ == chars@.subrange(0, j as int),
                decreases n - j,
            {
                stem_chars.push(chars[j]);
                assert(stem_chars@ =~= chars@.subrange(0, j + 1));
                j += 1;
            }
            let id = crate::text::string_of(&stem_chars);
            found.push(id);
            assert(found.deep_view() =~= before.push(stem(name@)));
        }
        k += 1;
    }
    assert(file_names.deep_view().subrange(0, file_names@.len() as int) =~= file_names.deep_view());
    let mut j: usize = 0;
    let ghost base = found.deep_view();
    while j < legacy_ids.len()
        invariant
            j <= legacy_ids@.len(),
            found.deep_view() == base + legacy_ids.deep_view().subrange(0, j as int),
        decreases legacy_ids@.len() - j,
    {
        let ghost before = found.deep_view();
        let c = legacy_ids[j].clone();
        assert(c@ == legacy_ids.deep_view()[j as int]);
        found.push(c);
        assert(found.deep_view() =~= before.push(legacy_ids.deep_view()[j as int]));
        assert(found.deep_view() =~= base + legacy_ids.deep_view().subrange(0, j + 1));
        j += 1;
    }
    assert(legacy_ids.deep_view().subrange(0, legacy_ids@.len() as int) =~= legacy_ids.deep_view());
    found
}

/// Whether an edge list of a node file already holds an edge to `to` of
/// type `edge_type` (`e["to"]` the string `to`, `e["type"]` equal to it).
pub open spec fn lists_edge(edges: Seq<serde_json::Value>, to: Seq<char>, edge_type: serde_json::Value) -> bool {
    exists|k: int|
        0 <= k < edges.len() && json_str_value(json_member(#[trigger] edges[k], "to"@)) == Some(to)
            && json_equal(json_member(edges[k], "type"@), edge_type)
}

/// Whether a legacy edge is already in a node file's edge list; when it is
/// not, migrating the legacy edges appends it.
pub fn edge_listed(edges: &Vec<serde_json::Value>, to: &str, edge_type: &serde_json::Value) -> (r: bool)
    ensures
        r == lists_edge(edges@, to@, *edge_type),
{
    let mut k: usize = 0;
    while k < edges.len()
        invariant
            k <= edges@.len(),
            forall|j: int|
                0 <= j < k ==> !(json_str_value(json_member(#[trigger] edges@[j], "to"@)) == Some(to@)
                    && json_equal(json_member(edges@[j], "type"@), *edge_type)),
        decreases edges@.len() - k,
    {
        let t = member(&edges[k], "to");
        let same_to = match as_string(&t) {
            Some(s) => str_eq(s.as_str(), to),
            None => false,
        };
        if same_to && values_equal(&member(&edges[k], "type"), edge_type) {
            return true;
        }
        k += 1;
    }
    false
}

/// The positions `0..n`.
pub open spec fn positions(n: nat) -> Seq<int> {
    Seq::new(n, |k: int| k)
}

/// Positions of lines that are not blank.
pub open spec fn filled_at(lines: Seq<Seq<char>>) -> spec_fn(int) -> bool {
    |k: int| trim(lines[k]).len() > 0
}

/// Takes the node `id` out of a legacy archive file: among its non-blank
/// lines (with `parsed[k]` the ID of the node that line `k` holds, when it
/// parses), the first one holding `id`. Returns that line's position in
/// `lines` and the other non-blank lines, in order; `None` when no line
/// holds `id`.
pub fn take_archived_line(lines: &Vec<String>, parsed: &Vec<Option<String>>, id: &str) -> (r: Option<(usize, Vec<String>)>)
    requires
        lines@.len() == parsed@.len(),
    ensures
        ({
            let kept = positions(lines@.len()).filter(filled_at(lines.deep_view()));
            match r {
                Some((i, rest)) => exists|p: int|
                    {
                        &&& 0 <= p < kept.len()
                        &&& #[trigger] kept[p] == i
                        &&& ov(parsed@[i as int]) == Some(id@)
                        &&& forall|q: int| 0 <= q < p ==> ov(parsed@[#[trigger] kept[q]]) != Some(id@)
                        &&& rest.deep_view() == kept.remove(p).map_values(|k: int| lines@[k]@)
                    },
                None => forall|q: int| 0 <= q < kept.len() ==> ov(parsed@[#[trigger] kept[q]]) != Some(id@),
            }
        }),
{
    let ghost all = positions(lines@.len());
    let ghost pf = filled_at(lines.deep_view());
    let mut kept: Vec<usize> = Vec::new();
    let mut i: usize = 0;
    assert(all.subrange(0, 0).filter(pf) =~= Seq::<int>::empty());
    while i < lines.len()
        invariant
            i <= lines@.len(),
            all == positions(lines@.len()),
            pf == filled_at(lines.deep_view()),
            kept@.map_values(|k: usize| k as int) == all.subrange(0, i as int).filter(pf),
            forall|q: int| 0 <= q < kept@.len() ==> kept@[q] < lines@.len(),
        decreases lines@.len() - i,
    {
        let t = trim_str(&chars_of(lines[i].as_str()));
        proof {
            assert(all.subrange(0, i + 1) =~= all.subrange(0, i as int).push(i as int));
            all.subrange(0, i as int).lemma_filter_push(i as int, pf);
        }
        if t.len() > 0 {
            kept.push(i);
        }
        assert(kept@.map_values(|k: usize| k as int) =~= all.subrange(0, i + 1).filter(pf));
        i += 1;
    }
    assert(all.subrange(0, lines@.len() as int) =~= all);
    let ghost ks = kept@.map_values(|k: usize| k as int);
    let mut p: usize = 0;
    while p < kept.len()
        invariant
            p <= kept@.len(),
            ks == kept@.map_values(|k: usize| k as int),
            ks == positions(lines@.len()).filter(filled_at(lines.deep_view())),
            forall|q: int| 0 <= q < kept@.len() ==> kept@[q] < lines@.len(),
            lines@.len() == parsed@.len(),
            forall|q: int| 0 <= q < p ==> ov(parsed@[#[trigger] ks[q]]) != Some(id@),
        decreases kept@.len() - p,
    {
        let hit = match &parsed[kept[p]] {
            Some(x) => str_eq(x.as_str(), id),
            None => false,
        };
        if hit {
            assert(ks[p as int] == kept@[p as int] as int);
            let mut rest: Vec<String> = Vec::new();
            let mut q: usize = 0;
            let ghost target = ks.remove(p as int).map_values(|k: int| lines@[k]@);
            while q < kept.len()
                invariant
                    q <= kept@.len(),
                    p < kept@.len(),
                    ks == kept@.map_values(|k: usize| k as int),
                    ks == positions(lines@.len()).filter(filled_at(lines.deep_view())),
                    forall|j: int| 0 <= j < p ==> ov(parsed@[#[trigger] ks[j]]) != Some(id@),
                    ov(parsed@[ks[p as int]]) == Some(id@),
                    forall|j: int| 0 <= j < kept@.len() ==> kept@[j] < lines@.len(),
                    target == ks.remove(p as int).map_values(|k: int| lines@[k]@),
                    rest.deep_view() == (if q <= p {
                        target.subrange(0, q as int)
                    } else {
                        target.subrange(0, q - 1)
                    }),
                decreases kept@.len() - q,
            {
                if q != p {
                    let ghost before = rest.deep_view();
                    let c = lines[kept[q]].clone();
                    assert(c@ == lines@[ks[q as int]]@);
                    rest.push(c);
                    assert(rest.deep_view() =~= before.push(c@));
                    proof {
                        if q < p {
                            assert(target[q as int] == lines@[ks[q as int]]@);
                            assert(rest.deep_view() =~= target.subrange(0, q + 1));
                        } else {
                            assert(target[q - 1] == lines@[ks[q as int]]@);
                            assert(rest.deep_view() =~= target.subrange(0, q as int));
                        }
                    }
                }
                q += 1;
            }
            assert(rest.deep_view() =~= target);
            assert(ks[p as int] == kept@[p as int] as int);
            return Some((kept[p], rest));
        }
        p += 1;
    }
    None
}

/// Restoring an archived node brings back every edge that started at it:
/// when node IDs are distinct and every edge ends at a live node, the edges
/// that `unarchive_node` restores from the node `archive_node` took out are
/// exactly the graph's edges from that node.
pub proof fn law_unarchive_restores_outgoing(g: Graph, rest: Seq<Node>, n: Node, p: int)
    requires
        forall|a: int, b: int| 0 <= a < b < g.nodes@.len() ==> g.nodes@[a].id@ != g.nodes@[b].id@,
        forall|k: int| 0 <= k < g.edges@.len() ==> is_live(g.nodes@, #[trigger] g.edges@[k].to@),
        0 <= p < g.nodes@.len(),
        rest == g.nodes@.remove(p),
        n.id == g.nodes@[p].id,
        n.outgoing_edges@.map_values(|oe: OutgoingEdge| out_view(oe)) == edges_from(g.edges@, n.id@),
    ensures
        restored_outgoing(rest, n) == edge_views(g.edges@).filter(from_id(n.id@)),
{
    let x = n.id@;
    let outs = n.outgoing_edges@;
    let fe = g.edges@.filter(starts_at(x));
    g.edges@.filter_lemma(starts_at(x));
    assert(outs.map_values(|oe: OutgoingEdge| out_view(oe)) == fe.map_values(target_and_type()));
    assert forall|k: int| 0 <= k < outs.len() implies #[trigger] comes_back(rest, x)(outs[k]) by {
        assert(outs.map_values(|oe: OutgoingEdge| out_view(oe))[k] == fe.map_values(target_and_type())[k]);
        assert(outs[k].to@ == fe[k].to@);
        g.edges@.lemma_filter_contains_rev(starts_at(x), fe[k]);
        let m = choose|m: int| 0 <= m < g.edges@.len() && g.edges@[m] == fe[k];
        assert(is_live(g.nodes@, g.edges@[m].to@));
        let t = outs[k].to@;
        if t != x {
            lemma_node_index(g.nodes@, t);
            let i = node_index(g.nodes@, t);
            assert(g.nodes@[i].id@ == t);
            assert(i != p);
            let j = if i < p { i } else { i - 1 };
            assert(rest[j] == g.nodes@[i]);
            lemma_node_index(rest, t);
            if node_index(rest, t) < 0 {
                assert(rest[j].id@ != t);
            }
        }
    }
    lemma_filter_all(outs, comes_back(rest, x));
    lemma_from_filter(g.edges@, x);
    assert(restored_outgoing(rest, n) =~= fe.map_values(|e: Edge| edge_view(e))) by {
        assert forall|k: int| 0 <= k < fe.len() implies #[trigger] restored_outgoing(rest, n)[k] == edge_view(fe[k]) by {
            assert(outs.map_values(|oe: OutgoingEdge| out_view(oe))[k] == fe.map_values(target_and_type())[k]);
            assert(starts_at(x)(fe[k]));
        }
    }
}

/// Restoring the edges into a node keeps every edge it started from.
proof fn lemma_restore_keeps(
    base: Seq<(Seq<char>, Seq<char>, EdgeType)>,
    raws: Seq<RawEdge>,
    id: Seq<char>,
    x: (Seq<char>, Seq<char>, EdgeType),
)
    requires
        base.contains(x),
        restore_incoming(base, raws, id) is Some,
    ensures
        restore_incoming(base, raws, id)->0.contains(x),
    decreases raws.len(),
{
    if raws.len() > 0 {
        lemma_restore_keeps(base, raws.drop_last(), id, x);
        let acc = restore_incoming(base, raws.drop_last(), id)->0;
        let j = choose|j: int| 0 <= j < acc.len() && acc[j] == x;
        let r = raws.last();
        if ov(r.to) == Some(id) {
            if let Some(t) = raw_type(r) {
                if !acc.contains((r.from@, id, t)) {
                    assert(acc.push((r.from@, id, t))[j] == x);
                }
            }
        }
    }
}

/// Archiving a node and restoring it gives the node back: it rejoins the
/// graph as integrated with every other field it had, and every edge it had comes back but
/// those into it from other nodes, which return from the live node files
/// (`incoming`). (Node IDs distinct and every edge ending at a live node,
/// as in a loaded graph.)
pub proof fn law_archive_round_trip(g0: Graph, g1: Graph, g2: Graph, id: Seq<char>, n: Node, incoming: Seq<RawEdge>)
    requires
        forall|a: int, b: int| 0 <= a < b < g0.nodes@.len() ==> g0.nodes@[a].id@ != g0.nodes@[b].id@,
        forall|k: int| 0 <= k < g0.edges@.len() ==> is_live(g0.nodes@, #[trigger] g0.edges@[k].to@),
        node_index(g0.nodes@, id) >= 0,
        n == (Node { outgoing_edges: n.outgoing_edges, ..g0.nodes@[node_index(g0.nodes@, id)] }),
        n.outgoing_edges@.map_values(|oe: OutgoingEdge| out_view(oe)) == edges_from(g0.edges@, id),
        g1.nodes@ == g0.nodes@.remove(node_index(g0.nodes@, id)),
        g1.edges@ == g0.edges@.filter(|e: Edge| avoids(e, id)),
        restore_incoming(
            g1.edges@.map_values(|e: Edge| edge_view(e)) + restored_outgoing(g1.nodes@, n),
            incoming,
            n.id@,
        ) == Some(g2.edges@.map_values(|e: Edge| edge_view(e))),
        g2.nodes@ == g1.nodes@.push(Node { state: State::Integrated, ..n }),
    ensures
        g2.nodes@ == g0.nodes@.remove(node_index(g0.nodes@, id)).push(Node { state: State::Integrated, ..n }),
        forall|k: int|
            0 <= k < g0.edges@.len() && !(g0.edges@[k].to@ == id && g0.edges@[k].from@ != id)
                ==> g2.edges@.map_values(|e: Edge| edge_view(e)).contains(edge_view(#[trigger] g0.edges@[k])),
{
    let p = node_index(g0.nodes@, id);
    lemma_node_index(g0.nodes@, id);
    assert(n.id == g0.nodes@[p].id);
    law_unarchive_restores_outgoing(g0, g1.nodes@, n, p);
    let v1 = g1.edges@.map_values(|e: Edge| edge_view(e));
    let ro = restored_outgoing(g1.nodes@, n);
    let base = v1 + ro;
    assert forall|k: int|
        0 <= k < g0.edges@.len() && !(g0.edges@[k].to@ == id && g0.edges@[k].from@ != id)
            implies g2.edges@.map_values(|e: Edge| edge_view(e)).contains(edge_view(#[trigger] g0.edges@[k])) by {
        let e = g0.edges@[k];
        if avoids(e, id) {
            let pr = |e: Edge| avoids(e, id);
            g0.edges@.lemma_filter_contains(pr, k);
            let j = choose|j: int| 0 <= j < g1.edges@.len() && g1.edges@[j] == e;
            assert(v1[j] == edge_view(e));
            assert(base[j] == edge_view(e));
        } else {
            assert(e.from@ == id);
            let vs = edge_views(g0.edges@);
            assert(vs[k] == edge_view(e));
            vs.lemma_filter_contains(from_id(id), k);
            let j = choose|j: int| 0 <= j < ro.len() && ro[j] == edge_view(e);
            assert(base[v1.len() + j] == edge_view(e));
        }
        lemma_restore_keeps(base, incoming, n.id@, edge_view(e));
    }
}

/// The string member `key` of a value, or empty when it is missing or not
/// a string (what `v[key].as_str().unwrap_or_default()` reads).
pub open spec fn str_or_empty(v: serde_json::Value, key: Seq<char>) -> Seq<char> {
    match json_str_value(json_member(v, key)) {
        Some(s) => s,
        None => Seq::empty(),
    }
}

fn member_or_empty(v: &serde_json::Value, key: &str) -> (r: String)
    ensures
        r@ == str_or_empty(*v, key@),
{
    match as_string(&member(v, key)) {
        Some(s) => s,
        None => String::new(),
    }
}

/// The ID a line of a legacy archive names: its `id` member, when the line
/// is JSON and that member a string.
pub open spec fn line_id(line: Seq<char>) -> Option<Seq<char>> {
    if json_text_valid(line) {
        json_str_value(json_member(json_parsed(line), "id"@))
    } else {
        None
    }
}

/// The IDs that the lines of a legacy archive name, in order.
pub open spec fn ids_from_lines(lines: Seq<Seq<char>>) -> Seq<Seq<char>>
    decreases lines.len(),
{
    if lines.len() == 0 {
        Seq::empty()
    } else {
        let rest = ids_from_lines(lines.drop_last());
        match line_id(lines.last()) {
            Some(id) => rest.push(id),
            None => rest,
        }
    }
}

/// The IDs of the nodes a legacy archive text holds, one JSON node per
/// line; lines that are not JSON or name no ID are passed over.
pub fn legacy_line_ids(text: &str) -> (r: Vec<String>)
    ensures
        r.deep_view() == ids_from_lines(lines_of(text@)),
{
    let lines = split_lines(text);
    let ghost ls = lines.deep_view();
    let mut out: Vec<String> = Vec::new();
    let mut i: usize = 0;
    while i < lines.len()
        invariant
            i <= lines.len(),
            ls == lines.deep_view(),
            out.deep_view() == ids_from_lines(ls.subrange(0, i as int)),
        decreases lines.len() - i,
    {
        proof {
            assert(ls.subrange(0, i + 1).drop_last() =~= ls.subrange(0, i as int));
            assert(ls.subrange(0, i + 1).last() == lines@[i as int]@);
        }
        let ghost before = out.deep_view();
        match parse_json(lines[i].as_str()) {
            Some(v) => match as_string(&member(&v, "id")) {
                Some(id) => {
                    out.push(id);
                    assert(out.deep_view() =~= before.push(out@.last()@));
                },
                None => {},
            },
            None => {},
        }
        i += 1;
    }
    assert(ls.subrange(0, ls.len() as int) =~= ls);
    out
}

/// `es` are the edges a node file value stores, as written: each from the
/// file's `id` (empty when missing), to its `to` when that is a string, of
/// its `type` as it stands; none when `edges` is not an array.
pub open spec fn raw_edges_match(v: serde_json::Value, es: Seq<RawEdge>) -> bool {
    match json_array_items(json_member(v, "edges"@)) {
        None => es.len() == 0,
        Some(items) => {
            &&& es.len() == items.len()
            &&& forall|k: int|
                0 <= k < es.len() ==> {
                    &&& (#[trigger] es[k]).from@ == str_or_empty(v, "id"@)
                    &&& ov(es[k].to) == json_str_value(json_member(items[k], "to"@))
                    &&& es[k].edge_type == json_member(items[k], "type"@)
                }
        },
    }
}

/// The edges a live node file stores, read from its text; refused when the
/// text is not JSON.
pub fn raw_edges_of(text: &str) -> (r: Result<Vec<RawEdge>, CxError>)
    ensures
        match r {
            Err(e) => e is InvalidJson && !json_text_valid(text@),
            Ok(es) => json_text_valid(text@) && raw_edges_match(json_parsed(text@), es@),
        },
{
    let v = match parse_json(text) {
        Some(v) => v,
        None => {
            return Err(CxError::InvalidJson);
        },
    };
    let from = member_or_empty(&v, "id");
    let items = match array_items(&member(&v, "edges")) {
        Some(items) => items,
        None => {
            return Ok(Vec::new());
        },
    };
    let mut out: Vec<RawEdge> = Vec::new();
    let mut k: usize = 0;
    while k < items.len()
        invariant
            k <= items@.len(),
            json_array_items(json_member(v, "edges"@)) == Some(items@),
            from@ == str_or_empty(v, "id"@),
            out@.len() == k,
            forall|j: int|
                0 <= j < k ==> {
                    &&& (#[trigger] out@[j]).from@ == str_or_empty(v, "id"@)
                    &&& ov(out@[j].to) == json_str_value(json_member(items@[j], "to"@))
                    &&& out@[j].edge_type == json_member(items@[j], "type"@)
                },
        decreases items@.len() - k,
    {
        let e = &items[k];
        let to = as_string(&member(e, "to"));
        let t = member(e, "type");
        out.push(RawEdge { from: from.clone(), to, edge_type: t });
        k += 1;
    }
    Ok(out)
}

/// Drops the edges into `id` from a node file's text: `None` when the file
/// has nothing to drop (it is not an object, its `edges` is not an array,
/// or no edge points at `id`); otherwise the file's new text, the same
/// object with only the other edges, in their order. Refused when the text
/// is not JSON.
pub fn scrub_node_text(text: &str, id: &str) -> (r: Result<Option<String>, CxError>)
    ensures
        match r {
            Err(e) => e is InvalidJson && !json_text_valid(text@),
            Ok(None) => json_text_valid(text@) && {
                let v = json_parsed(text@);
                !json_is_object(v) || match json_array_items(json_member(v, "edges"@)) {
                    None => true,
                    Some(items) => forall|k: int| 0 <= k < items.len() ==> edge_target(#[trigger] items[k]) != Some(id@),
                }
            },
            Ok(Some(t)) => json_text_valid(text@) && {
                let v = json_parsed(text@);
                &&& json_is_object(v)
                &&& match json_array_items(json_member(v, "edges"@)) {
                    Some(items) => {
                        &&& exists|k: int| 0 <= k < items.len() && edge_target(#[trigger] items[k]) == Some(id@)
                        &&& exists|w: serde_json::Value| #[trigger] json_pretty(w) == t@ && edges_replaced(
                            v,
                            w,
                            items.filter(not_into(id@)),
                        )
                    },
                    None => false,
                }
            },
        },
{
    let mut v = match parse_json(text) {
        Some(v) => v,
        None => {
            return Err(CxError::InvalidJson);
        },
    };
    if !is_object(&v) {
        return Ok(None);
    }
    let items = match array_items(&member(&v, "edges")) {
        Some(items) => items,
        None => {
            return Ok(None);
        },
    };
    let ghost old_v = v;
    let ghost old_items = items@;
    match scrub_edge_list(items, id) {
        None => Ok(None),
        Some(kept) => {
            let arr = array_value(kept);
            set_member(&mut v, "edges", arr);
            let t = pretty_text(&v);
            proof {
                assert(edges_replaced(old_v, v, old_items.filter(not_into(id@))));
            }
            Ok(Some(t))
        },
    }
}

/// A legacy edge line: its `from`, its `to` (each empty when missing) and
/// its `type` as it stands; refused when the line is not JSON.
pub fn legacy_edge(line: &str) -> (r: Result<(String, String, serde_json::Value), CxError>)
    ensures
        match r {
            Err(e) => e is InvalidJson && !json_text_valid(line@),
            Ok((f, to, t)) => json_text_valid(line@) && f@ == str_or_empty(json_parsed(line@), "from"@)
                && to@ == str_or_empty(json_parsed(line@), "to"@) && t == json_member(json_parsed(line@), "type"@),
        },
{
    match parse_json(line) {
        Some(v) => Ok((member_or_empty(&v, "from"), member_or_empty(&v, "to"), member(&v, "type"))),
        None => Err(CxError::InvalidJson),
    }
}

/// `w` is the object `v` with its `edges` member replaced by an array of
/// `items`, every other member as it was.
pub open spec fn edges_replaced(v: serde_json::Value, w: serde_json::Value, items: Seq<serde_json::Value>) -> bool {
    &&& json_is_object(w)
    &&& json_array_items(json_member(w, "edges"@)) == Some(items)
    &&& forall|k: Seq<char>| k != "edges"@ ==> #[trigger] json_member(w, k) == json_member(v, k)
}

/// The edges a node file value lists: its `edges` array, or none.
pub open spec fn edge_list(v: serde_json::Value) -> Seq<serde_json::Value> {
    match json_array_items(json_member(v, "edges"@)) {
        Some(items) => items,
        None => Seq::empty(),
    }
}

/// The node file value already lists an edge to `to` of type `t`.
pub open spec fn already_listed(v: serde_json::Value, to: Seq<char>, t: serde_json::Value) -> bool {
    match json_array_items(json_member(v, "edges"@)) {
        Some(items) => lists_edge(items, to, t),
        None => false,
    }
}

/// `e` is the edge `{"to": to, "type": t}` of a node file.
pub open spec fn is_edge_to(e: serde_json::Value, to: Seq<char>, t: serde_json::Value) -> bool {
    &&& json_is_object(e)
    &&& json_str_value(json_member(e, "to"@)) == Some(to)
    &&& json_member(e, "type"@) == t
}

/// Adds a legacy edge to a node file's text: `None` when its `edges` array
/// already lists an edge to `to` of that type; otherwise the new text, the
/// same object with the edge appended (in a new `edges` array when there
/// was none). Refused when the text is not a JSON object.
pub fn absorb_legacy_edge(text: &str, to: &str, t: &serde_json::Value) -> (r: Result<Option<String>, CxError>)
    ensures
        match r {
            Err(e) => e is InvalidJson && !(json_text_valid(text@) && json_is_object(json_parsed(text@))),
            Ok(None) => json_text_valid(text@) && json_is_object(json_parsed(text@))
                && already_listed(json_parsed(text@), to@, *t),
            Ok(Some(s)) => json_text_valid(text@) && {
                let v = json_parsed(text@);
                &&& json_is_object(v)
                &&& !already_listed(v, to@, *t)
                &&& exists|w: serde_json::Value| #[trigger] json_pretty(w) == s@ && exists|e: serde_json::Value|
                    is_edge_to(e, to@, *t) && #[trigger] edges_replaced(v, w, edge_list(v).push(e))
            },
        },
{
    let mut v = match parse_json(text) {
        Some(v) => v,
        None => {
            return Err(CxError::InvalidJson);
        },
    };
    if !is_object(&v) {
        return Err(CxError::InvalidJson);
    }
    let ghost old_v = v;
    let mut items = match array_items(&member(&v, "edges")) {
        Some(items) => {
            if edge_listed(&items, to, t) {
                return Ok(None);
            }
            items
        },
        None => Vec::new(),
    };
    let ghost base = items@;
    let e = edge_value(to, t);
    let ghost ge = e;
    items.push(e);
    let arr = array_value(items);
    set_member(&mut v, "edges", arr);
    let out = pretty_text(&v);
    proof {
        assert(base == edge_list(old_v));
        assert(edges_replaced(old_v, v, edge_list(old_v).push(ge)));
    }
    Ok(Some(out))
}

} // verus!
