//! The issue graph: nodes, their states, edges between them, and the
//! queries over the hierarchy that every command builds on.
use vstd::prelude::*;

use crate::clock::{now, Timestamp};
use crate::text::{contains_str, insert_all_sorted, str_eq, strictly_sorted};

verus! {

/// Where a node stands in its lifecycle.
#[derive(Clone, Copy, Debug, PartialEq, Eq, Structural)]
pub enum State {
    Latent,
    Ready,
    Claimed,
    Integrated,
}

/// The name of a state as it is written in node files and shown to users.
pub open spec fn state_name(s: State) -> Seq<char> {
    match s {
        State::Latent => seq!['l', 'a', 't', 'e', 'n', 't'],
        State::Ready => seq!['r', 'e', 'a', 'd', 'y'],
        State::Claimed => seq!['c', 'l', 'a', 'i', 'm', 'e', 'd'],
        State::Integrated => seq!['i', 'n', 't', 'e', 'g', 'r', 'a', 't', 'e', 'd'],
    }
}

impl State {
    /// The state's name: `latent`, `ready`, `claimed` or `integrated`.
    pub fn name(&self) -> (r: String)
        ensures
            r@ == state_name(*self),
    {
        let s = match self {
            State::Latent => "latent",
            State::Ready => "ready",
            State::Claimed => "claimed",
            State::Integrated => "integrated",
        };
        proof {
            reveal_strlit("latent");
            reveal_strlit("ready");
            reveal_strlit("claimed");
            reveal_strlit("integrated");
        }
        s.to_string()
    }
}

/// The kind of a relationship between two nodes.
#[derive(Clone, Copy, Debug, PartialEq, Eq, Structural)]
pub enum EdgeType {
    Blocks,
    WaitsFor,
    DiscoveredFrom,
    Related,
}

/// The name of an edge type as it is written in node files.
pub open spec fn edge_type_name(t: EdgeType) -> Seq<char> {
    match t {
        EdgeType::Blocks => seq!['b', 'l', 'o', 'c', 'k', 's'],
        EdgeType::WaitsFor => seq!['w', 'a', 'i', 't', 's', '-', 'f', 'o', 'r'],
        EdgeType::DiscoveredFrom => seq![
            'd', 'i', 's', 'c', 'o', 'v', 'e', 'r', 'e', 'd', '-', 'f', 'r', 'o', 'm',
        ],
        EdgeType::Related => seq!['r', 'e', 'l', 'a', 't', 'e', 'd'],
    }
}

impl EdgeType {
    /// The edge type's name: `blocks`, `waits-for`, `discovered-from` or `related`.
    pub fn name(&self) -> (r: String)
        ensures
            r@ == edge_type_name(*self),
    {
        let s = match self {
            EdgeType::Blocks => "blocks",
            EdgeType::WaitsFor => "waits-for",
            EdgeType::DiscoveredFrom => "discovered-from",
            EdgeType::Related => "related",
        };
        proof {
            reveal_strlit("blocks");
            reveal_strlit("waits-for");
            reveal_strlit("discovered-from");
            reveal_strlit("related");
        }
        s.to_string()
    }
}

impl EdgeType {
    /// The edge type with this name, if any.
    pub fn from_name(s: &str) -> (r: Option<EdgeType>)
        ensures
            match r {
                Some(t) => edge_type_name(t) == s@,
                None => forall|t: EdgeType| edge_type_name(t) != s@,
            },
    {
        let all = [EdgeType::Blocks, EdgeType::WaitsFor, EdgeType::DiscoveredFrom, EdgeType::Related];
        let mut k: usize = 0;
        while k < 4
            invariant
                k <= 4,
                all@ == seq![EdgeType::Blocks, EdgeType::WaitsFor, EdgeType::DiscoveredFrom, EdgeType::Related],
                forall|j: int| 0 <= j < k ==> edge_type_name(all@[j]) != s@,
            decreases 4 - k,
        {
            let t = all[k];
            let name = t.name();
            if crate::text::str_eq(name.as_str(), s) {
                return Some(t);
            }
            k += 1;
        }
        proof {
            assert forall|t: EdgeType| edge_type_name(t) != s@ by {
                match t {
                    EdgeType::Blocks => assert(edge_type_name(all@[0]) != s@),
                    EdgeType::WaitsFor => assert(edge_type_name(all@[1]) != s@),
                    EdgeType::DiscoveredFrom => assert(edge_type_name(all@[2]) != s@),
                    EdgeType::Related => assert(edge_type_name(all@[3]) != s@),
                }
            }
        }
        None
    }
}

impl State {
    /// The state with this name, if any.
    pub fn from_name(s: &str) -> (r: Option<State>)
        ensures
            match r {
                Some(t) => state_name(t) == s@,
                None => forall|t: State| state_name(t) != s@,
            },
    {
        let all = [State::Latent, State::Ready, State::Claimed, State::Integrated];
        let mut k: usize = 0;
        while k < 4
            invariant
                k <= 4,
                all@ == seq![State::Latent, State::Ready, State::Claimed, State::Integrated],
                forall|j: int| 0 <= j < k ==> state_name(all@[j]) != s@,
            decreases 4 - k,
        {
            let t = all[k];
            let name = t.name();
            if crate::text::str_eq(name.as_str(), s) {
                return Some(t);
            }
            k += 1;
        }
        proof {
            assert forall|t: State| state_name(t) != s@ by {
                match t {
                    State::Latent => assert(state_name(all@[0]) != s@),
                    State::Ready => assert(state_name(all@[1]) != s@),
                    State::Claimed => assert(state_name(all@[2]) != s@),
                    State::Integrated => assert(state_name(all@[3]) != s@),
                }
            }
        }
        None
    }
}

/// One entry of a node's comment thread.
pub struct Comment {
    pub timestamp: Timestamp,
    pub author: String,
    pub tag: Option<String>,
    pub body: String,
}

/// A node of the graph: a unit of work.
pub struct Node {
    pub id: String,
    pub title: String,
    pub state: State,
    pub shadowed: bool,
    pub part: Option<String>,
    pub created_at: Timestamp,
    pub updated_at: Timestamp,
    /// Who or what created this node.
    pub filed_by: Option<String>,
    /// The node's own tags; children inherit them when they are read.
    pub tags: Vec<String>,
    /// The parent node's ID; `None` for a root.
    pub parent: Option<String>,
    /// Arbitrary JSON for orchestrators; the library only reads and
    /// writes its `_reason` member.
    pub meta: Option<serde_json::Value>,
    /// Edges stored in the node's own file; `from` is the node itself.
    pub outgoing_edges: Vec<OutgoingEdge>,
    pub body: Option<String>,
    pub comments: Vec<Comment>,
}

/// An edge as stored in its source node's file.
pub struct OutgoingEdge {
    pub to: String,
    pub edge_type: EdgeType,
}

/// An edge of the graph.
pub struct Edge {
    pub from: String,
    pub to: String,
    pub edge_type: EdgeType,
}

/// The live nodes and the edges between them.
pub struct Graph {
    pub version: u32,
    pub nodes: Vec<Node>,
    pub edges: Vec<Edge>,
}

/// An optional string, by its characters.
pub open spec fn ov(o: Option<String>) -> Option<Seq<char>> {
    match o {
        Some(s) => Some(s@),
        None => None,
    }
}

/// The position of the first node with ID `id`, or -1 when there is none.
pub open spec fn node_index(nodes: Seq<Node>, id: Seq<char>) -> int
    decreases nodes.len(),
{
    if nodes.len() == 0 {
        -1
    } else if nodes[0].id@ == id {
        0
    } else {
        let r = node_index(nodes.drop_first(), id);
        if r < 0 {
            -1
        } else {
            r + 1
        }
    }
}

/// The first node with ID `id`.
pub open spec fn lookup(nodes: Seq<Node>, id: Seq<char>) -> Option<Node> {
    let i = node_index(nodes, id);
    if i >= 0 {
        Some(nodes[i])
    } else {
        None
    }
}

/// `node_index` is the first position holding `id`, or -1 when none does.
pub proof fn lemma_node_index(nodes: Seq<Node>, id: Seq<char>)
    ensures
        -1 <= node_index(nodes, id) < nodes.len(),
        node_index(nodes, id) >= 0 ==> nodes[node_index(nodes, id)].id@ == id,
        forall|j: int| 0 <= j < node_index(nodes, id) ==> nodes[j].id@ != id,
        node_index(nodes, id) < 0 ==> forall|j: int| 0 <= j < nodes.len() ==> nodes[j].id@ != id,
    decreases nodes.len(),
{
    if nodes.len() > 0 && nodes[0].id@ != id {
        lemma_node_index(nodes.drop_first(), id);
        assert forall|j: int| 0 <= j < nodes.len() && node_index(nodes, id) < 0 implies nodes[j].id@
            != id by {
            if j > 0 {
                assert(nodes.drop_first()[j - 1] == nodes[j]);
            }
        }
        assert forall|j: int| 0 <= j < node_index(nodes, id) implies nodes[j].id@ != id by {
            if j > 0 {
                assert(nodes.drop_first()[j - 1] == nodes[j]);
            }
        }
    }
}

/// A position that holds `id`, with no earlier one holding it, is `node_index`.
pub proof fn lemma_node_index_first(nodes: Seq<Node>, id: Seq<char>, i: int)
    requires
        0 <= i < nodes.len(),
        nodes[i].id@ == id,
        forall|j: int| 0 <= j < i ==> nodes[j].id@ != id,
    ensures
        node_index(nodes, id) == i,
{
    lemma_node_index(nodes, id);
}

/// `node_index` looks only at the IDs.
pub proof fn lemma_node_index_same_ids(a: Seq<Node>, b: Seq<Node>, id: Seq<char>)
    requires
        a.len() == b.len(),
        forall|q: int| 0 <= q < a.len() ==> #[trigger] a[q].id@ == b[q].id@,
    ensures
        node_index(a, id) == node_index(b, id),
        lookup(a, id) is Some <==> lookup(b, id) is Some,
    decreases a.len(),
{
    if a.len() > 0 {
        assert(a[0].id@ == b[0].id@);
        assert forall|q: int| 0 <= q < a.drop_first().len() implies #[trigger] a.drop_first()[q].id@
            == b.drop_first()[q].id@ by {
            assert(a[q + 1].id@ == b[q + 1].id@);
        }
        lemma_node_index_same_ids(a.drop_first(), b.drop_first(), id);
    }
}

/// The parent recorded on the first node with ID `id`.
pub open spec fn parent_of(nodes: Seq<Node>, id: Seq<char>) -> Option<Seq<char>> {
    match lookup(nodes, id) {
        Some(n) => ov(n.parent),
        None => None,
    }
}

/// The first `fuel` links of the parent chain above `id`.
pub open spec fn chain(nodes: Seq<Node>, id: Seq<char>, fuel: nat) -> Seq<Seq<char>>
    decreases fuel,
{
    if fuel == 0 {
        Seq::empty()
    } else {
        match parent_of(nodes, id) {
            Some(p) => seq![p] + chain(nodes, p, (fuel - 1) as nat),
            None => Seq::empty(),
        }
    }
}

/// The parent chain above `id` ends within `fuel` links.
pub open spec fn ends_within(nodes: Seq<Node>, id: Seq<char>, fuel: nat) -> bool
    decreases fuel,
{
    match parent_of(nodes, id) {
        None => true,
        Some(p) => fuel > 0 && ends_within(nodes, p, (fuel - 1) as nat),
    }
}

/// The parent chain above `id` is finite (it does not run into a cycle).
pub open spec fn ancestry_finite(nodes: Seq<Node>, id: Seq<char>) -> bool {
    exists|n: nat| ends_within(nodes, id, n)
}

/// Every parent chain of the graph is finite.
pub open spec fn hierarchy_finite(nodes: Seq<Node>) -> bool {
    forall|id: Seq<char>| ancestry_finite(nodes, id)
}

/// All ancestors of `id`, from its parent up to the root.
pub open spec fn ancestors_of(nodes: Seq<Node>, id: Seq<char>) -> Seq<Seq<char>> {
    chain(nodes, id, choose|n: nat| ends_within(nodes, id, n))
}

/// Once the chain has ended, more fuel changes nothing.
pub proof fn lemma_chain_stable(nodes: Seq<Node>, id: Seq<char>, n: nat, m: nat)
    requires
        ends_within(nodes, id, n),
        n <= m,
    ensures
        chain(nodes, id, m) == chain(nodes, id, n),
    decreases n,
{
    match parent_of(nodes, id) {
        None => {},
        Some(p) => {
            lemma_chain_stable(nodes, p, (n - 1) as nat, (m - 1) as nat);
        },
    }
}

/// The ancestors of `id` are its parent followed by the parent's ancestors.
pub proof fn lemma_ancestors_unfold(nodes: Seq<Node>, id: Seq<char>)
    requires
        ancestry_finite(nodes, id),
    ensures
        ancestors_of(nodes, id) == (match parent_of(nodes, id) {
            Some(p) => seq![p] + ancestors_of(nodes, p),
            None => Seq::<Seq<char>>::empty(),
        }),
        parent_of(nodes, id) matches Some(p) ==> ancestry_finite(nodes, p),
{
    let n = choose|n: nat| ends_within(nodes, id, n);
    match parent_of(nodes, id) {
        None => {
            if n > 0 {
            }
        },
        Some(p) => {
            assert(ends_within(nodes, p, (n - 1) as nat));
            let m = choose|m: nat| ends_within(nodes, p, m);
            if m <= (n - 1) as nat {
                lemma_chain_stable(nodes, p, m, (n - 1) as nat);
            } else {
                lemma_chain_stable(nodes, p, (n - 1) as nat, m);
            }
        },
    }
}

/// What `Graph::hierarchy_ok` checks: every node's parent chain ends within
/// as many links as there are nodes, and so does every downward path from
/// every node's parent.
pub open spec fn hierarchy_checked(nodes: Seq<Node>) -> bool {
    forall|k: int|
        #![trigger nodes[k]]
        0 <= k < nodes.len() ==> {
            &&& ends_within(nodes, nodes[k].id@, nodes.len())
            &&& (nodes[k].parent matches Some(p) ==> height_within(nodes, p@, nodes.len()))
        }
}

/// The checked bounds give finite parent chains everywhere, and a finite
/// tree of descendants below every ID.
pub proof fn lemma_hierarchy_checked(nodes: Seq<Node>)
    requires
        hierarchy_checked(nodes),
    ensures
        hierarchy_finite(nodes),
        forall|id: Seq<char>| #[trigger] subtree_finite(nodes, id),
{
    assert forall|id: Seq<char>| ancestry_finite(nodes, id) by {
        lemma_node_index(nodes, id);
        let i = node_index(nodes, id);
        if i >= 0 {
            assert(nodes[i].id@ == id);
            assert(ends_within(nodes, nodes[i].id@, nodes.len()));
        } else {
            assert(ends_within(nodes, id, 0));
        }
    }
    assert forall|id: Seq<char>| #[trigger] subtree_finite(nodes, id) by {
        if exists|k: int| 0 <= k < nodes.len() && is_child_of(nodes[k], id) {
            let k = choose|k: int| 0 <= k < nodes.len() && is_child_of(nodes[k], id);
            assert(nodes[k].parent is Some);
            assert(height_within(nodes, id, nodes.len()));
        } else {
            assert(height_within(nodes, id, 0));
        }
    }
}

/// Nodes whose parent is `pid`.
pub open spec fn is_child_of(n: Node, pid: Seq<char>) -> bool {
    ov(n.parent) == Some(pid)
}

/// Nodes without a parent.
pub open spec fn is_root(n: Node) -> bool {
    n.parent is None
}

/// Every downward path from `id` (to a child, to its child, ...) ends within
/// `fuel` steps.
pub open spec fn height_within(nodes: Seq<Node>, id: Seq<char>, fuel: nat) -> bool
    decreases fuel,
{
    forall|k: int|
        #![trigger nodes[k]]
        0 <= k < nodes.len() && is_child_of(nodes[k], id) ==> fuel > 0 && height_within(
            nodes,
            nodes[k].id@,
            (fuel - 1) as nat,
        )
}

/// The tree of descendants below `id` is finite.
pub open spec fn subtree_finite(nodes: Seq<Node>, id: Seq<char>) -> bool {
    exists|f: nat| height_within(nodes, id, f)
}

/// The nodes whose parent is `id`, in graph order.
pub open spec fn kids(nodes: Seq<Node>, id: Seq<char>) -> Seq<Node> {
    nodes.filter(|n: Node| is_child_of(n, id))
}

/// The next level down from `level`: the children of each of its nodes in
/// turn.
pub open spec fn next_level(nodes: Seq<Node>, level: Seq<Node>) -> Seq<Node>
    decreases level.len(),
{
    if level.len() == 0 {
        Seq::empty()
    } else {
        next_level(nodes, level.drop_last()) + kids(nodes, level.last().id@)
    }
}

/// `level` followed by the levels below it, `fuel` levels in all.
pub open spec fn levels_from(nodes: Seq<Node>, level: Seq<Node>, fuel: nat) -> Seq<Node>
    decreases fuel,
{
    if fuel == 0 {
        Seq::empty()
    } else {
        level + levels_from(nodes, next_level(nodes, level), (fuel - 1) as nat)
    }
}

/// All descendants of `id` in breadth-first order: its children, then their
/// children, and so on.
pub open spec fn descendants_of(nodes: Seq<Node>, id: Seq<char>) -> Seq<Node> {
    levels_from(nodes, kids(nodes, id), choose|f: nat| height_within(nodes, id, f))
}

pub proof fn lemma_levels_empty(nodes: Seq<Node>, fuel: nat)
    ensures
        levels_from(nodes, Seq::empty(), fuel) == Seq::<Node>::empty(),
    decreases fuel,
{
    if fuel > 0 {
        lemma_levels_empty(nodes, (fuel - 1) as nat);
        assert(Seq::<Node>::empty() + Seq::<Node>::empty() =~= Seq::<Node>::empty());
    }
}

/// A child (by `kids`) of a node whose subtree has height `h` has height
/// `h - 1`, and `h > 0`.
pub proof fn lemma_kid_height(nodes: Seq<Node>, id: Seq<char>, h: nat, c: Node)
    requires
        height_within(nodes, id, h),
        kids(nodes, id).contains(c),
    ensures
        h > 0,
        height_within(nodes, c.id@, (h - 1) as nat),
{
    nodes.lemma_filter_contains_rev(|n: Node| is_child_of(n, id), c);
    let k = choose|k: int| 0 <= k < nodes.len() && nodes[k] == c;
    assert(is_child_of(nodes[k], id));
}

/// Every node of the next level has height `h - 1` when every node of the
/// level has height `h`; the next level is empty when `h` is 0.
pub proof fn lemma_next_level_height(nodes: Seq<Node>, level: Seq<Node>, h: nat)
    requires
        forall|i: int| 0 <= i < level.len() ==> height_within(nodes, #[trigger] level[i].id@, h),
    ensures
        h == 0 ==> next_level(nodes, level).len() == 0,
        forall|i: int|
            0 <= i < next_level(nodes, level).len() ==> height_within(
                nodes,
                #[trigger] next_level(nodes, level)[i].id@,
                (h - 1) as nat,
            ),
    decreases level.len(),
{
    if level.len() > 0 {
        let pre = level.drop_last();
        assert forall|i: int| 0 <= i < pre.len() implies height_within(nodes, #[trigger] pre[i].id@, h) by {
            assert(pre[i] == level[i]);
        }
        lemma_next_level_height(nodes, pre, h);
        let last = level.last();
        assert(height_within(nodes, level[level.len() - 1].id@, h));
        let ks = kids(nodes, last.id@);
        let nl = next_level(nodes, level);
        let np = next_level(nodes, pre);
        assert(nl == np + ks);
        if h == 0 && ks.len() > 0 {
            lemma_kid_height(nodes, last.id@, h, ks[0]);
        }
        assert forall|i: int| 0 <= i < nl.len() implies height_within(
            nodes,
            #[trigger] nl[i].id@,
            (h - 1) as nat,
        ) by {
            if i >= np.len() {
                assert(nl[i] == ks[i - np.len()]);
                lemma_kid_height(nodes, last.id@, h, ks[i - np.len()]);
            } else {
                assert(nl[i] == np[i]);
            }
        }
    }
}

/// More fuel adds nothing once every node of the level has height `h` and
/// the fuel exceeds it.
proof fn lemma_levels_stable(nodes: Seq<Node>, level: Seq<Node>, h: nat, m: nat)
    requires
        forall|i: int| 0 <= i < level.len() ==> height_within(nodes, #[trigger] level[i].id@, h),
        h + 1 <= m,
    ensures
        levels_from(nodes, level, m) == levels_from(nodes, level, h + 1),
    decreases h,
{
    lemma_next_level_height(nodes, level, h);
    let nl = next_level(nodes, level);
    if h == 0 {
        assert(nl =~= Seq::<Node>::empty());
        lemma_levels_empty(nodes, (m - 1) as nat);
        lemma_levels_empty(nodes, 0);
    } else {
        lemma_levels_stable(nodes, nl, (h - 1) as nat, (m - 1) as nat);
    }
}




/// The own tags of the first node with ID `id` (none when there is no such node).
pub open spec fn own_tags(nodes: Seq<Node>, id: Seq<char>) -> Seq<Seq<char>> {
    match lookup(nodes, id) {
        Some(n) => n.tags.deep_view(),
        None => Seq::empty(),
    }
}

/// `t` is one of the node's effective tags: its own, or one of an ancestor's.
pub open spec fn has_effective_tag(nodes: Seq<Node>, id: Seq<char>, t: Seq<char>) -> bool {
    own_tags(nodes, id).contains(t) || exists|k: int|
        0 <= k < ancestors_of(nodes, id).len() && #[trigger] own_tags(
            nodes,
            ancestors_of(nodes, id)[k],
        ).contains(t)
}

/// An edge that keeps `id` from becoming ready: a `blocks` edge into it from
/// a live node that is not integrated.
pub open spec fn is_open_blocker(nodes: Seq<Node>, e: Edge, id: Seq<char>) -> bool {
    &&& e.to@ == id
    &&& e.edge_type == EdgeType::Blocks
    &&& lookup(nodes, e.from@) matches Some(b)
    &&& b.state != State::Integrated
}

/// Some edge keeps `id` from becoming ready, leaving aside edges whose
/// source is `skip`.
pub open spec fn open_blocker_other(
    nodes: Seq<Node>,
    edges: Seq<Edge>,
    id: Seq<char>,
    skip: Option<Seq<char>>,
) -> bool {
    exists|k: int|
        0 <= k < edges.len() && #[trigger] is_open_blocker(nodes, edges[k], id) && skip != Some(
            edges[k].from@,
        )
}

/// Some edge keeps `id` from becoming ready.
pub open spec fn has_open_blocker(nodes: Seq<Node>, edges: Seq<Edge>, id: Seq<char>) -> bool {
    open_blocker_other(nodes, edges, id, None)
}

/// An optional string slice, by its characters.
pub open spec fn ostr(o: Option<&str>) -> Option<Seq<char>> {
    match o {
        Some(s) => Some(s@),
        None => None,
    }
}

/// A latent node that nothing keeps from becoming ready.
pub open spec fn is_unblocked_latent(nodes: Seq<Node>, edges: Seq<Edge>, n: Node) -> bool {
    n.state == State::Latent && !has_open_blocker(nodes, edges, n.id@)
}

/// Nodes that are latent and unblocked, as a predicate.
pub open spec fn surfaceable(nodes: Seq<Node>, edges: Seq<Edge>) -> spec_fn(Node) -> bool {
    |n: Node| is_unblocked_latent(nodes, edges, n)
}

/// The IDs of a sequence of nodes.
pub open spec fn ids_of(nodes: Seq<Node>) -> Seq<Seq<char>> {
    nodes.map_values(|n: Node| n.id@)
}


/// A `blocks` edge runs from `a` to `b`.
pub open spec fn blocks_step(edges: Seq<Edge>, a: Seq<char>, b: Seq<char>) -> bool {
    exists|k: int|
        0 <= k < edges.len() && edges[k].from@ == a && edges[k].to@ == b && edges[k].edge_type
            == EdgeType::Blocks
}

/// `p` is a walk along `blocks` edges (a single node is a walk too).
pub open spec fn is_blocks_path(edges: Seq<Edge>, p: Seq<Seq<char>>) -> bool {
    p.len() >= 1 && forall|i: int| 0 <= i < p.len() - 1 ==> #[trigger] blocks_step(edges, p[i], p[i + 1])
}

/// `b` can be reached from `a` along `blocks` edges (`a` reaches itself).
pub open spec fn reaches(edges: Seq<Edge>, a: Seq<char>, b: Seq<char>) -> bool {
    exists|p: Seq<Seq<char>>| #[trigger] is_blocks_path(edges, p) && p[0] == a && p.last() == b
}

/// Every node reaches itself.
pub proof fn lemma_reaches_refl(edges: Seq<Edge>, a: Seq<char>)
    ensures
        reaches(edges, a, a),
{
    let p = seq![a];
    assert(is_blocks_path(edges, p));
    assert(p[0] == a && p.last() == a);
}

/// A walk extended by one `blocks` edge is a walk.
pub proof fn lemma_reaches_step(edges: Seq<Edge>, a: Seq<char>, b: Seq<char>, c: Seq<char>)
    requires
        reaches(edges, a, b),
        blocks_step(edges, b, c),
    ensures
        reaches(edges, a, c),
{
    let p = choose|p: Seq<Seq<char>>| is_blocks_path(edges, p) && p[0] == a && p.last() == b;
    let q = p.push(c);
    assert(q[0] == a && q.last() == c);
    assert forall|i: int| 0 <= i < q.len() - 1 implies #[trigger] blocks_step(edges, q[i], q[i + 1]) by {
        if i < p.len() - 1 {
            assert(q[i] == p[i] && q[i + 1] == p[i + 1]);
            assert(blocks_step(edges, p[i], p[i + 1]));
        }
    }
    assert(is_blocks_path(edges, q));
}

/// A walk that starts in a set closed under `blocks` edges stays in it.
pub proof fn lemma_closed_walk(edges: Seq<Edge>, closed: Set<Seq<char>>, p: Seq<Seq<char>>, i: int)
    requires
        is_blocks_path(edges, p),
        closed.contains(p[0]),
        forall|x: Seq<char>, y: Seq<char>| #[trigger] closed.contains(x) && #[trigger] blocks_step(edges, x, y) ==> closed.contains(y),
        0 <= i < p.len(),
    ensures
        closed.contains(p[i]),
    decreases i,
{
    if i > 0 {
        lemma_closed_walk(edges, closed, p, i - 1);
        assert(blocks_step(edges, p[i - 1], p[(i - 1) + 1]));
    }
}

impl Node {
    /// A new latent root node with the given ID and title, created now.
    pub fn new(id: String, title: String) -> (n: Node)
        ensures
            n.id == id,
            n.title == title,
            n.state == State::Latent,
            !n.shadowed,
            n.part is None,
            n.filed_by is None,
            n.tags@.len() == 0,
            n.parent is None,
            n.meta is None,
            n.outgoing_edges@.len() == 0,
            n.body is None,
            n.comments@.len() == 0,
            n.created_at == n.updated_at,
    {
        let t = now();
        Node {
            id,
            title,
            state: State::Latent,
            shadowed: false,
            part: None,
            created_at: t,
            updated_at: t,
            filed_by: None,
            tags: Vec::new(),
            parent: None,
            meta: None,
            outgoing_edges: Vec::new(),
            body: None,
            comments: Vec::new(),
        }
    }

    /// Records that the node changed at `t`: only `updated_at` moves, to `t`.
    pub fn touch_at(&mut self, t: Timestamp)
        ensures
            *final(self) == (Node { updated_at: t, ..*old(self) }),
    {
        self.updated_at = t;
    }

    /// Records that the node changed now: `updated_at` becomes the clock's
    /// reading, which nothing here can state.
    pub fn touch(&mut self)
        ensures
            *final(self) == (Node { updated_at: final(self).updated_at, ..*old(self) }),
    {
        let t = now();
        self.touch_at(t);
    }
}

impl Default for Graph {
    /// An empty graph of format version 1.
    fn default() -> (g: Graph)
        ensures
            g.version == 1,
            g.nodes@.len() == 0,
            g.edges@.len() == 0,
    {
        Graph { version: 1, nodes: Vec::new(), edges: Vec::new() }
    }
}

impl Graph {
    /// The position of the first node with ID `id`.
    pub fn find_index(&self, id: &str) -> (r: Option<usize>)
        ensures
            match r {
                Some(i) => i < self.nodes@.len() && i as int == node_index(self.nodes@, id@),
                None => node_index(self.nodes@, id@) < 0,
            },
    {
        let mut i: usize = 0;
        while i < self.nodes.len()
            invariant
                i <= self.nodes@.len(),
                forall|j: int| 0 <= j < i ==> self.nodes@[j].id@ != id@,
            decreases self.nodes@.len() - i,
        {
            if str_eq(self.nodes[i].id.as_str(), id) {
                proof {
                    lemma_node_index_first(self.nodes@, id@, i as int);
                }
                return Some(i);
            }
            i += 1;
        }
        proof {
            lemma_node_index(self.nodes@, id@);
            if node_index(self.nodes@, id@) >= 0 {
                assert(self.nodes@[node_index(self.nodes@, id@)].id@ == id@);
            }
        }
        None
    }

    /// The first node with ID `id`.
    pub fn get_node(&self, id: &str) -> (r: Option<&Node>)
        ensures
            match r {
                Some(n) => lookup(self.nodes@, id@) == Some(*n),
                None => lookup(self.nodes@, id@) is None,
            },
    {
        match self.find_index(id) {
            Some(i) => Some(&self.nodes[i]),
            None => None,
        }
    }

    /// The first node with ID `id`, to modify in place.
    pub fn get_node_mut(&mut self, id: &str) -> (r: Option<&mut Node>)
        ensures
            match r {
                Some(n) => {
                    &&& node_index(old(self).nodes@, id@) >= 0
                    &&& *n == old(self).nodes@[node_index(old(self).nodes@, id@)]
                    &&& final(self).nodes@ == old(self).nodes@.update(
                        node_index(old(self).nodes@, id@),
                        *final(n),
                    )
                    &&& final(self).edges == old(self).edges
                    &&& final(self).version == old(self).version
                },
                None => {
                    &&& node_index(old(self).nodes@, id@) < 0
                    &&& *final(self) == *old(self)
                },
            },
    {
        match self.find_index(id) {
            Some(i) => Some(&mut self.nodes[i]),
            None => None,
        }
    }

    /// Direct children of a node (one level deep only).
    pub fn children(&self, parent_id: &str) -> (r: Vec<&Node>)
        ensures
            r@.map_values(|x: &Node| *x) == self.nodes@.filter(|n: Node| is_child_of(n, parent_id@)),
    {
        let mut r: Vec<&Node> = Vec::new();
        let mut i: usize = 0;
        while i < self.nodes.len()
            invariant
                i <= self.nodes@.len(),
                r@.map_values(|x: &Node| *x) == self.nodes@.subrange(0, i as int).filter(
                    |n: Node| is_child_of(n, parent_id@),
                ),
            decreases self.nodes@.len() - i,
        {
            let n = &self.nodes[i];
            let hit = match &n.parent {
                Some(p) => str_eq(p.as_str(), parent_id),
                None => false,
            };
            proof {
                assert(self.nodes@.subrange(0, i + 1) == self.nodes@.subrange(0, i as int).push(
                    self.nodes@[i as int],
                ));
                self.nodes@.subrange(0, i as int).lemma_filter_push(
                    self.nodes@[i as int],
                    |n: Node| is_child_of(n, parent_id@),
                );
            }
            if hit {
                r.push(n);
            }
            proof {
                assert(r@.map_values(|x: &Node| *x) =~= self.nodes@.subrange(0, i + 1).filter(
                    |n: Node| is_child_of(n, parent_id@),
                ));
            }
            i += 1;
        }
        assert(self.nodes@.subrange(0, self.nodes@.len() as int) == self.nodes@);
        r
    }

    /// All transitive descendants, in breadth-first order: the children,
    /// then the grandchildren, and so on.
    pub fn descendants(&self, id: &str) -> (r: Vec<&Node>)
        requires
            subtree_finite(self.nodes@, id@),
        ensures
            r@.map_values(|x: &Node| *x) == descendants_of(self.nodes@, id@),
    {
        let ghost nodes = self.nodes@;
        let ghost f0 = choose|f: nat| height_within(nodes, id@, f);
        let ghost target = descendants_of(nodes, id@);
        let mut result: Vec<&Node> = Vec::new();
        let mut level = self.children(id);
        let ghost mut g: nat = 0;
        proof {
            let ks = kids(nodes, id@);
            assert(level@.map_values(|x: &Node| *x) == ks);
            if f0 == 0 {
                if ks.len() > 0 {
                    lemma_kid_height(nodes, id@, f0, ks[0]);
                }
                assert(ks =~= Seq::<Node>::empty());
                lemma_levels_empty(nodes, 1);
                lemma_levels_empty(nodes, 0);
            } else {
                g = (f0 - 1) as nat;
                assert forall|i: int| 0 <= i < level@.len() implies height_within(
                    nodes,
                    #[trigger] level@[i].id@,
                    g,
                ) by {
                    assert(ks[i] == *level@[i]);
                    lemma_kid_height(nodes, id@, f0, ks[i]);
                }
            }
            assert(result@.map_values(|x: &Node| *x) =~= Seq::<Node>::empty());
            assert(Seq::<Node>::empty() + levels_from(nodes, ks, g + 1) =~= levels_from(nodes, ks, g + 1));
        }
        while level.len() > 0
            invariant
                nodes == self.nodes@,
                target == descendants_of(nodes, id@),
                forall|i: int|
                    0 <= i < level@.len() ==> height_within(
                        nodes,
                        #[trigger] level@[i].id@,
                        g,
                    ),
                result@.map_values(|x: &Node| *x) + levels_from(
                    nodes,
                    level@.map_values(|x: &Node| *x),
                    g + 1,
                ) == target,
            decreases g + if level.len() > 0 { 1int } else { 0int },
        {
            let ghost lv = level@.map_values(|x: &Node| *x);
            let ghost before = result@.map_values(|x: &Node| *x);
            let mut next: Vec<&Node> = Vec::new();
            let mut j: usize = 0;
            while j < level.len()
                invariant
                    j <= level@.len(),
                    lv == level@.map_values(|x: &Node| *x),
                    nodes == self.nodes@,
                    next@.map_values(|x: &Node| *x) == next_level(nodes, lv.subrange(0, j as int)),
                    result@.map_values(|x: &Node| *x) == before + lv.subrange(0, j as int),
                decreases level@.len() - j,
            {
                let n = level[j];
                result.push(n);
                let ghost rj = result@;
                let ks = self.children(n.id.as_str());
                let mut k: usize = 0;
                let ghost base = next@.map_values(|x: &Node| *x);
                while k < ks.len()
                    invariant
                        k <= ks@.len(),
                        result@ == rj,
                        next@.map_values(|x: &Node| *x) == base + ks@.map_values(|x: &Node| *x).subrange(0, k as int),
                    decreases ks@.len() - k,
                {
                    let ghost prev = next@;
                    next.push(ks[k]);
                    proof {
                        let ghost km = ks@.map_values(|x: &Node| *x);
                        assert(next@ == prev.push(ks@[k as int]));
                        assert(km[k as int] == *ks@[k as int]);
                        assert(km.subrange(0, k + 1) =~= km.subrange(0, k as int).push(km[k as int]));
                        assert(next@.map_values(|x: &Node| *x) =~= prev.map_values(|x: &Node| *x).push(*ks@[k as int]));
                    }
                    assert(next@.map_values(|x: &Node| *x) =~= base + ks@.map_values(|x: &Node| *x).subrange(0, k + 1));
                    k += 1;
                }
                proof {
                    assert(ks@.map_values(|x: &Node| *x).subrange(0, ks@.len() as int) =~= ks@.map_values(|x: &Node| *x));
                    let pre = lv.subrange(0, j + 1);
                    assert(pre.drop_last() =~= lv.subrange(0, j as int));
                    assert(pre.last() == lv[j as int]);
                    assert(lv[j as int] == *level@[j as int]);
                    assert(rj == rj.drop_last().push(level@[j as int]));
                    assert(rj.drop_last().map_values(|x: &Node| *x) == before + lv.subrange(0, j as int));
                    assert(result@.map_values(|x: &Node| *x) =~= rj.drop_last().map_values(|x: &Node| *x).push(lv[j as int]));
                    assert(result@.map_values(|x: &Node| *x) =~= before + pre);
                }
                j += 1;
            }
            let ghost nl = next_level(nodes, lv);
            proof {
                assert(lv.subrange(0, lv.len() as int) =~= lv);
                assert(next@.map_values(|x: &Node| *x) == nl);
                assert forall|i: int| 0 <= i < lv.len() implies height_within(nodes, #[trigger] lv[i].id@, g) by {
                    assert(lv[i] == *level@[i]);
                    assert(height_within(nodes, level@[i].id@, g));
                }
                lemma_next_level_height(nodes, lv, g);
                assert(levels_from(nodes, lv, g + 1) == lv + levels_from(nodes, nl, g));
                assert(before + lv + levels_from(nodes, nl, g) =~= before + (lv + levels_from(nodes, nl, g)));
                if nl.len() > 0 {
                    assert(g > 0) by {
                        if g == 0 {
                            assert(nl.len() == 0);
                        }
                    }
                    g = (g - 1) as nat;
                } else {
                    assert(nl =~= Seq::<Node>::empty());
                    lemma_levels_empty(nodes, g);
                    lemma_levels_empty(nodes, g + 1);
                }
            }
            level = next;
            proof {
                assert forall|i: int| 0 <= i < level@.len() implies height_within(
                    nodes,
                    #[trigger] level@[i].id@,
                    g,
                ) by {
                    assert(*level@[i] == nl[i]);
                }
            }
        }
        proof {
            assert(level@.map_values(|x: &Node| *x) =~= Seq::<Node>::empty());
            lemma_levels_empty(nodes, g + 1);
            assert(result@.map_values(|x: &Node| *x) + Seq::<Node>::empty() =~= result@.map_values(|x: &Node| *x));
        }
        result
    }

    /// Whether the parent chain above `id` ends within `fuel` links.
    fn chain_ends_within(&self, id: &str, fuel: usize) -> (r: bool)
        ensures
            r == ends_within(self.nodes@, id@, fuel as nat),
        decreases fuel,
    {
        match self.get_node(id) {
            None => true,
            Some(n) => match &n.parent {
                None => true,
                Some(p) => fuel > 0 && self.chain_ends_within(p.as_str(), fuel - 1),
            },
        }
    }

    /// Whether every downward path from `id` ends within `fuel` steps.
    fn height_at_most(&self, id: &str, fuel: usize) -> (r: bool)
        ensures
            r == height_within(self.nodes@, id@, fuel as nat),
        decreases fuel,
    {
        let mut k: usize = 0;
        while k < self.nodes.len()
            invariant
                k <= self.nodes@.len(),
                forall|q: int|
                    #![trigger self.nodes@[q]]
                    0 <= q < k && is_child_of(self.nodes@[q], id@) ==> fuel > 0 && height_within(
                        self.nodes@,
                        self.nodes@[q].id@,
                        (fuel - 1) as nat,
                    ),
            decreases self.nodes@.len() - k,
        {
            let child = match &self.nodes[k].parent {
                Some(p) => str_eq(p.as_str(), id),
                None => false,
            };
            if child {
                if fuel == 0 {
                    assert(is_child_of(self.nodes@[k as int], id@));
                    return false;
                }
                if !self.height_at_most(self.nodes[k].id.as_str(), fuel - 1) {
                    assert(is_child_of(self.nodes@[k as int], id@));
                    return false;
                }
            }
            k += 1;
        }
        true
    }

    /// Whether the parent chain above `id` ends within as many links as
    /// there are nodes; when it does, that chain is finite.
    pub fn chain_ok(&self, id: &str) -> (r: bool)
        ensures
            r == ends_within(self.nodes@, id@, self.nodes@.len()),
            r ==> ancestry_finite(self.nodes@, id@),
    {
        self.chain_ends_within(id, self.nodes.len())
    }

    /// Whether the hierarchy is sound enough for the tree queries: no
    /// parent chain runs into a cycle, and no subtree is infinite.
    pub fn hierarchy_ok(&self) -> (r: bool)
        ensures
            r == hierarchy_checked(self.nodes@),
            r ==> hierarchy_finite(self.nodes@),
            r ==> forall|id: Seq<char>| #[trigger] subtree_finite(self.nodes@, id),
    {
        let n = self.nodes.len();
        let mut k: usize = 0;
        while k < n
            invariant
                n == self.nodes@.len(),
                k <= n,
                forall|q: int|
                    #![trigger self.nodes@[q]]
                    0 <= q < k ==> {
                        &&& ends_within(self.nodes@, self.nodes@[q].id@, n as nat)
                        &&& (self.nodes@[q].parent matches Some(p) ==> height_within(self.nodes@, p@, n as nat))
                    },
            decreases n - k,
        {
            if !self.chain_ends_within(self.nodes[k].id.as_str(), n) {
                assert(!hierarchy_checked(self.nodes@) ) by {
                    assert(!ends_within(self.nodes@, self.nodes@[k as int].id@, n as nat));
                }
                return false;
            }
            match &self.nodes[k].parent {
                Some(p) => {
                    if !self.height_at_most(p.as_str(), n) {
                        assert(!hierarchy_checked(self.nodes@)) by {
                            assert(self.nodes@[k as int].parent == Some(*p));
                        }
                        return false;
                    }
                },
                None => {},
            }
            k += 1;
        }
        proof {
            lemma_hierarchy_checked(self.nodes@);
        }
        true
    }

    /// All root nodes (no parent).
    pub fn roots(&self) -> (r: Vec<&Node>)
        ensures
            r@.map_values(|x: &Node| *x) == self.nodes@.filter(|n: Node| is_root(n)),
    {
        let mut r: Vec<&Node> = Vec::new();
        let mut i: usize = 0;
        while i < self.nodes.len()
            invariant
                i <= self.nodes@.len(),
                r@.map_values(|x: &Node| *x) == self.nodes@.subrange(0, i as int).filter(
                    |n: Node| is_root(n),
                ),
            decreases self.nodes@.len() - i,
        {
            let n = &self.nodes[i];
            proof {
                assert(self.nodes@.subrange(0, i + 1) == self.nodes@.subrange(0, i as int).push(
                    self.nodes@[i as int],
                ));
                self.nodes@.subrange(0, i as int).lemma_filter_push(
                    self.nodes@[i as int],
                    |n: Node| is_root(n),
                );
            }
            if n.parent.is_none() {
                r.push(n);
            }
            proof {
                assert(r@.map_values(|x: &Node| *x) =~= self.nodes@.subrange(0, i + 1).filter(
                    |n: Node| is_root(n),
                ));
            }
            i += 1;
        }
        assert(self.nodes@.subrange(0, self.nodes@.len() as int) == self.nodes@);
        r
    }

    /// All ancestor IDs, from the immediate parent up to the root.
    pub fn ancestors(&self, id: &str) -> (r: Vec<String>)
        requires
            ancestry_finite(self.nodes@, id@),
        ensures
            r.deep_view() == ancestors_of(self.nodes@, id@),
    {
        let mut result: Vec<String> = Vec::new();
        let mut cur: String = id.to_string();
        let ghost mut fuel: nat = choose|n: nat| ends_within(self.nodes@, id@, n);
        loop
            invariant
                ancestry_finite(self.nodes@, cur@),
                ends_within(self.nodes@, cur@, fuel),
                result.deep_view() + ancestors_of(self.nodes@, cur@) == ancestors_of(
                    self.nodes@,
                    id@,
                ),
            decreases fuel,
        {
            proof {
                lemma_ancestors_unfold(self.nodes@, cur@);
            }
            let next = match self.get_node(cur.as_str()) {
                Some(node) => match &node.parent {
                    Some(p) => Some(p.clone()),
                    None => None,
                },
                None => None,
            };
            match next {
                Some(p) => {
                    let ghost old_result = result.deep_view();
                    result.push(p.clone());
                    proof {
                        assert(result.deep_view() =~= old_result.push(p@));
                        assert(old_result + seq![p@] + ancestors_of(self.nodes@, p@) =~= old_result
                            + (seq![p@] + ancestors_of(self.nodes@, p@)));
                        fuel = (fuel - 1) as nat;
                    }
                    cur = p;
                },
                None => {
                    assert(result.deep_view() + Seq::<Seq<char>>::empty() =~= result.deep_view());
                    return result;
                },
            }
        }
    }

    /// Returns true if `candidate` is a descendant of `ancestor`.
    pub fn is_descendant_of(&self, candidate: &str, ancestor: &str) -> (r: bool)
        requires
            ancestry_finite(self.nodes@, candidate@),
        ensures
            r == ancestors_of(self.nodes@, candidate@).contains(ancestor@),
    {
        let mut cur: String = candidate.to_string();
        let ghost mut seen: Seq<Seq<char>> = Seq::empty();
        let ghost mut fuel: nat = choose|n: nat| ends_within(self.nodes@, candidate@, n);
        loop
            invariant
                ancestry_finite(self.nodes@, cur@),
                ends_within(self.nodes@, cur@, fuel),
                seen + ancestors_of(self.nodes@, cur@) == ancestors_of(self.nodes@, candidate@),
                !seen.contains(ancestor@),
            decreases fuel,
        {
            proof {
                lemma_ancestors_unfold(self.nodes@, cur@);
            }
            let next = match self.get_node(cur.as_str()) {
                Some(node) => match &node.parent {
                    Some(p) => Some(p.clone()),
                    None => None,
                },
                None => None,
            };
            match next {
                Some(p) => {
                    if str_eq(p.as_str(), ancestor) {
                        assert((seen + (seq![p@] + ancestors_of(self.nodes@, p@)))[seen.len() as int]
                            == p@);
                        return true;
                    }
                    proof {
                        assert(seen + seq![p@] + ancestors_of(self.nodes@, p@) =~= seen + (seq![p@]
                            + ancestors_of(self.nodes@, p@)));
                        assert(!seen.push(p@).contains(ancestor@)) by {
                            if seen.push(p@).contains(ancestor@) {
                                let j = choose|j: int|
                                    0 <= j < seen.push(p@).len() && seen.push(p@)[j] == ancestor@;
                                if j < seen.len() {
                                    assert(seen[j] == ancestor@);
                                }
                            }
                        }
                        assert(seen + seq![p@] =~= seen.push(p@));
                        seen = seen.push(p@);
                        fuel = (fuel - 1) as nat;
                    }
                    cur = p;
                },
                None => {
                    assert(seen + Seq::<Seq<char>>::empty() =~= seen);
                    return false;
                },
            }
        }
    }

    /// Effective tags of a node: its own tags and all its ancestors' tags,
    /// sorted and without repeats.
    pub fn effective_tags(&self, id: &str) -> (r: Vec<String>)
        requires
            ancestry_finite(self.nodes@, id@),
        ensures
            strictly_sorted(r.deep_view()),
            forall|t: Seq<char>| #[trigger]
                r.deep_view().contains(t) <==> has_effective_tag(self.nodes@, id@, t),
    {
        let mut tags: Vec<String> = Vec::new();
        assert(tags.deep_view() =~= Seq::<Seq<char>>::empty());
        if let Some(node) = self.get_node(id) {
            insert_all_sorted(&mut tags, &node.tags);
        }
        let ancs = self.ancestors(id);
        let ghost anc = ancestors_of(self.nodes@, id@);
        let mut i: usize = 0;
        while i < ancs.len()
            invariant
                ancs.deep_view() == anc,
                anc == ancestors_of(self.nodes@, id@),
                i <= ancs.len(),
                strictly_sorted(tags.deep_view()),
                forall|t: Seq<char>| #[trigger]
                    tags.deep_view().contains(t) <==> (own_tags(self.nodes@, id@).contains(t)
                        || exists|k: int| 0 <= k < i && #[trigger] own_tags(self.nodes@, anc[k]).contains(t)),
            decreases ancs.len() - i,
        {
            let ghost before = tags.deep_view();
            if let Some(a) = self.get_node(ancs[i].as_str()) {
                insert_all_sorted(&mut tags, &a.tags);
            }
            proof {
                assert(ancs[i as int]@ == anc[i as int]);
                assert forall|t: Seq<char>| #[trigger]
                    tags.deep_view().contains(t) <==> (own_tags(self.nodes@, id@).contains(t)
                        || exists|k: int| 0 <= k < i + 1 && #[trigger] own_tags(self.nodes@, anc[k]).contains(t)) by {
                    if own_tags(self.nodes@, anc[i as int]).contains(t) {
                        assert(tags.deep_view().contains(t));
                    }
                    if exists|k: int| 0 <= k < i + 1 && #[trigger] own_tags(self.nodes@, anc[k]).contains(t) {
                        let k = choose|k: int| 0 <= k < i + 1 && #[trigger] own_tags(self.nodes@, anc[k]).contains(t);
                        if k < i {
                            assert(before.contains(t));
                        }
                    }
                }
            }
            i += 1;
        }
        tags
    }


    /// Returns true if adding a blocks edge from `from` to `to` would create a
    /// cycle: `from` is reachable from `to` along existing blocks edges.
    pub fn would_cycle(&self, from: &str, to: &str) -> (r: bool)
        ensures
            r == reaches(self.edges@, to@, from@),
    {
        let ghost edges = self.edges@;
        let ghost univ = edges.map_values(|e: Edge| e.to@).push(to@).to_set();
        let mut visited: Vec<String> = Vec::new();
        let mut stack: Vec<String> = Vec::new();
        stack.push(to.to_string());
        proof {
            lemma_reaches_refl(edges, to@);
            assert(stack.deep_view() =~= seq![to@]);
            assert(stack.deep_view()[0] == to@);
            assert(univ.contains(to@)) by {
                assert(edges.map_values(|e: Edge| e.to@).push(to@).last() == to@);
            }
            assert(visited.deep_view().to_set() =~= Set::<Seq<char>>::empty());
            vstd::seq_lib::seq_to_set_is_finite(edges.map_values(|e: Edge| e.to@).push(to@));
        }
        loop
            invariant
                edges == self.edges@,
                univ == edges.map_values(|e: Edge| e.to@).push(to@).to_set(),
                univ.finite(),
                forall|x: Seq<char>| #[trigger] visited.deep_view().contains(x) ==> univ.contains(x) && reaches(edges, to@, x),
                forall|x: Seq<char>| #[trigger] stack.deep_view().contains(x) ==> univ.contains(x) && reaches(edges, to@, x),
                !visited.deep_view().contains(from@),
                stack.deep_view().contains(to@) || visited.deep_view().contains(to@),
                forall|v: Seq<char>, k: int|
                    #![trigger visited.deep_view().contains(v), edges[k]]
                    visited.deep_view().contains(v) && 0 <= k < edges.len() && edges[k].from@ == v
                        && edges[k].edge_type == EdgeType::Blocks ==> stack.deep_view().contains(
                        edges[k].to@,
                    ) || visited.deep_view().contains(edges[k].to@),
            decreases univ.len() - visited.deep_view().to_set().len(), stack.len(),
        {
            proof {
                vstd::set_lib::lemma_len_subset(visited.deep_view().to_set(), univ);
            }
            let ghost old_stack = stack.deep_view();
            let ghost old_visited = visited.deep_view();
            match stack.pop() {
                None => {
                    proof {
                        assert(stack.deep_view() =~= Seq::<Seq<char>>::empty());
                        let vs = visited.deep_view().to_set();
                        assert forall|x: Seq<char>, y: Seq<char>|
                            #[trigger] vs.contains(x) && #[trigger] blocks_step(edges, x, y) implies vs.contains(y) by {
                            let k = choose|k: int|
                                0 <= k < edges.len() && edges[k].from@ == x && edges[k].to@ == y
                                    && edges[k].edge_type == EdgeType::Blocks;
                            assert(visited.deep_view().contains(x));
                        }
                        if reaches(edges, to@, from@) {
                            let p = choose|p: Seq<Seq<char>>|
                                is_blocks_path(edges, p) && p[0] == to@ && p.last() == from@;
                            lemma_closed_walk(edges, vs, p, p.len() - 1);
                        }
                    }
                    return false;
                },
                Some(node) => {
                    proof {
                        assert(stack.deep_view() =~= old_stack.drop_last());
                        assert(old_stack.last() == node@);
                        assert(old_stack.contains(node@));
                        assert forall|x: Seq<char>| old_stack.contains(x) && x != node@ implies #[trigger] stack.deep_view().contains(x) by {
                            let j = choose|j: int| 0 <= j < old_stack.len() && old_stack[j] == x;
                            assert(j < old_stack.len() - 1);
                            assert(stack.deep_view()[j] == x);
                        }
                        assert forall|x: Seq<char>| #[trigger] stack.deep_view().contains(x) implies old_stack.contains(x) by {
                            let j = choose|j: int| 0 <= j < stack.deep_view().len() && stack.deep_view()[j] == x;
                            assert(old_stack[j] == x);
                        }
                    }
                    if str_eq(node.as_str(), from) {
                        return true;
                    }
                    if !contains_str(&visited, node.as_str()) {
                        let ghost mid_stack = stack.deep_view();
                        visited.push(node.clone());
                        proof {
                            assert(visited.deep_view() =~= old_visited.push(node@));
                            assert forall|x: Seq<char>| #[trigger] visited.deep_view().contains(x) <==> (old_visited.contains(x) || x == node@) by {
                                if visited.deep_view().contains(x) {
                                    let j = choose|j: int| 0 <= j < visited.deep_view().len() && visited.deep_view()[j] == x;
                                    if j < old_visited.len() {
                                        assert(old_visited[j] == x);
                                    }
                                }
                                if old_visited.contains(x) {
                                    let j = choose|j: int| 0 <= j < old_visited.len() && old_visited[j] == x;
                                    assert(visited.deep_view()[j] == x);
                                }
                                if x == node@ {
                                    assert(visited.deep_view()[old_visited.len() as int] == x);
                                }
                            }
                            assert(visited.deep_view().to_set() =~= old_visited.to_set().insert(node@));
                            vstd::seq_lib::seq_to_set_is_finite(old_visited);
                            vstd::set::axiom_set_insert_len(old_visited.to_set(), node@);
                            assert(!old_visited.to_set().contains(node@));
                            assert(visited.deep_view().to_set().subset_of(univ));
                            vstd::set_lib::lemma_len_subset(visited.deep_view().to_set(), univ);
                        }
                        let mut k: usize = 0;
                        while k < self.edges.len()
                            invariant
                                edges == self.edges@,
                                k <= edges.len(),
                                univ == edges.map_values(|e: Edge| e.to@).push(to@).to_set(),
                                reaches(edges, to@, node@),
                                forall|x: Seq<char>| mid_stack.contains(x) ==> #[trigger] stack.deep_view().contains(x),
                                forall|x: Seq<char>| #[trigger] stack.deep_view().contains(x) ==> univ.contains(x) && reaches(edges, to@, x),
                                forall|j: int| 0 <= j < k && edges[j].from@ == node@ && edges[j].edge_type == EdgeType::Blocks
                                    ==> #[trigger] stack.deep_view().contains(edges[j].to@),
                            decreases edges.len() - k,
                        {
                            let ghost before = stack.deep_view();
                            let e = &self.edges[k];
                            if str_eq(e.from.as_str(), node.as_str()) && e.edge_type == EdgeType::Blocks {
                                stack.push(e.to.clone());
                                proof {
                                    assert(stack.deep_view() =~= before.push(e.to@));
                                    assert(blocks_step(edges, node@, e.to@));
                                    lemma_reaches_step(edges, to@, node@, e.to@);
                                    assert(univ.contains(e.to@)) by {
                                        assert(edges.map_values(|e: Edge| e.to@).push(to@)[k as int] == e.to@);
                                    }
                                    assert forall|x: Seq<char>| #[trigger] stack.deep_view().contains(x) <==> (before.contains(x) || x == e.to@) by {
                                        if stack.deep_view().contains(x) {
                                            let j = choose|j: int| 0 <= j < stack.deep_view().len() && stack.deep_view()[j] == x;
                                            if j < before.len() {
                                                assert(before[j] == x);
                                            }
                                        }
                                        if before.contains(x) {
                                            let j = choose|j: int| 0 <= j < before.len() && before[j] == x;
                                            assert(stack.deep_view()[j] == x);
                                        }
                                        if x == e.to@ {
                                            assert(stack.deep_view()[before.len() as int] == x);
                                        }
                                    }
                                }
                            }
                            k += 1;
                        }
                    }
                }
            }
        }
    }


    /// Whether some edge keeps `id` from becoming ready: a `blocks` edge into
    /// it from a live node that is not integrated and is not `skip`.
    pub fn open_blocker_other(&self, id: &str, skip: Option<&str>) -> (r: bool)
        ensures
            r == open_blocker_other(self.nodes@, self.edges@, id@, ostr(skip)),
    {
        let mut k: usize = 0;
        while k < self.edges.len()
            invariant
                k <= self.edges@.len(),
                forall|j: int|
                    0 <= j < k ==> !(#[trigger] is_open_blocker(self.nodes@, self.edges@[j], id@)
                        && ostr(skip) != Some(self.edges@[j].from@)),
            decreases self.edges@.len() - k,
        {
            let e = &self.edges[k];
            if e.edge_type == EdgeType::Blocks && str_eq(e.to.as_str(), id) {
                let skipped = match skip {
                    Some(x) => str_eq(e.from.as_str(), x),
                    None => false,
                };
                if !skipped {
                    if let Some(b) = self.get_node(e.from.as_str()) {
                        if b.state != State::Integrated {
                            assert(is_open_blocker(self.nodes@, self.edges@[k as int], id@));
                            return true;
                        }
                    }
                }
            }
            k += 1;
        }
        false
    }

    /// Returns IDs of latent nodes that have no non-integrated blockers.
    /// These are candidates for promotion to ready.
    pub fn unblocked_latent_ids(&self) -> (r: Vec<String>)
        ensures
            r.deep_view() == ids_of(
                self.nodes@.filter(surfaceable(self.nodes@, self.edges@)),
            ),
    {
        let ghost pred = surfaceable(self.nodes@, self.edges@);
        let mut r: Vec<String> = Vec::new();
        let mut i: usize = 0;
        while i < self.nodes.len()
            invariant
                i <= self.nodes@.len(),
                pred == surfaceable(self.nodes@, self.edges@),
                r.deep_view() == ids_of(self.nodes@.subrange(0, i as int).filter(pred)),
            decreases self.nodes@.len() - i,
        {
            let n = &self.nodes[i];
            proof {
                assert(self.nodes@.subrange(0, i + 1) == self.nodes@.subrange(0, i as int).push(
                    self.nodes@[i as int],
                ));
                self.nodes@.subrange(0, i as int).lemma_filter_push(self.nodes@[i as int], pred);
            }
            let ghost before = r.deep_view();
            if n.state == State::Latent && !self.open_blocker_other(n.id.as_str(), None) {
                r.push(n.id.clone());
                proof {
                    assert(r.deep_view() =~= before.push(n.id@));
                }
            }
            proof {
                assert(r.deep_view() =~= ids_of(self.nodes@.subrange(0, i + 1).filter(pred)));
            }
            i += 1;
        }
        assert(self.nodes@.subrange(0, self.nodes@.len() as int) == self.nodes@);
        r
    }

}

} // verus!
