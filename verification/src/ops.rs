//! The commands: the checks each one makes and what it changes in the graph.
use vstd::prelude::*;

use crate::id::{resolve, resolves_to, suffix_matches, IdError};
use crate::json::{empty_object, is_object, json_is_null, json_is_object, json_member, json_string_members, set_string_member};
use crate::clock::{now, parse_rfc3339, rfc3339_instant, Timestamp};
use crate::model::{Comment, 
    ancestors_of, ancestry_finite, surfaceable, open_blocker_other, EdgeType, has_effective_tag, has_open_blocker, hierarchy_finite, ids_of,
    is_child_of, height_within, subtree_finite, lemma_node_index, reaches, lookup, node_index, ov, Edge, Graph, Node, State,
};
use crate::text::{contains_str, str_eq};

verus! {

/// Why a command refused to act.
#[derive(Debug)]
pub enum CxError {
    /// An ID could not be resolved (or generated).
    Id(IdError),
    /// The parent given to `new` could not be resolved.
    ParentNotFound(String),
    /// Only latent nodes can be surfaced.
    NotLatent { id: String, state: State },
    /// The node is already claimed, by this part.
    AlreadyClaimed { id: String, part: Option<String> },
    /// The node is already integrated.
    AlreadyIntegrated(String),
    /// A latent node must be surfaced before it is claimed.
    LatentNotSurfaced(String),
    /// The node, or the named ancestor, has a blocker that is not integrated.
    Blocked { id: String, blocker: String },
    /// Only claimed nodes can be unclaimed.
    NotClaimed { id: String, state: State },
    /// Only integrated nodes can be archived.
    NotIntegrated { id: String, state: State },
    /// The node to restore is already in the live graph.
    AlreadyLive(String),
    /// No archived node has this ID.
    NotArchived(String),
    /// The node still has children that are not integrated.
    ActiveChildren { id: String, children: Vec<String> },
    /// `move` needs a new parent or the root flag.
    MoveTargetMissing,
    /// `move` cannot take both a new parent and the root flag.
    MoveTargetConflict,
    /// A node cannot move under itself or one of its descendants.
    MoveUnderDescendant { id: String, target: String },
    /// The node already has that parent.
    AlreadyThere(String),
    /// The blocks edge would close a cycle.
    Cycle { from: String, to: String },
    /// The text is not an RFC 3339 timestamp.
    InvalidTimestamp(String),
    /// The node has no comment with that timestamp.
    NoSuchComment { ts: String, id: String },
    /// A comment needs a body.
    EmptyComment,
    /// The metadata is not valid JSON.
    InvalidJson,
    /// No live node has this ID.
    NodeNotFound(String),
    /// A stored edge type is not one of the known names.
    UnknownEdgeType,
    /// Two live nodes have the same ID.
    DuplicateNodeId(String),
    /// The same edge is stored twice.
    DuplicateEdge { from: String, to: String, edge_type: EdgeType },
}

/// The key under which a node's metadata records the reason for its last change.
pub open spec fn reason_key() -> Seq<char> {
    seq!['_', 'r', 'e', 'a', 's', 'o', 'n']
}

/// `new_meta` is `old_meta` after recording `reason`: with no reason nothing
/// changes; otherwise missing metadata becomes an object holding only the
/// reason, an object gains (or replaces) its `_reason` member and keeps
/// every other member as it was, and any other JSON value is left as it was.
pub open spec fn reason_applied(
    old_meta: Option<serde_json::Value>,
    new_meta: Option<serde_json::Value>,
    reason: Option<Seq<char>>,
) -> bool {
    match reason {
        None => new_meta == old_meta,
        Some(r) => match old_meta {
            None => new_meta matches Some(v) && json_is_object(v) && json_string_members(v)
                == Map::<Seq<char>, Seq<char>>::empty().insert(reason_key(), r)
                && forall|k: Seq<char>| k != reason_key() ==> #[trigger] json_is_null(json_member(v, k)),
            Some(o) => if json_is_object(o) {
                new_meta matches Some(v) && json_is_object(v) && json_string_members(v)
                    == json_string_members(o).insert(reason_key(), r)
                    && forall|k: Seq<char>| k != reason_key() ==> #[trigger] json_member(v, k) == json_member(o, k)
            } else {
                new_meta == old_meta
            },
        },
    }
}

/// An optional string slice, by its characters.
pub open spec fn os(o: Option<&str>) -> Option<Seq<char>> {
    match o {
        Some(s) => Some(s@),
        None => None,
    }
}

/// Merges `{"_reason": reason}` into a node's metadata (or creates it).
pub fn set_reason(node: &mut Node, reason: &str)
    ensures
        *final(node) == (Node { meta: final(node).meta, ..*old(node) }),
        reason_applied(old(node).meta, final(node).meta, Some(reason@)),
{
    let key = "_reason";
    proof {
        reveal_strlit("_reason");
        assert(key@ == reason_key());
    }
    if node.meta.is_none() {
        let obj = empty_object();
        proof {
            assert(json_string_members(obj) =~= Map::<Seq<char>, Seq<char>>::empty());
        }
        node.meta = Some(obj);
    }
    match &mut node.meta {
        Some(v) => {
            if is_object(v) {
                set_string_member(v, key, reason);
            }
        },
        None => {},
    }
}

/// Records `reason`, when there is one.
fn apply_reason(node: &mut Node, reason: Option<&str>)
    ensures
        *final(node) == (Node { meta: final(node).meta, ..*old(node) }),
        reason_applied(old(node).meta, final(node).meta, os(reason)),
{
    if let Some(r) = reason {
        set_reason(node, r);
    }
}

/// Every ID in use: the archived ones and those of the live nodes.
pub fn collect_existing_ids(archived: Vec<String>, graph: &Graph) -> (r: Vec<String>)
    ensures
        r.deep_view() == archived.deep_view() + ids_of(graph.nodes@),
{
    let mut ids = archived;
    let ghost start = ids.deep_view();
    let mut i: usize = 0;
    while i < graph.nodes.len()
        invariant
            i <= graph.nodes@.len(),
            ids.deep_view() == start + ids_of(graph.nodes@.subrange(0, i as int)),
        decreases graph.nodes@.len() - i,
    {
        let ghost before = ids.deep_view();
        ids.push(graph.nodes[i].id.clone());
        assert(ids.deep_view() =~= before.push(graph.nodes@[i as int].id@));
        assert(ids_of(graph.nodes@.subrange(0, i + 1)) =~= ids_of(graph.nodes@.subrange(0, i as int)).push(
            graph.nodes@[i as int].id@,
        ));
        i += 1;
    }
    assert(graph.nodes@.subrange(0, graph.nodes@.len() as int) == graph.nodes@);
    ids
}


/// `e` is how `resolve` refuses `partial`: it names no node.
pub open spec fn resolve_refused(e: IdError, nodes: Seq<Node>, partial: Seq<char>) -> bool {
    &&& resolves_to(nodes, partial) is None
    &&& match e {
        IdError::NoMatch(p) => p@ == partial && suffix_matches(nodes, partial).len() == 0,
        IdError::Ambiguous(p, ms) => p@ == partial && ms.deep_view() == suffix_matches(nodes, partial)
            && ms.len() > 1,
        IdError::Exhausted => false,
    }
}

/// A resolved ID names a live node.
pub proof fn lemma_resolved_exists(nodes: Seq<Node>, partial: Seq<char>)
    requires
        resolves_to(nodes, partial) is Some,
    ensures
        node_index(nodes, resolves_to(nodes, partial)->0) >= 0,
{
    lemma_node_index(nodes, partial);
    let id = resolves_to(nodes, partial)->0;
    if lookup(nodes, partial) is None {
        let pred = |n: Node| crate::text::is_suffix(seq!['.'] + partial, n.id@);
        let f = nodes.filter(pred);
        assert(f.len() == 1);
        assert(f.contains(f[0]));
        nodes.lemma_filter_contains_rev(pred, f[0]);
        lemma_node_index(nodes, id);
    }
}

/// Resolves `partial` to the position of its node.
fn resolve_index(graph: &Graph, partial: &str) -> (r: Result<(String, usize), CxError>)
    ensures
        match r {
            Ok((id, i)) => resolves_to(graph.nodes@, partial@) == Some(id@) && i < graph.nodes@.len()
                && i as int == node_index(graph.nodes@, id@),
            Err(CxError::Id(e)) => resolve_refused(e, graph.nodes@, partial@),
            Err(_) => false,
        },
{
    match resolve(graph, partial) {
        Ok(id) => {
            proof {
                lemma_resolved_exists(graph.nodes@, partial@);
            }
            match graph.find_index(id.as_str()) {
                Some(i) => Ok((id, i)),
                None => Err(CxError::Id(IdError::Exhausted)),
            }
        },
        Err(e) => Err(CxError::Id(e)),
    }
}

/// The first of `chain` that some edge keeps from becoming ready.
pub open spec fn first_blocked(nodes: Seq<Node>, edges: Seq<Edge>, chain: Seq<Seq<char>>) -> Option<
    Seq<char>,
>
    decreases chain.len(),
{
    if chain.len() == 0 {
        None
    } else if has_open_blocker(nodes, edges, chain[0]) {
        Some(chain[0])
    } else {
        first_blocked(nodes, edges, chain.drop_first())
    }
}

/// The node itself or its nearest ancestor that has an open blocker.
pub open spec fn blocking_ancestor(nodes: Seq<Node>, edges: Seq<Edge>, id: Seq<char>) -> Option<
    Seq<char>,
> {
    first_blocked(nodes, edges, seq![id] + ancestors_of(nodes, id))
}

/// Returns the ID of the first ancestor (or self) that has an unresolved blocker,
/// or None if the node is unblocked.
pub fn ancestor_blocker(graph: &Graph, id: &str) -> (r: Option<String>)
    requires
        ancestry_finite(graph.nodes@, id@),
    ensures
        ov(r) == blocking_ancestor(graph.nodes@, graph.edges@, id@),
{
    let mut chain: Vec<String> = Vec::new();
    chain.push(id.to_string());
    let ancs = graph.ancestors(id);
    let mut j: usize = 0;
    while j < ancs.len()
        invariant
            j <= ancs.len(),
            chain.deep_view() == seq![id@] + ancs.deep_view().subrange(0, j as int),
        decreases ancs.len() - j,
    {
        let ghost before = chain.deep_view();
        chain.push(ancs[j].clone());
        assert(chain.deep_view() =~= before.push(ancs.deep_view()[j as int]));
        assert(ancs.deep_view().subrange(0, j + 1) =~= ancs.deep_view().subrange(0, j as int).push(
            ancs.deep_view()[j as int],
        ));
        j += 1;
    }
    assert(ancs.deep_view().subrange(0, ancs.len() as int) =~= ancs.deep_view());
    let ghost full = chain.deep_view();
    let mut i: usize = 0;
    assert(full.skip(0) =~= full);
    while i < chain.len()
        invariant
            full == chain.deep_view(),
            full == seq![id@] + ancestors_of(graph.nodes@, id@),
            i <= chain.len(),
            first_blocked(graph.nodes@, graph.edges@, full) == first_blocked(
                graph.nodes@,
                graph.edges@,
                full.skip(i as int),
            ),
        decreases chain.len() - i,
    {
        assert(full.skip(i as int)[0] == chain[i as int]@);
        assert(full.skip(i as int).drop_first() =~= full.skip(i + 1));
        if graph.open_blocker_other(chain[i].as_str(), None) {
            let b = chain[i].clone();
            assert(first_blocked(graph.nodes@, graph.edges@, full.skip(i as int)) == Some(b@));
            return Some(b);
        }
        i += 1;
    }
    None
}

/// Within `fuel` levels, the node or a descendant has effective tag `tag`.
pub open spec fn subtree_has(nodes: Seq<Node>, id: Seq<char>, tag: Seq<char>, fuel: nat) -> bool
    decreases fuel,
{
    has_effective_tag(nodes, id, tag) || (fuel > 0 && exists|k: int|
        #![trigger nodes[k]]
        0 <= k < nodes.len() && is_child_of(nodes[k], id) && subtree_has(
            nodes,
            nodes[k].id@,
            tag,
            (fuel - 1) as nat,
        ))
}

/// The node or one of its descendants has effective tag `tag`.
pub open spec fn subtree_tagged(nodes: Seq<Node>, id: Seq<char>, tag: Seq<char>) -> bool {
    subtree_has(nodes, id, tag, choose|f: nat| height_within(nodes, id, f))
}

fn subtree_has_tag_within(graph: &Graph, node_id: &str, tag: &str, Ghost(fuel): Ghost<nat>) -> (r: bool)
    requires
        hierarchy_finite(graph.nodes@),
        height_within(graph.nodes@, node_id@, fuel),
    ensures
        r == subtree_has(graph.nodes@, node_id@, tag@, fuel),
    decreases fuel,
{
    let tags = graph.effective_tags(node_id);
    if contains_str(&tags, tag) {
        return true;
    }
    let children = graph.children(node_id);
    let ghost pred = |n: Node| is_child_of(n, node_id@);
    let ghost kids = children@.map_values(|x: &Node| *x);
    assert(kids == graph.nodes@.filter(pred));
    let mut i: usize = 0;
    while i < children.len()
        invariant
            i <= children.len(),
            hierarchy_finite(graph.nodes@),
            height_within(graph.nodes@, node_id@, fuel),
            kids == children@.map_values(|x: &Node| *x),
            kids == graph.nodes@.filter(pred),
            pred == (|n: Node| is_child_of(n, node_id@)),
            forall|j: int|
                0 <= j < i ==> !subtree_has(graph.nodes@, #[trigger] kids[j].id@, tag@, (fuel - 1) as nat),
        decreases children.len() - i,
    {
        proof {
            assert(kids[i as int] == *children[i as int]);
            graph.nodes@.lemma_filter_contains_rev(pred, kids[i as int]);
            let k = choose|k: int| 0 <= k < graph.nodes@.len() && graph.nodes@[k] == kids[i as int];
            assert(is_child_of(graph.nodes@[k], node_id@));
        }
        if subtree_has_tag_within(graph, children[i].id.as_str(), tag, Ghost((fuel - 1) as nat)) {
            proof {
                let k = choose|k: int| 0 <= k < graph.nodes@.len() && graph.nodes@[k] == kids[i as int];
                assert(is_child_of(graph.nodes@[k], node_id@));
            }
            return true;
        }
        i += 1;
    }
    proof {
        assert forall|k: int|
            #![trigger graph.nodes@[k]]
            0 <= k < graph.nodes@.len() && is_child_of(graph.nodes@[k], node_id@) implies !subtree_has(
            graph.nodes@,
            graph.nodes@[k].id@,
            tag@,
            (fuel - 1) as nat,
        ) by {
            graph.nodes@.lemma_filter_contains(pred, k);
            let j = choose|j: int| 0 <= j < kids.len() && kids[j] == graph.nodes@[k];
            assert(kids[j].id@ == graph.nodes@[k].id@);
        }
    }
    false
}

/// Returns true if a node or any descendant has the given effective tag.
pub fn subtree_has_tag(graph: &Graph, node_id: &str, tag: &str) -> (r: bool)
    requires
        hierarchy_finite(graph.nodes@),
        subtree_finite(graph.nodes@, node_id@),
    ensures
        r == subtree_tagged(graph.nodes@, node_id@, tag@),
{
    subtree_has_tag_within(
        graph,
        node_id,
        tag,
        Ghost(choose|f: nat| height_within(graph.nodes@, node_id@, f)),
    )
}


/// `new` is `old` with only the node at `i` replaced.
pub open spec fn replaces_node(old: Graph, new: Graph, i: int) -> bool {
    &&& 0 <= i < old.nodes@.len()
    &&& new.nodes@ == old.nodes@.update(i, new.nodes@[i])
    &&& new.edges == old.edges
    &&& new.version == old.version
}

/// `new` is `old` after a change: `updated_at` has moved, the reason is recorded,
/// and nothing else differs from `expected` (which names the changed fields).
pub open spec fn touched(old: Node, new: Node, expected: Node, reason: Option<Seq<char>>) -> bool {
    &&& new == (Node { updated_at: new.updated_at, meta: new.meta, ..expected })
    &&& reason_applied(old.meta, new.meta, reason)
}

/// Claim a node for a part: it must be ready, and neither it nor an
/// ancestor may have an open blocker. Returns the resolved ID.
pub fn claim(graph: &mut Graph, partial: &str, part: &str, reason: Option<&str>) -> (r: Result<
    String,
    CxError,
>)
    requires
        match resolves_to(old(graph).nodes@, partial@) {
            Some(id) => old(graph).nodes@[node_index(old(graph).nodes@, id)].state == State::Ready
                ==> ancestry_finite(old(graph).nodes@, id),
            None => true,
        },
    ensures
        match resolves_to(old(graph).nodes@, partial@) {
            None => r matches Err(CxError::Id(e)) && resolve_refused(e, old(graph).nodes@, partial@)
                && *final(graph) == *old(graph),
            Some(id) => {
                let i = node_index(old(graph).nodes@, id);
                let n = old(graph).nodes@[i];
                if n.state == State::Claimed {
                    &&& r matches Err(CxError::AlreadyClaimed { id: x, part: p })
                    &&& x@ == id && ov(p) == ov(n.part)
                    &&& *final(graph) == *old(graph)
                } else if n.state == State::Integrated {
                    r matches Err(CxError::AlreadyIntegrated(x)) && x@ == id && *final(graph) == *old(graph)
                } else if n.state == State::Latent {
                    r matches Err(CxError::LatentNotSurfaced(x)) && x@ == id && *final(graph) == *old(graph)
                } else if blocking_ancestor(old(graph).nodes@, old(graph).edges@, id) is Some {
                    &&& r matches Err(CxError::Blocked { id: x, blocker: b })
                    &&& x@ == id
                    &&& Some(b@) == blocking_ancestor(old(graph).nodes@, old(graph).edges@, id)
                    &&& *final(graph) == *old(graph)
                } else {
                    let m = final(graph).nodes@[i];
                    &&& r matches Ok(x) && x@ == id
                    &&& replaces_node(*old(graph), *final(graph), i)
                    &&& ov(m.part) == Some(part@)
                    &&& touched(n, m, Node { state: State::Claimed, part: m.part, ..n }, os(reason))
                }
            },
        },
{
    let (id, i) = resolve_index(graph, partial)?;
    match graph.nodes[i].state {
        State::Claimed => {
            return Err(CxError::AlreadyClaimed { id, part: graph.nodes[i].part.clone() });
        },
        State::Integrated => {
            return Err(CxError::AlreadyIntegrated(id));
        },
        State::Latent => {
            return Err(CxError::LatentNotSurfaced(id));
        },
        State::Ready => {},
    }
    proof {
        crate::model::lemma_node_index(graph.nodes@, id@);
    }
    if let Some(blocker) = ancestor_blocker(graph, id.as_str()) {
        return Err(CxError::Blocked { id, blocker });
    }
    graph.nodes[i].state = State::Claimed;
    graph.nodes[i].part = Some(part.to_string());
    graph.nodes[i].touch();
    apply_reason(&mut graph.nodes[i], reason);
    assert(graph.nodes@ =~= old(graph).nodes@.update(i as int, graph.nodes@[i as int]));
    Ok(id)
}


/// Release a claim, returning the node to ready. Returns the resolved ID.
pub fn unclaim(graph: &mut Graph, partial: &str, reason: Option<&str>) -> (r: Result<String, CxError>)
    ensures
        match resolves_to(old(graph).nodes@, partial@) {
            None => r matches Err(CxError::Id(e)) && resolve_refused(e, old(graph).nodes@, partial@)
                && *final(graph) == *old(graph),
            Some(id) => {
                let i = node_index(old(graph).nodes@, id);
                let n = old(graph).nodes@[i];
                if n.state != State::Claimed {
                    &&& r matches Err(CxError::NotClaimed { id: x, state: st })
                    &&& x@ == id && st == n.state
                    &&& *final(graph) == *old(graph)
                } else {
                    let m = final(graph).nodes@[i];
                    &&& r matches Ok(x) && x@ == id
                    &&& replaces_node(*old(graph), *final(graph), i)
                    &&& m.part is None
                    &&& touched(n, m, Node { state: State::Ready, part: m.part, ..n }, os(reason))
                }
            },
        },
{
    let (id, i) = resolve_index(graph, partial)?;
    if graph.nodes[i].state != State::Claimed {
        return Err(CxError::NotClaimed { id, state: graph.nodes[i].state });
    }
    graph.nodes[i].state = State::Ready;
    graph.nodes[i].part = None;
    graph.nodes[i].touch();
    apply_reason(&mut graph.nodes[i], reason);
    assert(graph.nodes@ =~= old(graph).nodes@.update(i as int, graph.nodes@[i as int]));
    Ok(id)
}

/// Sets or clears a node's shadow flag. Returns the resolved ID.
pub fn set_shadow(graph: &mut Graph, partial: &str, shadowed: bool, reason: Option<&str>) -> (r: Result<
    String,
    CxError,
>)
    ensures
        match resolves_to(old(graph).nodes@, partial@) {
            None => r matches Err(CxError::Id(e)) && resolve_refused(e, old(graph).nodes@, partial@)
                && *final(graph) == *old(graph),
            Some(id) => {
                let i = node_index(old(graph).nodes@, id);
                let n = old(graph).nodes@[i];
                let m = final(graph).nodes@[i];
                &&& r matches Ok(x) && x@ == id
                &&& replaces_node(*old(graph), *final(graph), i)
                &&& touched(n, m, Node { shadowed: shadowed, ..n }, os(reason))
            },
        },
{
    let (id, i) = resolve_index(graph, partial)?;
    graph.nodes[i].shadowed = shadowed;
    graph.nodes[i].touch();
    apply_reason(&mut graph.nodes[i], reason);
    assert(graph.nodes@ =~= old(graph).nodes@.update(i as int, graph.nodes@[i as int]));
    Ok(id)
}

/// Renames a node. Returns the resolved ID.
pub fn rename(graph: &mut Graph, partial: &str, title: &str) -> (r: Result<String, CxError>)
    ensures
        match resolves_to(old(graph).nodes@, partial@) {
            None => r matches Err(CxError::Id(e)) && resolve_refused(e, old(graph).nodes@, partial@)
                && *final(graph) == *old(graph),
            Some(id) => {
                let i = node_index(old(graph).nodes@, id);
                let n = old(graph).nodes@[i];
                let m = final(graph).nodes@[i];
                &&& r matches Ok(x) && x@ == id
                &&& replaces_node(*old(graph), *final(graph), i)
                &&& m.title@ == title@
                &&& touched(n, m, Node { title: m.title, ..n }, None)
            },
        },
{
    let (id, i) = resolve_index(graph, partial)?;
    graph.nodes[i].title = title.to_string();
    graph.nodes[i].touch();
    assert(graph.nodes@ =~= old(graph).nodes@.update(i as int, graph.nodes@[i as int]));
    Ok(id)
}

/// Replaces a node's metadata with the JSON value that `raw` holds.
/// Returns the resolved ID.
pub fn set_meta(graph: &mut Graph, partial: &str, raw: &str) -> (r: Result<String, CxError>)
    ensures
        !crate::json::json_text_valid(raw@) ==> (r matches Err(CxError::InvalidJson)
            && *final(graph) == *old(graph)),
        crate::json::json_text_valid(raw@) ==> match resolves_to(old(graph).nodes@, partial@) {
            None => r matches Err(CxError::Id(e)) && resolve_refused(e, old(graph).nodes@, partial@)
                && *final(graph) == *old(graph),
            Some(id) => {
                let i = node_index(old(graph).nodes@, id);
                let n = old(graph).nodes@[i];
                let m = final(graph).nodes@[i];
                &&& r matches Ok(x) && x@ == id
                &&& replaces_node(*old(graph), *final(graph), i)
                &&& m.meta == Some(crate::json::json_parsed(raw@))
                &&& m == (Node { updated_at: m.updated_at, meta: m.meta, ..n })
            },
        },
{
    let parsed = match crate::json::parse_json(raw) {
        Some(v) => v,
        None => {
            return Err(CxError::InvalidJson);
        },
    };
    let (id, i) = resolve_index(graph, partial)?;
    graph.nodes[i].meta = Some(parsed);
    graph.nodes[i].touch();
    assert(graph.nodes@ =~= old(graph).nodes@.update(i as int, graph.nodes@[i as int]));
    Ok(id)
}

/// Removes every copy of `tag` from a node's tags; the node is touched only
/// when a tag was removed. Returns the resolved ID.
pub fn untag(graph: &mut Graph, partial: &str, tag: &str) -> (r: Result<String, CxError>)
    ensures
        untag_outcome(*old(graph), *final(graph), partial@, tag@),
        match resolves_to(old(graph).nodes@, partial@) {
            None => r matches Err(CxError::Id(e)) && resolve_refused(e, old(graph).nodes@, partial@)
                && *final(graph) == *old(graph),
            Some(id) => {
                let i = node_index(old(graph).nodes@, id);
                let n = old(graph).nodes@[i];
                let m = final(graph).nodes@[i];
                &&& r matches Ok(x) && x@ == id
                &&& replaces_node(*old(graph), *final(graph), i)
                &&& m.tags.deep_view() == n.tags.deep_view().filter(other_than(tag@))
                &&& if n.tags.deep_view().contains(tag@) {
                    m == (Node { tags: m.tags, updated_at: m.updated_at, ..n })
                } else {
                    m == (Node { tags: m.tags, ..n })
                }
            },
        },
{
    let (id, i) = resolve_index(graph, partial)?;
    let ghost old_tags = graph.nodes@[i as int].tags.deep_view();
    let ghost pred = other_than(tag@);
    let mut kept: Vec<String> = Vec::new();
    let mut removed = false;
    let mut k: usize = 0;
    while k < graph.nodes[i].tags.len()
        invariant
            i < graph.nodes@.len(),
            *graph == *old(graph),
            old_tags == graph.nodes@[i as int].tags.deep_view(),
            pred == other_than(tag@),
            k <= old_tags.len(),
            kept.deep_view() == old_tags.subrange(0, k as int).filter(pred),
            removed == old_tags.subrange(0, k as int).contains(tag@),
        decreases old_tags.len() - k,
    {
        let t = &graph.nodes[i].tags[k];
        proof {
            assert(old_tags.subrange(0, k + 1) == old_tags.subrange(0, k as int).push(old_tags[k as int]));
            old_tags.subrange(0, k as int).lemma_filter_push(old_tags[k as int], pred);
            assert(t@ == old_tags[k as int]);
        }
        let ghost before = kept.deep_view();
        if str_eq(t.as_str(), tag) {
            removed = true;
            proof { crate::text::lemma_contains_push(old_tags.subrange(0, k as int), old_tags[k as int], tag@); }
        } else {
            kept.push(t.clone());
            assert(kept.deep_view() =~= before.push(t@));
            proof { crate::text::lemma_contains_push(old_tags.subrange(0, k as int), old_tags[k as int], tag@); }
        }
        k += 1;
    }
    assert(old_tags.subrange(0, old_tags.len() as int) =~= old_tags);
    graph.nodes[i].tags = kept;
    if removed {
        graph.nodes[i].touch();
    }
    assert(graph.nodes@ =~= old(graph).nodes@.update(i as int, graph.nodes@[i as int]));
    Ok(id)
}


/// The node at `j` is the one that `get_node` finds for some ID in `ids`.
pub open spec fn picked(nodes: Seq<Node>, ids: Seq<Seq<char>>, j: int) -> bool {
    ids.contains(nodes[j].id@) && node_index(nodes, nodes[j].id@) == j
}

/// `new` is `old` with exactly the nodes picked by `ids` made ready (touched,
/// with the reason recorded) and every other node unchanged.
pub open spec fn made_ready(
    old: Seq<Node>,
    new: Seq<Node>,
    ids: Seq<Seq<char>>,
    reason: Option<Seq<char>>,
) -> bool {
    &&& new.len() == old.len()
    &&& forall|j: int|
        0 <= j < old.len() ==> if picked(old, ids, j) {
            touched(old[j], #[trigger] new[j], Node { state: State::Ready, ..old[j] }, reason)
        } else {
            new[j] == old[j]
        }
}

/// Makes ready (touching, and recording the reason) the node that
/// `get_node` finds for each ID of `ids`; every ID must name a node.
fn make_ready(graph: &mut Graph, ids: &Vec<String>, reason: Option<&str>)
    requires
        forall|k: int| 0 <= k < ids@.len() ==> node_index(old(graph).nodes@, #[trigger] ids@[k]@) >= 0,
    ensures
        final(graph).edges == old(graph).edges,
        final(graph).version == old(graph).version,
        made_ready(old(graph).nodes@, final(graph).nodes@, ids.deep_view(), os(reason)),
{
    let ghost old_nodes = graph.nodes@;
    let mut done: Vec<String> = Vec::new();
    let mut k: usize = 0;
    while k < ids.len()
        invariant
            k <= ids.len(),
            graph.edges == old(graph).edges,
            graph.version == old(graph).version,
            old_nodes == old(graph).nodes@,
            forall|q: int| 0 <= q < ids@.len() ==> node_index(old_nodes, #[trigger] ids@[q]@) >= 0,
            done.deep_view() == ids.deep_view().subrange(0, k as int),
            made_ready(old_nodes, graph.nodes@, done.deep_view(), os(reason)),
        decreases ids.len() - k,
    {
        let ghost before = graph.nodes@;
        let ghost done_before = done.deep_view();
        let ghost y = ids@[k as int]@;
        proof {
            assert(ids.deep_view()[k as int] == y);
            assert forall|q: int| 0 <= q < old_nodes.len() implies #[trigger] old_nodes[q].id@
                == before[q].id@ by {
                if picked(old_nodes, done_before, q) {
                } else {
                }
            }
            crate::model::lemma_node_index_same_ids(old_nodes, before, y);
            crate::model::lemma_node_index(old_nodes, y);
        }
        let already = contains_str(&done, ids[k].as_str());
        if !already {
            match graph.find_index(ids[k].as_str()) {
                Some(i) => {
                    proof {
                        assert(!picked(old_nodes, done_before, i as int));
                        assert(before[i as int] == old_nodes[i as int]);
                    }
                    graph.nodes[i].state = State::Ready;
                    graph.nodes[i].touch();
                    apply_reason(&mut graph.nodes[i], reason);
                    proof {
                        assert(graph.nodes@ =~= before.update(i as int, graph.nodes@[i as int]));
                    }
                },
                None => {},
            }
        }
        done.push(ids[k].clone());
        proof {
            assert(done.deep_view() =~= done_before.push(y));
            assert(ids.deep_view().subrange(0, k + 1) =~= done.deep_view());
            assert forall|j: int| 0 <= j < old_nodes.len() implies (picked(
                old_nodes,
                done.deep_view(),
                j,
            ) <==> (picked(old_nodes, done_before, j) || (old_nodes[j].id@ == y && node_index(
                old_nodes,
                y,
            ) == j))) by {
                crate::text::lemma_contains_push(done_before, y, old_nodes[j].id@);
            }
        }
        k += 1;
    }
    assert(ids.deep_view().subrange(0, ids.len() as int) =~= ids.deep_view());
}


/// Every ID of `ids_of(nodes.filter(p))` names a node.
pub proof fn lemma_filtered_ids_exist(nodes: Seq<Node>, p: spec_fn(Node) -> bool, k: int)
    requires
        0 <= k < ids_of(nodes.filter(p)).len(),
    ensures
        node_index(nodes, ids_of(nodes.filter(p))[k]) >= 0,
{
    let f = nodes.filter(p);
    assert(f.contains(f[k]));
    nodes.lemma_filter_contains_rev(p, f[k]);
    let j = choose|j: int| 0 <= j < nodes.len() && nodes[j] == f[k];
    crate::model::lemma_node_index(nodes, f[k].id@);
}

/// Promotes every latent node with no open blocker to ready (touching it
/// and recording the reason). Returns the IDs promoted.
pub fn surface_all(graph: &mut Graph, reason: Option<&str>) -> (r: Vec<String>)
    ensures
        r.deep_view() == ids_of(
            old(graph).nodes@.filter(surfaceable(old(graph).nodes@, old(graph).edges@)),
        ),
        final(graph).edges == old(graph).edges,
        final(graph).version == old(graph).version,
        made_ready(old(graph).nodes@, final(graph).nodes@, r.deep_view(), os(reason)),
{
    let eligible = graph.unblocked_latent_ids();
    proof {
        let p = surfaceable(graph.nodes@, graph.edges@);
        assert forall|k: int| 0 <= k < eligible@.len() implies node_index(
            graph.nodes@,
            #[trigger] eligible@[k]@,
        ) >= 0 by {
            assert(eligible.deep_view()[k] == eligible@[k]@);
            lemma_filtered_ids_exist(graph.nodes@, p, k);
        }
    }
    make_ready(graph, &eligible, reason);
    eligible
}

/// What integrating a node reports: its ID, its children that are not
/// integrated yet, and the nodes it surfaced.
pub struct Integrated {
    pub id: String,
    pub active_children: Vec<String>,
    pub newly_surfaced: Vec<String>,
}

/// `blocks` edges out of `id`.
pub open spec fn blocks_from(id: Seq<char>) -> spec_fn(Edge) -> bool {
    |e: Edge| e.from@ == id && e.edge_type == EdgeType::Blocks
}

/// `blocks` edges into `id`.
pub open spec fn blocks_into(id: Seq<char>) -> spec_fn(Edge) -> bool {
    |e: Edge| e.to@ == id && e.edge_type == EdgeType::Blocks
}

/// An edge's target.
pub open spec fn edge_target() -> spec_fn(Edge) -> Seq<char> {
    |e: Edge| e.to@
}

/// An edge's source.
pub open spec fn edge_source() -> spec_fn(Edge) -> Seq<char> {
    |e: Edge| e.from@
}

/// The nodes that `id` blocks.
pub open spec fn blocked_by(edges: Seq<Edge>, id: Seq<char>) -> Seq<Seq<char>> {
    edges.filter(blocks_from(id)).map_values(edge_target())
}

/// The nodes that integrating `id` surfaces: those it blocks that are
/// latent and have no other open blocker.
pub open spec fn auto_surfaced(nodes: Seq<Node>, edges: Seq<Edge>, id: Seq<char>) -> Seq<Seq<char>> {
    blocked_by(edges, id).filter(freed_by(nodes, edges, id))
}

/// IDs of latent nodes whose only open blocker, if any, is `id`.
pub open spec fn freed_by(nodes: Seq<Node>, edges: Seq<Edge>, id: Seq<char>) -> spec_fn(Seq<char>) -> bool {
    |y: Seq<char>|
        lookup(nodes, y) matches Some(n) && n.state == State::Latent && !open_blocker_other(
            nodes,
            edges,
            y,
            Some(id),
        )
}

/// Children that are not integrated.
pub open spec fn is_active_child(n: Node, id: Seq<char>) -> bool {
    is_child_of(n, id) && n.state != State::Integrated
}

/// The IDs of the children of `id` that are not integrated.
pub fn active_children(graph: &Graph, id: &str) -> (r: Vec<String>)
    ensures
        r.deep_view() == ids_of(graph.nodes@.filter(|n: Node| is_active_child(n, id@))),
{
    let children = graph.children(id);
    let ghost kids = children@.map_values(|x: &Node| *x);
    let ghost pc = |n: Node| is_child_of(n, id@);
    let ghost pa = |n: Node| is_active_child(n, id@);
    let ghost pi = |n: Node| n.state != State::Integrated;
    proof {
        lemma_filter_and(graph.nodes@, pc, pi, pa);
    }
    let mut r: Vec<String> = Vec::new();
    let mut i: usize = 0;
    while i < children.len()
        invariant
            i <= children.len(),
            kids == children@.map_values(|x: &Node| *x),
            pi == (|n: Node| n.state != State::Integrated),
            r.deep_view() == ids_of(kids.subrange(0, i as int).filter(pi)),
        decreases children.len() - i,
    {
        proof {
            assert(kids.subrange(0, i + 1) =~= kids.subrange(0, i as int).push(kids[i as int]));
            kids.subrange(0, i as int).lemma_filter_push(kids[i as int], pi);
            assert(kids[i as int] == *children[i as int]);
        }
        let ghost before = r.deep_view();
        if children[i].state != State::Integrated {
            r.push(children[i].id.clone());
            assert(r.deep_view() =~= before.push(children[i as int].id@));
        }
        assert(r.deep_view() =~= ids_of(kids.subrange(0, i + 1).filter(pi)));
        i += 1;
    }
    assert(kids.subrange(0, children.len() as int) =~= kids);
    r
}

/// Filtering by one predicate and then another is filtering by both.
pub proof fn lemma_filter_and<A>(
    s: Seq<A>,
    p: spec_fn(A) -> bool,
    q: spec_fn(A) -> bool,
    pq: spec_fn(A) -> bool,
)
    requires
        forall|x: A| #[trigger] pq(x) == (p(x) && q(x)),
    ensures
        s.filter(p).filter(q) == s.filter(pq),
    decreases s.len(),
{
    reveal(Seq::filter);
    if s.len() > 0 {
        lemma_filter_and(s.drop_last(), p, q, pq);
        let last = s.last();
        if p(last) {
            s.drop_last().filter(p).lemma_filter_push(last, q);
            assert(s.drop_last().filter(p).push(last).drop_last() =~= s.drop_last().filter(p));
        }
    }
}


/// `mid` is `old` with the node at `i` made integrated (touched, and the
/// reason recorded).
pub open spec fn integrated_at(old: Seq<Node>, mid: Seq<Node>, i: int, reason: Option<Seq<char>>) -> bool {
    &&& 0 <= i < old.len()
    &&& mid == old.update(i, mid[i])
    &&& touched(old[i], mid[i], Node { state: State::Integrated, ..old[i] }, reason)
}

/// What integrating node `id` does: it reports the node, its children that
/// are not integrated, and the nodes it surfaces (`auto_surfaced`); the node
/// becomes integrated (touched, the reason recorded), then exactly the
/// surfaced nodes become ready, and the edges stay as they were.
pub open spec fn integrate_outcome(
    old: Graph,
    new: Graph,
    id: Seq<char>,
    reason: Option<Seq<char>>,
    out: Integrated,
) -> bool {
    let i = node_index(old.nodes@, id);
    let auto = auto_surfaced(old.nodes@, old.edges@, id);
    &&& out.id@ == id
    &&& out.active_children.deep_view() == ids_of(old.nodes@.filter(|n: Node| is_active_child(n, id)))
    &&& out.newly_surfaced.deep_view() == auto
    &&& new.edges == old.edges
    &&& new.version == old.version
    &&& exists|mid: Seq<Node>|
        #[trigger] integrated_at(old.nodes@, mid, i, reason) && made_ready(mid, new.nodes@, auto, None)
}

#[verifier::spinoff_prover]
#[verifier::rlimit(40)]
/// Mark a node as integrated (done): every node it blocks that is latent
/// and has no other open blocker is surfaced to ready.
pub fn integrate(graph: &mut Graph, partial: &str, reason: Option<&str>) -> (r: Result<
    Integrated,
    CxError,
>)
    ensures
        match resolves_to(old(graph).nodes@, partial@) {
            None => r matches Err(CxError::Id(e)) && resolve_refused(e, old(graph).nodes@, partial@)
                && *final(graph) == *old(graph),
            Some(id) => r matches Ok(out) && integrate_outcome(*old(graph), *final(graph), id, os(reason), out),
        },
{
    let (id, i) = resolve_index(graph, partial)?;
    let active = active_children(graph, id.as_str());
    let ghost nodes = graph.nodes@;
    let ghost edges = graph.edges@;
    let ghost cond = freed_by(nodes, edges, id@);
    let ghost pe = blocks_from(id@);
    let mut auto: Vec<String> = Vec::new();
    let mut k: usize = 0;
    while k < graph.edges.len()
        invariant
            k <= edges.len(),
            nodes == graph.nodes@,
            edges == graph.edges@,
            *graph == *old(graph),
            cond == freed_by(nodes, edges, id@),
            pe == blocks_from(id@),
            auto.deep_view() == edges.subrange(0, k as int).filter(pe).map_values(edge_target()).filter(cond),
            forall|q: int| 0 <= q < auto@.len() ==> lookup(nodes, #[trigger] auto@[q]@) is Some,
        decreases edges.len() - k,
    {
        let e = &graph.edges[k];
        let ghost before = auto.deep_view();
        proof {
            assert(edges.subrange(0, k + 1) =~= edges.subrange(0, k as int).push(edges[k as int]));
            edges.subrange(0, k as int).lemma_filter_push(edges[k as int], pe);
            let f = edges.subrange(0, k as int).filter(pe);
            assert(f.push(edges[k as int]).map_values(edge_target()) =~= f.map_values(edge_target()).push(e.to@));
            f.map_values(edge_target()).lemma_filter_push(e.to@, cond);
        }
        if str_eq(e.from.as_str(), id.as_str()) && e.edge_type == EdgeType::Blocks {
            let eligible = match graph.get_node(e.to.as_str()) {
                Some(y) => y.state == State::Latent && !graph.open_blocker_other(e.to.as_str(), Some(id.as_str())),
                None => false,
            };
            if eligible {
                auto.push(e.to.clone());
                proof {
                    assert(auto.deep_view() =~= before.push(e.to@));
                    assert forall|q: int| 0 <= q < auto@.len() implies lookup(nodes, #[trigger] auto@[q]@) is Some by {
                        if q < before.len() {
                            assert(auto@[q]@ == before[q]);
                        }
                    }
                }
            }
        }
        k += 1;
    }
    proof {
        assert(edges.subrange(0, edges.len() as int) =~= edges);
    }
    graph.nodes[i].state = State::Integrated;
    graph.nodes[i].touch();
    apply_reason(&mut graph.nodes[i], reason);
    let ghost mid = graph.nodes@;
    proof {
        assert(mid =~= nodes.update(i as int, mid[i as int]));
        assert forall|q: int| 0 <= q < nodes.len() implies #[trigger] nodes[q].id@ == mid[q].id@ by {
        }
        assert forall|q: int| 0 <= q < auto@.len() implies node_index(mid, #[trigger] auto@[q]@) >= 0 by {
            crate::model::lemma_node_index_same_ids(nodes, mid, auto@[q]@);
        }
    }
    make_ready(graph, &auto, None);
    assert(integrated_at(nodes, mid, i as int, os(reason)));
    assert(made_ready(mid, graph.nodes@, auto.deep_view(), None));
    assert(auto.deep_view() == auto_surfaced(nodes, edges, id@));
    assert(active.deep_view() == ids_of(nodes.filter(|n: Node| is_active_child(n, id@))));
    assert(graph.edges == old(graph).edges);
    assert(nodes == old(graph).nodes@);
    assert(resolves_to(old(graph).nodes@, partial@) == Some(id@));
    assert(i as int == node_index(old(graph).nodes@, id@));
    assert(auto.deep_view() == auto_surfaced(old(graph).nodes@, old(graph).edges@, id@));
    assert(graph.version == old(graph).version);
    let out = Integrated { id, active_children: active, newly_surfaced: auto };
    assert(integrate_outcome(*old(graph), *graph, out.id@, os(reason), out));
    Ok(out)
}


/// The IDs that surfacing `ps` promotes, in order, or `None` when one of
/// them does not resolve, or resolves to a node that is not latent (or was
/// already promoted by an earlier entry).
pub open spec fn surface_targets(nodes: Seq<Node>, ps: Seq<Seq<char>>) -> Option<Seq<Seq<char>>>
    decreases ps.len(),
{
    if ps.len() == 0 {
        Some(Seq::empty())
    } else {
        match surface_targets(nodes, ps.drop_last()) {
            None => None,
            Some(done) => match resolves_to(nodes, ps.last()) {
                None => None,
                Some(y) => if done.contains(y) || lookup(nodes, y)->0.state != State::Latent {
                    None
                } else {
                    Some(done.push(y))
                },
            },
        }
    }
}

/// When all of `ps` can be surfaced, so can every prefix of it.
pub proof fn lemma_surface_targets_prefix(nodes: Seq<Node>, ps: Seq<Seq<char>>, m: int)
    requires
        surface_targets(nodes, ps) is Some,
        0 <= m <= ps.len(),
    ensures
        surface_targets(nodes, ps.subrange(0, m)) is Some,
    decreases ps.len(),
{
    if m < ps.len() {
        assert(ps.drop_last() =~= ps.subrange(0, ps.len() - 1));
        assert(ps.drop_last().subrange(0, m) =~= ps.subrange(0, m));
        lemma_surface_targets_prefix(nodes, ps.drop_last(), m);
    } else {
        assert(ps.subrange(0, m) =~= ps);
    }
}

/// `e` is the refusal for entry `p`, after `done` were accepted.
pub open spec fn surface_refused(e: CxError, nodes: Seq<Node>, done: Seq<Seq<char>>, p: Seq<char>) -> bool {
    match resolves_to(nodes, p) {
        None => e matches CxError::Id(ie) && resolve_refused(ie, nodes, p),
        Some(y) => {
            &&& e matches CxError::NotLatent { id: x, state: st }
            &&& x@ == y
            &&& if done.contains(y) {
                st == State::Ready
            } else {
                st == lookup(nodes, y)->0.state && st != State::Latent
            }
        },
    }
}

/// Promotes the named latent nodes to ready. Either every entry resolves
/// to a latent node (each once) and all are promoted, or the first entry
/// that does not is refused and nothing changes.
pub fn surface(graph: &mut Graph, ids: &Vec<String>, reason: Option<&str>) -> (r: Result<
    Vec<String>,
    CxError,
>)
    ensures
        match surface_targets(old(graph).nodes@, ids.deep_view()) {
            Some(ts) => {
                &&& r matches Ok(v) && v.deep_view() == ts
                &&& final(graph).edges == old(graph).edges
                &&& final(graph).version == old(graph).version
                &&& made_ready(old(graph).nodes@, final(graph).nodes@, ts, os(reason))
            },
            None => {
                &&& r matches Err(e) && exists|f: int|
                    0 <= f < ids@.len() && surface_targets(
                        old(graph).nodes@,
                        ids.deep_view().subrange(0, f),
                    ) is Some && #[trigger] surface_refused(
                        e,
                        old(graph).nodes@,
                        surface_targets(old(graph).nodes@, ids.deep_view().subrange(0, f))->0,
                        ids.deep_view()[f],
                    )
                &&& *final(graph) == *old(graph)
            },
        },
{
    let ghost nodes = graph.nodes@;
    let ghost ps = ids.deep_view();
    let mut targets: Vec<String> = Vec::new();
    let mut k: usize = 0;
    assert(ps.subrange(0, 0) =~= Seq::<Seq<char>>::empty());
    while k < ids.len()
        invariant
            k <= ids.len(),
            nodes == graph.nodes@,
            ps == ids.deep_view(),
            surface_targets(nodes, ps.subrange(0, k as int)) == Some(targets.deep_view()),
            forall|q: int| 0 <= q < targets@.len() ==> node_index(nodes, #[trigger] targets@[q]@) >= 0,
        decreases ids.len() - k,
    {
        proof {
            assert(ps.subrange(0, k + 1).drop_last() =~= ps.subrange(0, k as int));
            assert(ps.subrange(0, k + 1).last() == ps[k as int]);
            assert(ps[k as int] == ids@[k as int]@);
        }
        let (y, i) = match resolve_index(graph, ids[k].as_str()) {
            Ok(t) => t,
            Err(e) => {
                proof {
                    assert(surface_refused(e, nodes, surface_targets(nodes, ps.subrange(0, k as int))->0, ps[k as int]));
                    if surface_targets(nodes, ps) is Some {
                        lemma_surface_targets_prefix(nodes, ps, k + 1);
                    }
                }
                return Err(e);
            },
        };
        if contains_str(&targets, y.as_str()) {
            proof {
                assert(surface_refused(CxError::NotLatent { id: y, state: State::Ready }, nodes, surface_targets(nodes, ps.subrange(0, k as int))->0, ps[k as int]));
                if surface_targets(nodes, ps) is Some {
                    lemma_surface_targets_prefix(nodes, ps, k + 1);
                }
            }
            return Err(CxError::NotLatent { id: y, state: State::Ready });
        }
        if graph.nodes[i].state != State::Latent {
            let st = graph.nodes[i].state;
            proof {
                assert(surface_refused(CxError::NotLatent { id: y, state: st }, nodes, surface_targets(nodes, ps.subrange(0, k as int))->0, ps[k as int]));
                if surface_targets(nodes, ps) is Some {
                    lemma_surface_targets_prefix(nodes, ps, k + 1);
                }
            }
            return Err(CxError::NotLatent { id: y, state: st });
        }
        let ghost before = targets.deep_view();
        let ghost yv = y@;
        targets.push(y);
        proof {
            assert(targets.deep_view() =~= before.push(yv));
            assert forall|q: int| 0 <= q < targets@.len() implies node_index(nodes, #[trigger] targets@[q]@) >= 0 by {
                if q < before.len() {
                    assert(targets@[q]@ == before[q]);
                }
            }
        }
        k += 1;
    }
    assert(ps.subrange(0, ids.len() as int) =~= ps);
    make_ready(graph, &targets, reason);
    Ok(targets)
}


/// The parent a new node gets: `Some(None)` for a root, `Some(Some(id))`
/// for the node that `parent` resolves to, `None` when it resolves to none.
pub open spec fn parent_for(nodes: Seq<Node>, parent: Option<&str>) -> Option<Option<Seq<char>>> {
    match parent {
        None => Some(None),
        Some(q) => match resolves_to(nodes, q@) {
            Some(x) => Some(Some(x)),
            None => None,
        },
    }
}

/// `new` is `old` with the latent node `n` added at the end: ID `id`,
/// title, filer, tags and parent as given, and everything else fresh.
pub open spec fn node_created(
    old: Graph,
    new: Graph,
    id: Seq<char>,
    pid: Option<Seq<char>>,
    title: Seq<char>,
    filed_by: Option<String>,
    tags: Vec<String>,
) -> bool {
    let n = new.nodes@.last();
    &&& new.nodes@ == old.nodes@.push(n)
    &&& new.edges == old.edges
    &&& new.version == old.version
    &&& n.id@ == id && n.title@ == title && n.state == State::Latent && !n.shadowed
    &&& n.part is None && n.filed_by == filed_by && n.tags == tags
    &&& ov(n.parent) == pid && n.meta is None
    &&& n.outgoing_edges@.len() == 0 && n.body is None && n.comments@.len() == 0
    &&& n.created_at == n.updated_at
}

/// Creates a latent node from the given rounds of ID draws: refused when
/// `parent` resolves to no node; otherwise its ID is the first round's ID
/// that `existing` does not hold (IDs are flat, so no parent prefix), and
/// `Exhausted` when every round's ID is taken.
pub fn create_node_from(
    graph: &mut Graph,
    existing: &Vec<String>,
    parent: Option<&str>,
    title: &str,
    filed_by: Option<String>,
    tags: Vec<String>,
    rounds: &Vec<Vec<usize>>,
) -> (r: Result<(String, Option<String>), CxError>)
    requires
        rounds.len() == crate::id::MAX_RETRIES,
        forall|i: int| 0 <= i < rounds.len() ==> (#[trigger] rounds[i]).len() == 4,
    ensures
        match parent_for(old(graph).nodes@, parent) {
            None => r matches Err(CxError::ParentNotFound(p)) && parent matches Some(q) && p@ == q@
                && *final(graph) == *old(graph),
            Some(pid) => match crate::id::first_fresh(None, existing.deep_view(), rounds.deep_view(), 0) {
                None => r matches Err(CxError::Id(IdError::Exhausted)) && *final(graph) == *old(graph),
                Some(fresh) => r matches Ok((id, p)) && id@ == fresh && ov(p) == pid
                    && node_created(*old(graph), *final(graph), fresh, pid, title@, filed_by, tags),
            },
        },
{
    let pid = match parent {
        Some(p) => match resolve(graph, p) {
            Ok(x) => Some(x),
            Err(_) => {
                return Err(CxError::ParentNotFound(p.to_string()));
            },
        },
        None => None,
    };
    let id = match crate::id::pick_fresh(None, existing, rounds) {
        Ok(x) => x,
        Err(_) => {
            return Err(CxError::Id(IdError::Exhausted));
        },
    };
    let mut node = Node::new(id.clone(), title.to_string());
    node.parent = pid.clone();
    node.filed_by = filed_by;
    node.tags = tags;
    let ghost before = graph.nodes@;
    graph.nodes.push(node);
    assert(graph.nodes@ =~= before.push(graph.nodes@.last()));
    Ok((id, pid))
}

/// Creates a latent node: a root, or a child of the node that `parent`
/// resolves to (refused when it resolves to none). Its ID is freshly
/// generated from random draws, so that `existing` does not hold it; which
/// ID, and whether all draws collide, rests on the draws (see
/// `create_node_from`). Returns the new ID and the parent's resolved ID.
pub fn create_node(
    graph: &mut Graph,
    existing: &Vec<String>,
    parent: Option<&str>,
    title: &str,
    filed_by: Option<String>,
    tags: Vec<String>,
) -> (r: Result<(String, Option<String>), CxError>)
    ensures
        match parent_for(old(graph).nodes@, parent) {
            None => r matches Err(CxError::ParentNotFound(p)) && parent matches Some(q) && p@ == q@
                && *final(graph) == *old(graph),
            Some(pid) => match r {
                Ok((id, p)) => ov(p) == pid && crate::id::is_generated_id(None, id@)
                    && !existing.deep_view().contains(id@)
                    && node_created(*old(graph), *final(graph), id@, pid, title@, filed_by, tags),
                Err(e) => e matches CxError::Id(IdError::Exhausted) && *final(graph) == *old(graph),
            },
        },
        parent_for(old(graph).nodes@, parent) is Some && (forall|k: int|
            0 <= k < existing@.len() ==> !crate::id::is_generated_id(None, #[trigger] existing@[k]@)) ==> r is Ok,
{
    let rounds = crate::id::draw_rounds();
    let r = create_node_from(graph, existing, parent, title, filed_by, tags, &rounds);
    proof {
        if forall|k: int| 0 <= k < existing@.len() ==> !crate::id::is_generated_id(None, #[trigger] existing@[k]@) {
            let ev = existing.deep_view();
            assert forall|k: int| 0 <= k < ev.len() implies !crate::id::is_generated_id(None, #[trigger] ev[k]) by {
                assert(ev[k] == existing@[k]@);
            }
            assert(rounds.deep_view()[0] == rounds@[0]@);
            crate::id::lemma_first_fresh_free_when_none_generated(None, ev, rounds.deep_view());
        }
        crate::id::lemma_first_fresh_free(None, existing.deep_view(), rounds.deep_view(), 0);
        crate::id::lemma_first_fresh_generated(existing.deep_view(), rounds.deep_view(), 0);
    }
    r
}

/// `edges` with the edge `a` -`t`-> `b` added when it is not there yet.
pub open spec fn edge_added(old: Seq<Edge>, new: Seq<Edge>, a: Seq<char>, b: Seq<char>, t: EdgeType) -> bool {
    if exists|k: int| 0 <= k < old.len() && #[trigger] same_edge(old[k], a, b, t) {
        new == old
    } else {
        &&& new.len() == old.len() + 1
        &&& new.subrange(0, old.len() as int) == old
        &&& same_edge(new.last(), a, b, t)
    }
}

/// The edge runs from `a` to `b` with type `t`.
pub open spec fn same_edge(e: Edge, a: Seq<char>, b: Seq<char>, t: EdgeType) -> bool {
    e.from@ == a && e.to@ == b && e.edge_type == t
}

/// What setting or removing an edge does to the graph: nothing when an end
/// does not resolve or a blocks edge would close a cycle; otherwise only
/// the edges change, losing or gaining that edge.
pub open spec fn edge_outcome(
    old: Graph,
    new: Graph,
    a: Seq<char>,
    b: Seq<char>,
    edge_type: EdgeType,
    remove: bool,
) -> bool {
    match (resolves_to(old.nodes@, a), resolves_to(old.nodes@, b)) {
        (Some(x), Some(y)) => if !remove && edge_type == EdgeType::Blocks && reaches(old.edges@, y, x) {
            new == old
        } else {
            &&& new.nodes == old.nodes
            &&& new.version == old.version
            &&& if remove {
                new.edges@ == old.edges@.filter(|e: Edge| !same_edge(e, x, y, edge_type))
            } else {
                edge_added(old.edges@, new.edges@, x, y, edge_type)
            }
        },
        _ => new == old,
    }
}

/// Adds (or, with `remove`, removes) the edge from the node that `a`
/// resolves to, to the node that `b` resolves to. A blocks edge that would
/// close a cycle of blocks edges is refused. Returns the two resolved IDs.
pub fn set_edge(graph: &mut Graph, a: &str, b: &str, edge_type: EdgeType, remove: bool) -> (r: Result<
    (String, String),
    CxError,
>)
    ensures
        edge_outcome(*old(graph), *final(graph), a@, b@, edge_type, remove),
        match (resolves_to(old(graph).nodes@, a@), resolves_to(old(graph).nodes@, b@)) {
            (None, _) => r matches Err(CxError::Id(e)) && resolve_refused(e, old(graph).nodes@, a@)
                && *final(graph) == *old(graph),
            (Some(_), None) => r matches Err(CxError::Id(e)) && resolve_refused(e, old(graph).nodes@, b@)
                && *final(graph) == *old(graph),
            (Some(x), Some(y)) => if !remove && edge_type == EdgeType::Blocks && reaches(
                old(graph).edges@,
                y,
                x,
            ) {
                &&& r matches Err(CxError::Cycle { from: f, to: t })
                &&& f@ == x && t@ == y
                &&& *final(graph) == *old(graph)
            } else {
                &&& r matches Ok((f, t)) && f@ == x && t@ == y
                &&& final(graph).nodes == old(graph).nodes
                &&& final(graph).version == old(graph).version
                &&& if remove {
                    final(graph).edges@ == old(graph).edges@.filter(|e: Edge| !same_edge(e, x, y, edge_type))
                } else {
                    edge_added(old(graph).edges@, final(graph).edges@, x, y, edge_type)
                }
            },
        },
{
    let x = match resolve(graph, a) {
        Ok(v) => v,
        Err(e) => {
            return Err(CxError::Id(e));
        },
    };
    let y = match resolve(graph, b) {
        Ok(v) => v,
        Err(e) => {
            return Err(CxError::Id(e));
        },
    };
    if !remove && edge_type == EdgeType::Blocks && graph.would_cycle(x.as_str(), y.as_str()) {
        return Err(CxError::Cycle { from: x, to: y });
    }
    let ghost old_edges = graph.edges@;
    if remove {
        let ghost pred = |e: Edge| !same_edge(e, x@, y@, edge_type);
        let mut kept: Vec<Edge> = Vec::new();
        let mut k: usize = 0;
        while k < graph.edges.len()
            invariant
                k <= old_edges.len(),
                old_edges == graph.edges@,
                *graph == *old(graph),
                pred == (|e: Edge| !same_edge(e, x@, y@, edge_type)),
                kept@ == old_edges.subrange(0, k as int).filter(pred),
            decreases old_edges.len() - k,
        {
            proof {
                assert(old_edges.subrange(0, k + 1) =~= old_edges.subrange(0, k as int).push(old_edges[k as int]));
                old_edges.subrange(0, k as int).lemma_filter_push(old_edges[k as int], pred);
            }
            let e = &graph.edges[k];
            let same = str_eq(e.from.as_str(), x.as_str()) && str_eq(e.to.as_str(), y.as_str()) && e.edge_type == edge_type;
            if !same {
                kept.push(Edge { from: e.from.clone(), to: e.to.clone(), edge_type: e.edge_type });
                assert(kept@.last() == old_edges[k as int]);
                assert(kept@ =~= old_edges.subrange(0, k + 1).filter(pred));
            }
            k += 1;
        }
        assert(old_edges.subrange(0, old_edges.len() as int) =~= old_edges);
        graph.edges = kept;
    } else {
        let mut exists = false;
        let mut k: usize = 0;
        while k < graph.edges.len()
            invariant
                k <= old_edges.len(),
                old_edges == graph.edges@,
                exists == (exists|j: int| 0 <= j < k && #[trigger] same_edge(old_edges[j], x@, y@, edge_type)),
            decreases old_edges.len() - k,
        {
            let e = &graph.edges[k];
            if str_eq(e.from.as_str(), x.as_str()) && str_eq(e.to.as_str(), y.as_str()) && e.edge_type == edge_type {
                assert(same_edge(old_edges[k as int], x@, y@, edge_type));
                exists = true;
            }
            k += 1;
        }
        if !exists {
            graph.edges.push(Edge { from: x.clone(), to: y.clone(), edge_type });
            assert(graph.edges@.subrange(0, old_edges.len() as int) =~= old_edges);
        }
    }
    Ok((x, y))
}


/// What moving a node reports.
pub struct Moved {
    pub id: String,
    pub old_parent: Option<String>,
    pub new_parent: Option<String>,
}

/// Moves a node (and so its subtree) under the node that `new_parent`
/// resolves to, or to the root level with `to_root`. A node cannot move
/// under itself or one of its descendants, nor to where it already is.
pub fn move_node(graph: &mut Graph, partial: &str, new_parent: Option<&str>, to_root: bool) -> (r:
    Result<Moved, CxError>)
    requires
        match new_parent {
            Some(p) => match resolves_to(old(graph).nodes@, p@) {
                Some(pid) => ancestry_finite(old(graph).nodes@, pid),
                None => true,
            },
            None => true,
        },
    ensures
        new_parent is None && !to_root ==> (r matches Err(CxError::MoveTargetMissing) && *final(graph) == *old(graph)),
        new_parent is Some && to_root ==> (r matches Err(CxError::MoveTargetConflict) && *final(graph) == *old(graph)),
        new_parent is Some != to_root ==> match resolves_to(old(graph).nodes@, partial@) {
            None => r matches Err(CxError::Id(e)) && resolve_refused(e, old(graph).nodes@, partial@)
                && *final(graph) == *old(graph),
            Some(id) => {
                let i = node_index(old(graph).nodes@, id);
                let n = old(graph).nodes@[i];
                match new_parent {
                    Some(p) => match resolves_to(old(graph).nodes@, p@) {
                        None => r matches Err(CxError::Id(e)) && resolve_refused(e, old(graph).nodes@, p@)
                            && *final(graph) == *old(graph),
                        Some(pid) => if pid == id || ancestors_of(old(graph).nodes@, pid).contains(id) {
                            &&& r matches Err(CxError::MoveUnderDescendant { id: x, target: t })
                            &&& x@ == id && t@ == pid
                            &&& *final(graph) == *old(graph)
                        } else if ov(n.parent) == Some(pid) {
                            r matches Err(CxError::AlreadyThere(x)) && x@ == id && *final(graph) == *old(graph)
                        } else {
                            let m = final(graph).nodes@[i];
                            &&& r matches Ok(out) && out.id@ == id && ov(out.old_parent) == ov(n.parent)
                                && ov(out.new_parent) == Some(pid)
                            &&& replaces_node(*old(graph), *final(graph), i)
                            &&& ov(m.parent) == Some(pid)
                            &&& touched(n, m, Node { parent: m.parent, ..n }, None)
                        },
                    },
                    None => if n.parent is None {
                        r matches Err(CxError::AlreadyThere(x)) && x@ == id && *final(graph) == *old(graph)
                    } else {
                        let m = final(graph).nodes@[i];
                        &&& r matches Ok(out) && out.id@ == id && ov(out.old_parent) == ov(n.parent)
                            && out.new_parent is None
                        &&& replaces_node(*old(graph), *final(graph), i)
                        &&& touched(n, m, Node { parent: None, ..n }, None)
                    },
                }
            },
        },
{
    if new_parent.is_none() && !to_root {
        return Err(CxError::MoveTargetMissing);
    }
    if new_parent.is_some() && to_root {
        return Err(CxError::MoveTargetConflict);
    }
    let (id, i) = resolve_index(graph, partial)?;
    let target: Option<String> = match new_parent {
        Some(p) => {
            let pid = match resolve(graph, p) {
                Ok(v) => v,
                Err(e) => {
                    return Err(CxError::Id(e));
                },
            };
            if str_eq(pid.as_str(), id.as_str()) || graph.is_descendant_of(pid.as_str(), id.as_str()) {
                return Err(CxError::MoveUnderDescendant { id, target: pid });
            }
            Some(pid)
        },
        None => None,
    };
    let same = match (&graph.nodes[i].parent, &target) {
        (Some(a), Some(b)) => str_eq(a.as_str(), b.as_str()),
        (None, None) => true,
        _ => false,
    };
    if same {
        return Err(CxError::AlreadyThere(id));
    }
    let old_parent = graph.nodes[i].parent.clone();
    graph.nodes[i].parent = target.clone();
    graph.nodes[i].touch();
    assert(graph.nodes@ =~= old(graph).nodes@.update(i as int, graph.nodes@[i as int]));
    Ok(Moved { id, old_parent, new_parent: target })
}


/// What tagging does to the graph: nothing when `partial` resolves to no
/// node or the node already has the tag; otherwise that node (and nothing
/// else) gains the tag, its tags sorted, and is touched.
pub open spec fn tag_outcome(old: Graph, new: Graph, partial: Seq<char>, label: Seq<char>) -> bool {
    match resolves_to(old.nodes@, partial) {
        None => new == old,
        Some(id) => {
            let i = node_index(old.nodes@, id);
            let n = old.nodes@[i];
            let m = new.nodes@[i];
            if n.tags.deep_view().contains(label) {
                new == old
            } else {
                &&& replaces_node(old, new, i)
                &&& crate::text::sorted_le(m.tags.deep_view())
                &&& m.tags.deep_view().to_multiset() == n.tags.deep_view().push(label).to_multiset()
                &&& touched(n, m, Node { tags: m.tags, ..n }, None)
            }
        },
    }
}

/// Labels other than `label`.
pub open spec fn other_than(label: Seq<char>) -> spec_fn(Seq<char>) -> bool {
    |t: Seq<char>| t != label
}

/// What untagging does to the graph: nothing when `partial` resolves to no
/// node; otherwise that node (and nothing else) loses every copy of the
/// tag, and is touched when it had it.
pub open spec fn untag_outcome(old: Graph, new: Graph, partial: Seq<char>, label: Seq<char>) -> bool {
    match resolves_to(old.nodes@, partial) {
        None => new == old,
        Some(id) => {
            let i = node_index(old.nodes@, id);
            let n = old.nodes@[i];
            let m = new.nodes@[i];
            &&& replaces_node(old, new, i)
            &&& m.tags.deep_view() == n.tags.deep_view().filter(other_than(label))
            &&& if n.tags.deep_view().contains(label) {
                m == (Node { tags: m.tags, updated_at: m.updated_at, ..n })
            } else {
                m == (Node { tags: m.tags, ..n })
            }
        },
    }
}

/// Adds a tag to a node: the tags are then sorted, and the node touched.
/// Nothing changes when the node already has the tag. Returns the resolved ID.
pub fn tag(graph: &mut Graph, partial: &str, label: &str) -> (r: Result<String, CxError>)
    ensures
        tag_outcome(*old(graph), *final(graph), partial@, label@),
        match resolves_to(old(graph).nodes@, partial@) {
            None => r matches Err(CxError::Id(e)) && resolve_refused(e, old(graph).nodes@, partial@)
                && *final(graph) == *old(graph),
            Some(id) => {
                let i = node_index(old(graph).nodes@, id);
                let n = old(graph).nodes@[i];
                let m = final(graph).nodes@[i];
                &&& r matches Ok(x) && x@ == id
                &&& if n.tags.deep_view().contains(label@) {
                    *final(graph) == *old(graph)
                } else {
                    &&& replaces_node(*old(graph), *final(graph), i)
                    &&& crate::text::sorted_le(m.tags.deep_view())
                    &&& m.tags.deep_view().to_multiset() == n.tags.deep_view().push(label@).to_multiset()
                    &&& touched(n, m, Node { tags: m.tags, ..n }, None)
                }
            },
        },
{
    let (id, i) = resolve_index(graph, partial)?;
    if !contains_str(&graph.nodes[i].tags, label) {
        let mut tags: Vec<String> = Vec::new();
        std::mem::swap(&mut tags, &mut graph.nodes[i].tags);
        let ghost before = tags.deep_view();
        tags.push(label.to_string());
        assert(tags.deep_view() =~= before.push(label@));
        graph.nodes[i].tags = crate::text::sort_strings(tags);
        graph.nodes[i].touch();
        assert(graph.nodes@ =~= old(graph).nodes@.update(i as int, graph.nodes@[i as int]));
    }
    Ok(id)
}


/// Appends a comment to a node's thread, stamped now, and touches the node.
/// A comment body that is only white space is refused. Returns the resolved
/// ID and the comment's timestamp.
pub fn add_comment(
    graph: &mut Graph,
    partial: &str,
    author: &str,
    label: Option<String>,
    body: String,
) -> (r: Result<(String, Timestamp), CxError>)
    ensures
        match resolves_to(old(graph).nodes@, partial@) {
            None => r matches Err(CxError::Id(e)) && resolve_refused(e, old(graph).nodes@, partial@)
                && *final(graph) == *old(graph),
            Some(id) => if crate::text::blank(body@) {
                r matches Err(CxError::EmptyComment) && *final(graph) == *old(graph)
            } else {
                let i = node_index(old(graph).nodes@, id);
                let n = old(graph).nodes@[i];
                let m = final(graph).nodes@[i];
                let c = m.comments@.last();
                &&& r matches Ok((x, ts)) && x@ == id && ts == c.timestamp
                &&& replaces_node(*old(graph), *final(graph), i)
                &&& m.comments@ == n.comments@.push(c)
                &&& c.author@ == author@ && c.tag == label && c.body == body
                &&& touched(n, m, Node { comments: m.comments, ..n }, None)
            },
        },
{
    let (id, i) = resolve_index(graph, partial)?;
    if crate::text::is_blank(body.as_str()) {
        return Err(CxError::EmptyComment);
    }
    let ts = now();
    graph.nodes[i].comments.push(Comment { timestamp: ts, author: author.to_string(), tag: label, body });
    graph.nodes[i].touch();
    assert(graph.nodes@ =~= old(graph).nodes@.update(i as int, graph.nodes@[i as int]));
    Ok((id, ts))
}

/// Comments whose timestamp is not `ts`.
pub open spec fn stamped_other(c: Comment, ts: Timestamp) -> bool {
    c.timestamp != ts
}

/// Removes the comments with the given RFC 3339 timestamp from a node and
/// touches it. Returns the resolved ID.
pub fn remove_comment(graph: &mut Graph, partial: &str, ts_text: &str) -> (r: Result<String, CxError>)
    ensures
        match resolves_to(old(graph).nodes@, partial@) {
            None => r matches Err(CxError::Id(e)) && resolve_refused(e, old(graph).nodes@, partial@)
                && *final(graph) == *old(graph),
            Some(id) => match rfc3339_instant(ts_text@) {
                None => r matches Err(CxError::InvalidTimestamp(x)) && x@ == ts_text@ && *final(graph)
                    == *old(graph),
                Some(ts) => {
                    let i = node_index(old(graph).nodes@, id);
                    let n = old(graph).nodes@[i];
                    let m = final(graph).nodes@[i];
                    let kept = n.comments@.filter(|c: Comment| stamped_other(c, ts));
                    if kept.len() == n.comments@.len() {
                        &&& r matches Err(CxError::NoSuchComment { ts: x, id: y })
                        &&& x@ == ts_text@ && y@ == id
                        &&& *final(graph) == *old(graph)
                    } else {
                        &&& r matches Ok(x) && x@ == id
                        &&& replaces_node(*old(graph), *final(graph), i)
                        &&& m.comments@ == kept
                        &&& touched(n, m, Node { comments: m.comments, ..n }, None)
                    }
                },
            },
        },
{
    let (id, i) = resolve_index(graph, partial)?;
    let ts = match parse_rfc3339(ts_text) {
        Some(t) => t,
        None => {
            return Err(CxError::InvalidTimestamp(ts_text.to_string()));
        },
    };
    let ghost old_comments = graph.nodes@[i as int].comments@;
    let ghost pred = |c: Comment| stamped_other(c, ts);
    let mut kept: Vec<Comment> = Vec::new();
    let mut k: usize = 0;
    while k < graph.nodes[i].comments.len()
        invariant
            i < graph.nodes@.len(),
            *graph == *old(graph),
            old_comments == graph.nodes@[i as int].comments@,
            pred == (|c: Comment| stamped_other(c, ts)),
            k <= old_comments.len(),
            kept@ == old_comments.subrange(0, k as int).filter(pred),
        decreases old_comments.len() - k,
    {
        proof {
            assert(old_comments.subrange(0, k + 1) =~= old_comments.subrange(0, k as int).push(old_comments[k as int]));
            old_comments.subrange(0, k as int).lemma_filter_push(old_comments[k as int], pred);
        }
        let c = &graph.nodes[i].comments[k];
        if c.timestamp != ts {
            kept.push(Comment {
                timestamp: c.timestamp,
                author: c.author.clone(),
                tag: c.tag.clone(),
                body: c.body.clone(),
            });
            assert(kept@.last() == old_comments[k as int]);
            assert(kept@ =~= old_comments.subrange(0, k + 1).filter(pred));
        }
        k += 1;
    }
    assert(old_comments.subrange(0, old_comments.len() as int) =~= old_comments);
    if kept.len() == graph.nodes[i].comments.len() {
        return Err(CxError::NoSuchComment { ts: ts_text.to_string(), id });
    }
    graph.nodes[i].comments = kept;
    graph.nodes[i].touch();
    assert(graph.nodes@ =~= old(graph).nodes@.update(i as int, graph.nodes@[i as int]));
    Ok(id)
}

/// The position of the first comment stamped `ts`, or -1.
pub open spec fn comment_index(cs: Seq<Comment>, ts: Timestamp) -> int {
    if exists|k: int| 0 <= k < cs.len() && cs[k].timestamp == ts {
        choose|k: int|
            0 <= k < cs.len() && cs[k].timestamp == ts && forall|j: int| 0 <= j < k ==> cs[j].timestamp != ts
    } else {
        -1
    }
}

/// Replaces the body (and, when one is given, the tag) of the first comment
/// with the given RFC 3339 timestamp, and touches the node. A body that is
/// only white space is refused. Returns the resolved ID.
pub fn edit_comment(
    graph: &mut Graph,
    partial: &str,
    ts_text: &str,
    body: String,
    label: Option<String>,
) -> (r: Result<String, CxError>)
    ensures
        match resolves_to(old(graph).nodes@, partial@) {
            None => r matches Err(CxError::Id(e)) && resolve_refused(e, old(graph).nodes@, partial@)
                && *final(graph) == *old(graph),
            Some(id) => if crate::text::blank(body@) {
                r matches Err(CxError::EmptyComment) && *final(graph) == *old(graph)
            } else {
                match rfc3339_instant(ts_text@) {
                    None => r matches Err(CxError::InvalidTimestamp(x)) && x@ == ts_text@ && *final(graph)
                        == *old(graph),
                    Some(ts) => {
                        let i = node_index(old(graph).nodes@, id);
                        let n = old(graph).nodes@[i];
                        let m = final(graph).nodes@[i];
                        let k = comment_index(n.comments@, ts);
                        if k < 0 {
                            &&& r matches Err(CxError::NoSuchComment { ts: x, id: y })
                            &&& x@ == ts_text@ && y@ == id
                            &&& *final(graph) == *old(graph)
                        } else {
                            let c = n.comments@[k];
                            &&& r matches Ok(x) && x@ == id
                            &&& replaces_node(*old(graph), *final(graph), i)
                            &&& m.comments@ == n.comments@.update(
                                k,
                                Comment {
                                    body: body,
                                    tag: if label is Some { label } else { c.tag },
                                    ..c
                                },
                            )
                            &&& touched(n, m, Node { comments: m.comments, ..n }, None)
                        }
                    },
                }
            },
        },
{
    let (id, i) = resolve_index(graph, partial)?;
    if crate::text::is_blank(body.as_str()) {
        return Err(CxError::EmptyComment);
    }
    let ts = match parse_rfc3339(ts_text) {
        Some(t) => t,
        None => {
            return Err(CxError::InvalidTimestamp(ts_text.to_string()));
        },
    };
    let ghost cs = graph.nodes@[i as int].comments@;
    let mut k: usize = 0;
    while k < graph.nodes[i].comments.len()
        invariant
            i < graph.nodes@.len(),
            cs == graph.nodes@[i as int].comments@,
            k <= cs.len(),
            forall|j: int| 0 <= j < k ==> cs[j].timestamp != ts,
        ensures
            k <= cs.len(),
            forall|j: int| 0 <= j < k ==> cs[j].timestamp != ts,
            k < cs.len() ==> cs[k as int].timestamp == ts,
        decreases cs.len() - k,
    {
        if graph.nodes[i].comments[k].timestamp == ts {
            break;
        }
        k += 1;
    }
    if k == graph.nodes[i].comments.len() {
        return Err(CxError::NoSuchComment { ts: ts_text.to_string(), id });
    }
    proof {
        assert(comment_index(cs, ts) == k) by {
            let q = comment_index(cs, ts);
            assert(0 <= q < cs.len() && cs[q].timestamp == ts);
            if q < k {
            } else if q > k {
            }
        }
    }
    graph.nodes[i].comments[k].body = body;
    if label.is_some() {
        graph.nodes[i].comments[k].tag = label;
    }
    graph.nodes[i].touch();
    assert(graph.nodes@[i as int].comments@ =~= cs.update(k as int, graph.nodes@[i as int].comments@[k as int]));
    assert(graph.nodes@ =~= old(graph).nodes@.update(i as int, graph.nodes@[i as int]));
    Ok(id)
}


/// A node that a search for `query` (and, when given, a tag) finds: its
/// title contains the query, ignoring case, and it has the tag.
pub open spec fn found_by(nodes: Seq<Node>, n: Node, query: Seq<char>, tag: Option<Seq<char>>) -> bool {
    &&& crate::text::has_substring(crate::text::lowercase(n.title@), crate::text::lowercase(query))
    &&& (tag matches Some(t) ==> has_effective_tag(nodes, n.id@, t))
}

/// Search nodes by title (case-insensitive substring match), optionally
/// keeping only those with an effective tag.
pub fn find<'a>(graph: &'a Graph, query: &str, tag: Option<&str>) -> (r: Vec<&'a Node>)
    requires
        tag is Some ==> hierarchy_finite(graph.nodes@),
    ensures
        r@.map_values(|x: &Node| *x) == graph.nodes@.filter(|n: Node| found_by(graph.nodes@, n, query@, os(tag))),
{
    let q = crate::text::to_lowercase(query);
    let ghost pred = |n: Node| found_by(graph.nodes@, n, query@, os(tag));
    let mut r: Vec<&Node> = Vec::new();
    let mut i: usize = 0;
    while i < graph.nodes.len()
        invariant
            i <= graph.nodes@.len(),
            tag is Some ==> hierarchy_finite(graph.nodes@),
            q@ == crate::text::lowercase(query@),
            pred == (|n: Node| found_by(graph.nodes@, n, query@, os(tag))),
            r@.map_values(|x: &Node| *x) == graph.nodes@.subrange(0, i as int).filter(pred),
        decreases graph.nodes@.len() - i,
    {
        let n = &graph.nodes[i];
        proof {
            assert(graph.nodes@.subrange(0, i + 1) =~= graph.nodes@.subrange(0, i as int).push(*n));
            graph.nodes@.subrange(0, i as int).lemma_filter_push(*n, pred);
        }
        let title = crate::text::to_lowercase(n.title.as_str());
        let mut hit = crate::text::contains_substring(title.as_str(), q.as_str());
        if hit {
            if let Some(t) = tag {
                let eff = graph.effective_tags(n.id.as_str());
                hit = contains_str(&eff, t);
            }
        }
        if hit {
            r.push(n);
        }
        assert(r@.map_values(|x: &Node| *x) =~= graph.nodes@.subrange(0, i + 1).filter(pred));
        i += 1;
    }
    assert(graph.nodes@.subrange(0, graph.nodes@.len() as int) =~= graph.nodes@);
    r
}

/// A node that a listing keeps: in the given state, filed by the given
/// filer, and with the given effective tag (each only when given).
pub open spec fn listed_by(
    nodes: Seq<Node>,
    n: Node,
    state: Option<Seq<char>>,
    filed_by: Option<Seq<char>>,
    tag: Option<Seq<char>>,
) -> bool {
    &&& (state matches Some(s) ==> crate::model::state_name(n.state) == s)
    &&& (filed_by matches Some(f) ==> ov(n.filed_by) == Some(f))
    &&& (tag matches Some(t) ==> has_effective_tag(nodes, n.id@, t))
}

/// All nodes, optionally filtered by state name, filer and effective tag.
pub fn list<'a>(graph: &'a Graph, state: Option<&str>, filed_by: Option<&str>, tag: Option<&str>) -> (r: Vec<&'a Node>)
    requires
        tag is Some ==> hierarchy_finite(graph.nodes@),
    ensures
        r@.map_values(|x: &Node| *x) == graph.nodes@.filter(
            |n: Node| listed_by(graph.nodes@, n, os(state), os(filed_by), os(tag)),
        ),
{
    let ghost pred = |n: Node| listed_by(graph.nodes@, n, os(state), os(filed_by), os(tag));
    let mut r: Vec<&Node> = Vec::new();
    let mut i: usize = 0;
    while i < graph.nodes.len()
        invariant
            i <= graph.nodes@.len(),
            tag is Some ==> hierarchy_finite(graph.nodes@),
            pred == (|n: Node| listed_by(graph.nodes@, n, os(state), os(filed_by), os(tag))),
            r@.map_values(|x: &Node| *x) == graph.nodes@.subrange(0, i as int).filter(pred),
        decreases graph.nodes@.len() - i,
    {
        let n = &graph.nodes[i];
        proof {
            assert(graph.nodes@.subrange(0, i + 1) =~= graph.nodes@.subrange(0, i as int).push(*n));
            graph.nodes@.subrange(0, i as int).lemma_filter_push(*n, pred);
        }
        let mut keep = match state {
            Some(s) => {
                let name = n.state.name();
                str_eq(name.as_str(), s)
            },
            None => true,
        };
        if keep {
            if let Some(f) = filed_by {
                keep = match &n.filed_by {
                    Some(x) => str_eq(x.as_str(), f),
                    None => false,
                };
            }
        }
        if keep {
            if let Some(t) = tag {
                let eff = graph.effective_tags(n.id.as_str());
                keep = contains_str(&eff, t);
            }
        }
        if keep {
            r.push(n);
        }
        assert(r@.map_values(|x: &Node| *x) =~= graph.nodes@.subrange(0, i + 1).filter(pred));
        i += 1;
    }
    assert(graph.nodes@.subrange(0, graph.nodes@.len() as int) =~= graph.nodes@);
    r
}

/// Some node has tag `t` among its own tags.
pub open spec fn tag_in_use(nodes: Seq<Node>, t: Seq<char>) -> bool {
    exists|i: int| 0 <= i < nodes.len() && nodes[i].tags.deep_view().contains(t)
}

/// Every tag in use on some node, sorted, each once.
pub fn all_tags(graph: &Graph) -> (r: Vec<String>)
    ensures
        crate::text::strictly_sorted(r.deep_view()),
        forall|t: Seq<char>| #[trigger] r.deep_view().contains(t) <==> tag_in_use(graph.nodes@, t),
{
    let mut r: Vec<String> = Vec::new();
    assert(r.deep_view() =~= Seq::<Seq<char>>::empty());
    let mut i: usize = 0;
    while i < graph.nodes.len()
        invariant
            i <= graph.nodes@.len(),
            crate::text::strictly_sorted(r.deep_view()),
            forall|t: Seq<char>| #[trigger] r.deep_view().contains(t) <==> exists|j: int| 0 <= j < i && graph.nodes@[j].tags.deep_view().contains(t),
        decreases graph.nodes@.len() - i,
    {
        crate::text::insert_all_sorted(&mut r, &graph.nodes[i].tags);
        i += 1;
    }
    r
}

/// The sources of the `blocks` edges into `id`, in edge order.
pub open spec fn blockers_spec(edges: Seq<Edge>, id: Seq<char>) -> Seq<Seq<char>> {
    edges.filter(blocks_into(id)).map_values(edge_source())
}

/// The targets of the `blocks` edges out of `id`, in edge order.
pub open spec fn blocking_spec(edges: Seq<Edge>, id: Seq<char>) -> Seq<Seq<char>> {
    crate::ops::blocked_by(edges, id)
}

/// The nodes that block `id` (sources of blocks edges into it), or, with
/// `outgoing`, the nodes that `id` blocks.
pub fn block_neighbors(graph: &Graph, id: &str, outgoing: bool) -> (r: Vec<String>)
    ensures
        r.deep_view() == if outgoing {
            blocking_spec(graph.edges@, id@)
        } else {
            blockers_spec(graph.edges@, id@)
        },
{
    let ghost pred = if outgoing {
        blocks_from(id@)
    } else {
        blocks_into(id@)
    };
    let ghost other = if outgoing {
        edge_target()
    } else {
        edge_source()
    };
    let mut r: Vec<String> = Vec::new();
    let mut k: usize = 0;
    while k < graph.edges.len()
        invariant
            k <= graph.edges@.len(),
            pred == (if outgoing {
                blocks_from(id@)
            } else {
                blocks_into(id@)
            }),
            other == (if outgoing {
                edge_target()
            } else {
                edge_source()
            }),
            r.deep_view() == graph.edges@.subrange(0, k as int).filter(pred).map_values(other),
        decreases graph.edges@.len() - k,
    {
        let e = &graph.edges[k];
        proof {
            let s0 = graph.edges@.subrange(0, k as int);
            assert(graph.edges@.subrange(0, k + 1) =~= s0.push(*e));
            s0.lemma_filter_push(*e, pred);
            assert(s0.filter(pred).push(*e).map_values(other) =~= s0.filter(pred).map_values(other).push(other(*e)));
        }
        let ghost before = r.deep_view();
        if e.edge_type == EdgeType::Blocks {
            if outgoing {
                if str_eq(e.from.as_str(), id) {
                    r.push(e.to.clone());
                    assert(r.deep_view() =~= before.push(e.to@));
                }
            } else {
                if str_eq(e.to.as_str(), id) {
                    r.push(e.from.clone());
                    assert(r.deep_view() =~= before.push(e.from@));
                }
            }
        }
        k += 1;
    }
    assert(graph.edges@.subrange(0, graph.edges@.len() as int) =~= graph.edges@);
    r
}

/// A comment kept by a tag filter: any comment without a filter, else those with that tag.
pub open spec fn comment_kept(c: Comment, tag: Option<Seq<char>>) -> bool {
    tag matches Some(t) ==> ov(c.tag) == Some(t)
}

/// The nodes flagged as shadowed, in graph order.
pub fn shadowed_nodes<'a>(graph: &'a Graph) -> (r: Vec<&'a Node>)
    ensures
        r@.map_values(|x: &Node| *x) == graph.nodes@.filter(|n: Node| n.shadowed),
{
    let ghost pred = |n: Node| n.shadowed;
    let mut r: Vec<&Node> = Vec::new();
    let mut i: usize = 0;
    while i < graph.nodes.len()
        invariant
            i <= graph.nodes@.len(),
            pred == (|n: Node| n.shadowed),
            r@.map_values(|x: &Node| *x) == graph.nodes@.subrange(0, i as int).filter(pred),
        decreases graph.nodes@.len() - i,
    {
        let n = &graph.nodes[i];
        proof {
            assert(graph.nodes@.subrange(0, i + 1) =~= graph.nodes@.subrange(0, i as int).push(*n));
            graph.nodes@.subrange(0, i as int).lemma_filter_push(*n, pred);
        }
        if n.shadowed {
            r.push(n);
        }
        assert(r@.map_values(|x: &Node| *x) =~= graph.nodes@.subrange(0, i + 1).filter(pred));
        i += 1;
    }
    assert(graph.nodes@.subrange(0, graph.nodes@.len() as int) =~= graph.nodes@);
    r
}

/// A node's comments, optionally only those with the given tag.
pub fn comments_tagged<'a>(node: &'a Node, tag: Option<&str>) -> (r: Vec<&'a Comment>)
    ensures
        r@.map_values(|x: &Comment| *x) == node.comments@.filter(|c: Comment| comment_kept(c, os(tag))),
{
    let ghost pred = |c: Comment| comment_kept(c, os(tag));
    let mut r: Vec<&Comment> = Vec::new();
    let mut i: usize = 0;
    while i < node.comments.len()
        invariant
            i <= node.comments@.len(),
            pred == (|c: Comment| comment_kept(c, os(tag))),
            r@.map_values(|x: &Comment| *x) == node.comments@.subrange(0, i as int).filter(pred),
        decreases node.comments@.len() - i,
    {
        let c = &node.comments[i];
        proof {
            assert(node.comments@.subrange(0, i + 1) =~= node.comments@.subrange(0, i as int).push(*c));
            node.comments@.subrange(0, i as int).lemma_filter_push(*c, pred);
        }
        let keep = match tag {
            Some(t) => match &c.tag {
                Some(x) => str_eq(x.as_str(), t),
                None => false,
            },
            None => true,
        };
        if keep {
            r.push(c);
        }
        assert(r@.map_values(|x: &Comment| *x) =~= node.comments@.subrange(0, i + 1).filter(pred));
        i += 1;
    }
    assert(node.comments@.subrange(0, node.comments@.len() as int) =~= node.comments@);
    r
}


/// Remove a node (discard, not integrate): refused while it has children
/// that are not integrated. Its file goes to the archive; the node comes
/// back with its outgoing edges, every edge at it leaves the graph, and no
/// other node keeps a stored edge to it, so none is saved again.
pub fn remove_node(graph: &mut Graph, partial: &str) -> (r: Result<Node, CxError>)
    ensures
        match resolves_to(old(graph).nodes@, partial@) {
            None => r matches Err(CxError::Id(e)) && resolve_refused(e, old(graph).nodes@, partial@)
                && *final(graph) == *old(graph),
            Some(id) => {
                let active = ids_of(old(graph).nodes@.filter(|n: Node| is_active_child(n, id)));
                if active.len() > 0 {
                    &&& r matches Err(CxError::ActiveChildren { id: x, children: cs })
                    &&& x@ == id && cs.deep_view() == active
                    &&& *final(graph) == *old(graph)
                } else {
                    let p = node_index(old(graph).nodes@, id);
                    &&& r matches Ok(n) && n == (Node { outgoing_edges: n.outgoing_edges, ..old(graph).nodes@[p] })
                        && n.outgoing_edges@.map_values(|oe: crate::model::OutgoingEdge| crate::store::out_view(oe))
                        == crate::store::edges_from(old(graph).edges@, id)
                    &&& crate::store::edges_to_dropped(old(graph).nodes@.remove(p), final(graph).nodes@, id)
                    &&& final(graph).edges@ == old(graph).edges@.filter(|e: Edge| crate::store::avoids(e, id))
                    &&& final(graph).version == old(graph).version
                    &&& forall|j: int, k: int|
                        0 <= j < final(graph).nodes@.len() && 0 <= k < crate::store::saved_outgoing(*final(graph), j).len()
                            ==> (#[trigger] crate::store::saved_outgoing(*final(graph), j)[k]).0 != id
                }
            },
        },
{
    let (id, _i) = resolve_index(graph, partial)?;
    let active = active_children(graph, id.as_str());
    if active.len() > 0 {
        return Err(CxError::ActiveChildren { id, children: active });
    }
    let r = crate::store::archive_node(graph, id.as_str());
    if r.is_ok() {
        crate::store::drop_edges_to(graph, id.as_str());
        proof {
            let g = *graph;
            let es = g.edges@;
            assert forall|k: int| 0 <= k < es.len() implies (#[trigger] es[k]).to@ != id@ by {
                let pr = |e: Edge| crate::store::avoids(e, id@);
                assert(es == old(graph).edges@.filter(pr));
                assert(es.contains(es[k]));
                old(graph).edges@.lemma_filter_contains_rev(pr, es[k]);
                let m = choose|m: int| 0 <= m < old(graph).edges@.len() && old(graph).edges@[m] == es[k];
                old(graph).edges@.lemma_filter_contains(pr, m);
            }
            assert forall|j: int, k: int|
                0 <= j < g.nodes@.len() && 0 <= k < crate::store::saved_outgoing(g, j).len()
                    implies (#[trigger] crate::store::saved_outgoing(g, j)[k]).0 != id@ by {
                crate::store::lemma_edges_from_avoid(es, g.nodes@[j].id@, id@);
                let st = crate::store::outs(g.nodes@[j]);
                let before = old(graph).nodes@.remove(node_index(old(graph).nodes@, id@));
                assert(st == crate::store::outs(before[j]).filter(crate::store::not_to(id@)));
                assert forall|q: int| 0 <= q < st.len() implies (#[trigger] st[q]).0 != id@ by {
                    assert(st.contains(st[q]));
                    crate::store::outs(before[j]).lemma_filter_contains_rev(crate::store::not_to(id@), st[q]);
                    let m = choose|m: int| 0 <= m < crate::store::outs(before[j]).len()
                        && crate::store::outs(before[j])[m] == st[q];
                    crate::store::outs(before[j]).lemma_filter_contains(crate::store::not_to(id@), m);
                }
                crate::store::lemma_keep_dormant_avoids(
                    g.nodes@,
                    crate::store::edges_from(es, g.nodes@[j].id@),
                    st,
                    id@,
                );
            }
        }
    }
    r
}

/// Archive an integrated node: its tags become its effective tags (its own
/// and its ancestors'), then it leaves the graph as `archive_node` takes it.
pub fn archive_one(graph: &mut Graph, id: &str) -> (r: Result<Node, CxError>)
    requires
        ancestry_finite(old(graph).nodes@, id@),
    ensures
        match r {
            Ok(n) => {
                let p = node_index(old(graph).nodes@, id@);
                &&& p >= 0
                &&& n == (Node { tags: n.tags, outgoing_edges: n.outgoing_edges, ..old(graph).nodes@[p] })
                &&& crate::text::strictly_sorted(n.tags.deep_view())
                &&& forall|t: Seq<char>| #[trigger] n.tags.deep_view().contains(t) <==> has_effective_tag(old(graph).nodes@, id@, t)
                &&& n.outgoing_edges@.map_values(|oe: crate::model::OutgoingEdge| crate::store::out_view(oe))
                    == crate::store::edges_from(old(graph).edges@, id@)
                &&& final(graph).nodes@ == old(graph).nodes@.remove(p)
                &&& final(graph).edges@ == old(graph).edges@.filter(|e: Edge| crate::store::avoids(e, id@))
                &&& final(graph).version == old(graph).version
            },
            Err(e) => {
                &&& node_index(old(graph).nodes@, id@) < 0
                &&& e matches CxError::NodeNotFound(x) && x@ == id@
                &&& *final(graph) == *old(graph)
            },
        },
{
    let eff = graph.effective_tags(id);
    match graph.find_index(id) {
        Some(i) => {
            graph.nodes[i].tags = eff;
            let ghost mid = graph.nodes@;
            proof {
                assert(mid =~= old(graph).nodes@.update(i as int, mid[i as int]));
                assert forall|q: int| 0 <= q < mid.len() implies #[trigger] mid[q].id@ == old(graph).nodes@[q].id@ by {
                }
                crate::model::lemma_node_index_same_ids(mid, old(graph).nodes@, id@);
            }
            let r = crate::store::archive_node(graph, id);
            proof {
                assert(mid.remove(i as int) =~= old(graph).nodes@.remove(i as int));
            }
            r
        },
        None => Err(CxError::NodeNotFound(id.to_string())),
    }
}


/// The IDs an explicit archive list names, in order, or `None` when one of
/// them does not resolve or names a node that is not integrated.
pub open spec fn archive_list(nodes: Seq<Node>, ps: Seq<Seq<char>>) -> Option<Seq<Seq<char>>>
    decreases ps.len(),
{
    if ps.len() == 0 {
        Some(Seq::empty())
    } else {
        match archive_list(nodes, ps.drop_last()) {
            None => None,
            Some(done) => match resolves_to(nodes, ps.last()) {
                None => None,
                Some(y) => if lookup(nodes, y)->0.state != State::Integrated {
                    None
                } else {
                    Some(done.push(y))
                },
            },
        }
    }
}

/// `e` is the refusal for list entry `p`.
pub open spec fn archive_refused(e: CxError, nodes: Seq<Node>, p: Seq<char>) -> bool {
    match resolves_to(nodes, p) {
        None => e matches CxError::Id(ie) && resolve_refused(ie, nodes, p),
        Some(y) => {
            &&& e matches CxError::NotIntegrated { id: x, state: st }
            &&& x@ == y
            &&& st == lookup(nodes, y)->0.state && st != State::Integrated
        },
    }
}

/// When the whole list can be archived, so can every prefix of it.
pub proof fn lemma_archive_list_prefix(nodes: Seq<Node>, ps: Seq<Seq<char>>, m: int)
    requires
        archive_list(nodes, ps) is Some,
        0 <= m <= ps.len(),
    ensures
        archive_list(nodes, ps.subrange(0, m)) is Some,
    decreases ps.len(),
{
    if m < ps.len() {
        assert(ps.drop_last() =~= ps.subrange(0, ps.len() - 1));
        assert(ps.drop_last().subrange(0, m) =~= ps.subrange(0, m));
        lemma_archive_list_prefix(nodes, ps.drop_last(), m);
    } else {
        assert(ps.subrange(0, m) =~= ps);
    }
}

/// The nodes to archive: with a comma-separated list, the node each entry
/// resolves to (each must be integrated; the first that is not, or does not
/// resolve, is refused); without one, every integrated node.
pub fn archive_targets(graph: &Graph, ids: Option<&str>) -> (r: Result<Vec<String>, CxError>)
    ensures
        match ids {
            None => r matches Ok(v) && v.deep_view() == ids_of(
                graph.nodes@.filter(|n: Node| n.state == State::Integrated),
            ),
            Some(list) => {
                let ps = crate::text::comma_list(list@);
                match archive_list(graph.nodes@, ps) {
                    Some(ts) => r matches Ok(v) && v.deep_view() == ts,
                    None => r matches Err(e) && exists|f: int|
                        0 <= f < ps.len() && archive_list(graph.nodes@, ps.subrange(0, f)) is Some
                            && #[trigger] archive_refused(e, graph.nodes@, ps[f]),
                }
            },
        },
{
    match ids {
        None => {
            let ghost pred = |n: Node| n.state == State::Integrated;
            let mut r: Vec<String> = Vec::new();
            let mut i: usize = 0;
            while i < graph.nodes.len()
                invariant
                    i <= graph.nodes@.len(),
                    pred == (|n: Node| n.state == State::Integrated),
                    r.deep_view() == ids_of(graph.nodes@.subrange(0, i as int).filter(pred)),
                decreases graph.nodes@.len() - i,
            {
                let n = &graph.nodes[i];
                proof {
                    assert(graph.nodes@.subrange(0, i + 1) =~= graph.nodes@.subrange(0, i as int).push(*n));
                    graph.nodes@.subrange(0, i as int).lemma_filter_push(*n, pred);
                }
                let ghost before = r.deep_view();
                if n.state == State::Integrated {
                    r.push(n.id.clone());
                    assert(r.deep_view() =~= before.push(n.id@));
                }
                assert(r.deep_view() =~= ids_of(graph.nodes@.subrange(0, i + 1).filter(pred)));
                i += 1;
            }
            assert(graph.nodes@.subrange(0, graph.nodes@.len() as int) =~= graph.nodes@);
            Ok(r)
        },
        Some(list) => {
            let pieces = crate::text::split_list(list);
            let ghost ps = pieces.deep_view();
            let ghost nodes = graph.nodes@;
            let mut targets: Vec<String> = Vec::new();
            let mut k: usize = 0;
            assert(ps.subrange(0, 0) =~= Seq::<Seq<char>>::empty());
            while k < pieces.len()
                invariant
                    k <= pieces@.len(),
                    ids == Some(list),
                    ps == crate::text::comma_list(list@),
                    nodes == graph.nodes@,
                    ps == pieces.deep_view(),
                    archive_list(nodes, ps.subrange(0, k as int)) == Some(targets.deep_view()),
                decreases pieces@.len() - k,
            {
                proof {
                    assert(ps.subrange(0, k + 1).drop_last() =~= ps.subrange(0, k as int));
                    assert(ps.subrange(0, k + 1).last() == ps[k as int]);
                    assert(ps[k as int] == pieces@[k as int]@);
                }
                let (y, i) = match resolve_index(graph, pieces[k].as_str()) {
                    Ok(t) => t,
                    Err(e) => {
                        proof {
                            assert(archive_refused(e, nodes, ps[k as int]));
                            if archive_list(nodes, ps) is Some {
                                lemma_archive_list_prefix(nodes, ps, k + 1);
                            }
                        }
                        return Err(e);
                    },
                };
                if graph.nodes[i].state != State::Integrated {
                    let st = graph.nodes[i].state;
                    proof {
                        assert(archive_refused(CxError::NotIntegrated { id: y, state: st }, nodes, ps[k as int]));
                        if archive_list(nodes, ps) is Some {
                            lemma_archive_list_prefix(nodes, ps, k + 1);
                        }
                    }
                    return Err(CxError::NotIntegrated { id: y, state: st });
                }
                let ghost before = targets.deep_view();
                let ghost yv = y@;
                targets.push(y);
                assert(targets.deep_view() =~= before.push(yv));
                k += 1;
            }
            assert(ps.subrange(0, pieces@.len() as int) =~= ps);
            Ok(targets)
        },
    }
}

} // verus!
