use complex::clock::Timestamp;
use complex::db::{materialize, parts_summary, ready_nodes, therapy_nodes, TherapyReason};
use complex::id::{generate, id_from_draws, pick_fresh, resolve, IdError};
use complex::model::{Edge, EdgeType, Graph, Node, OutgoingEdge, State};
use complex::store::outgoing_for_save;
use complex::ops::{
    add_comment, all_tags, ancestor_blocker, archive_targets, block_neighbors, claim,
    collect_existing_ids, create_node, create_node_from, edit_comment, find, integrate, list, move_node,
    remove_comment, remove_node, rename, set_edge, set_meta, set_reason, set_shadow, subtree_has_tag,
    surface, surface_all, tag, unclaim, untag, CxError,
};
use complex::tree::{build_forest, leaf_label, sorted_by_id};

fn node(id: &str, parent: Option<&str>, state: State) -> Node {
    let mut n = Node::new(id.to_string(), format!("title {}", id));
    n.parent = parent.map(|p| p.to_string());
    n.state = state;
    n
}

fn graph(nodes: Vec<Node>, edges: Vec<(&str, &str, EdgeType)>) -> Graph {
    let mut g = Graph::default();
    g.nodes = nodes;
    g.edges = edges
        .into_iter()
        .map(|(a, b, t)| Edge { from: a.to_string(), to: b.to_string(), edge_type: t })
        .collect();
    g
}

fn ids(v: &[&Node]) -> Vec<String> {
    v.iter().map(|n| n.id.clone()).collect()
}

fn strings(v: &[&str]) -> Vec<String> {
    v.iter().map(|s| s.to_string()).collect()
}

fn state_of(g: &Graph, id: &str) -> State {
    g.get_node(id).unwrap().state
}

// ── the hierarchy ─────────────────────────────────────────────────────────────

fn family() -> Graph {
    graph(
        vec![
            node("a", None, State::Latent),
            node("b", Some("a"), State::Latent),
            node("c", Some("b"), State::Latent),
            node("d", Some("a"), State::Latent),
            node("e", None, State::Latent),
        ],
        vec![],
    )
}

#[test]
fn children_and_roots_follow_parent_fields() {
    let g = family();
    assert_eq!(ids(&g.children("a")), strings(&["b", "d"]));
    assert_eq!(ids(&g.roots()), strings(&["a", "e"]));
    assert!(g.children("c").is_empty());
}

#[test]
fn descendants_are_breadth_first() {
    let g = family();
    assert_eq!(ids(&g.descendants("a")), strings(&["b", "d", "c"]));
    assert!(g.descendants("e").is_empty());
    assert!(g.descendants("zzzz").is_empty());
}

#[test]
fn descendants_agree_with_ancestors() {
    let g = family();
    for a in ["a", "b", "c", "d", "e"] {
        let below = ids(&g.descendants(a));
        for x in ["a", "b", "c", "d", "e"] {
            let up = g.ancestors(x);
            assert_eq!(below.contains(&x.to_string()), up.contains(&a.to_string()), "{} {}", a, x);
        }
    }
}

#[test]
fn ancestors_run_up_to_the_root() {
    let g = family();
    assert_eq!(g.ancestors("c"), strings(&["b", "a"]));
    assert!(g.ancestors("a").is_empty());
    assert!(g.is_descendant_of("c", "a"));
    assert!(!g.is_descendant_of("a", "c"));
    assert!(!g.is_descendant_of("e", "a"));
}

#[test]
fn hierarchy_check_accepts_a_tree_and_refuses_a_cycle() {
    assert!(family().hierarchy_ok());
    let cyclic = graph(
        vec![node("a", Some("b"), State::Latent), node("b", Some("a"), State::Latent)],
        vec![],
    );
    assert!(!cyclic.hierarchy_ok());
    let doubled = graph(
        vec![node("a", None, State::Latent), node("a", Some("a"), State::Latent)],
        vec![],
    );
    assert!(!doubled.hierarchy_ok());
}

#[test]
fn tag_propagation_parent_to_child() {
    let mut g = family();
    g.nodes[0].tags = strings(&["infra"]);
    g.nodes[1].tags = strings(&["api", "infra"]);
    assert_eq!(g.effective_tags("c"), strings(&["api", "infra"]));
    assert_eq!(g.effective_tags("d"), strings(&["infra"]));
    assert!(g.effective_tags("e").is_empty());
}

#[test]
fn subtree_tag_search_looks_below() {
    let mut g = family();
    g.nodes[2].tags = strings(&["deep"]);
    assert!(subtree_has_tag(&g, "a", "deep"));
    assert!(subtree_has_tag(&g, "c", "deep"));
    assert!(!subtree_has_tag(&g, "d", "deep"));
}

#[test]
fn would_cycle_follows_blocks_edges() {
    let g = graph(
        vec![node("a", None, State::Latent), node("b", None, State::Latent), node("c", None, State::Latent)],
        vec![("a", "b", EdgeType::Blocks), ("b", "c", EdgeType::Blocks), ("c", "a", EdgeType::Related)],
    );
    assert!(g.would_cycle("c", "a"));
    assert!(g.would_cycle("b", "a"));
    assert!(!g.would_cycle("a", "c"));
}

// ── IDs ───────────────────────────────────────────────────────────────────────

#[test]
fn ids_from_draws_are_base62() {
    assert_eq!(id_from_draws(None, &vec![0, 10, 36, 61]), "0Aaz");
    assert_eq!(id_from_draws(Some("p"), &vec![1, 2, 3, 62 + 4]), "p.1234");
}

#[test]
fn add_many_nodes_no_duplicate_ids() {
    let mut existing: Vec<String> = Vec::new();
    for _ in 0..50 {
        let id = generate(None, &existing).unwrap();
        assert_eq!(id.len(), 4);
        assert!(id.chars().all(|c| c.is_ascii_alphanumeric()));
        assert!(!existing.contains(&id));
        existing.push(id);
    }
}

#[test]
fn generate_succeeds_when_nothing_taken_looks_generated() {
    let existing = strings(&["a.b", "toolong", "x"]);
    assert!(generate(None, &existing).is_ok());
    let mut g = family();
    assert!(create_node(&mut g, &existing, Some("a"), "t", None, vec![]).is_ok());
}

#[test]
fn touch_at_moves_only_updated_at() {
    let mut n = node("x", None, State::Ready);
    let created = n.created_at;
    n.touch_at(at(42));
    assert_eq!(n.updated_at, at(42));
    assert_eq!(n.created_at, created);
    assert_eq!((n.id.as_str(), n.state), ("x", State::Ready));
}

#[test]
fn parent_chains_are_checked_one_by_one() {
    let mut g = family();
    assert!(g.chain_ok("c"));
    g.nodes[4].parent = Some("e".to_string());
    assert!(!g.chain_ok("e"));
    assert!(g.chain_ok("c"));
    assert!(!g.hierarchy_ok());
}

#[test]
fn fresh_id_is_the_first_round_not_taken() {
    let mut rounds = vec![vec![0, 0, 0, 0]; 10];
    rounds[3] = vec![1, 2, 3, 4];
    rounds[5] = vec![5, 6, 7, 8];
    let existing = strings(&["0000"]);
    assert_eq!(pick_fresh(None, &existing, &rounds).unwrap(), "1234");
    assert_eq!(pick_fresh(Some("p"), &existing, &rounds).unwrap(), "p.0000");
    let all_taken = vec![vec![0, 0, 0, 0]; 10];
    assert!(matches!(pick_fresh(None, &existing, &all_taken), Err(IdError::Exhausted)));
}

#[test]
fn short_id_resolves_unambiguously() {
    let g = graph(
        vec![node("root.x1", None, State::Latent), node("root.y2", None, State::Latent), node("y2", None, State::Latent)],
        vec![],
    );
    assert_eq!(resolve(&g, "x1").unwrap(), "root.x1");
    assert_eq!(resolve(&g, "y2").unwrap(), "y2");
    assert!(matches!(resolve(&g, "nope"), Err(IdError::NoMatch(p)) if p == "nope"));
}

#[test]
fn ambiguous_short_id_fails() {
    let g = graph(vec![node("a.k", None, State::Latent), node("b.k", None, State::Latent)], vec![]);
    match resolve(&g, "k") {
        Err(IdError::Ambiguous(p, ms)) => {
            assert_eq!(p, "k");
            assert_eq!(ms, strings(&["a.k", "b.k"]));
        }
        _ => panic!("expected an ambiguous ID"),
    }
}

#[test]
fn collected_ids_include_archive_and_graph() {
    let g = family();
    let all = collect_existing_ids(strings(&["old1"]), &g);
    for id in ["old1", "a", "b", "c", "d", "e"] {
        assert!(all.contains(&id.to_string()));
    }
}

// ── creating ──────────────────────────────────────────────────────────────────

#[test]
fn new_child_is_latent_under_its_parent() {
    let mut g = family();
    let (id, parent) = create_node(&mut g, &vec![], Some("d"), "child", Some("me".to_string()), strings(&["t"])).unwrap();
    assert_eq!(parent.as_deref(), Some("d"));
    let n = g.get_node(&id).unwrap();
    assert_eq!(n.state, State::Latent);
    assert_eq!(n.parent.as_deref(), Some("d"));
    assert_eq!(n.filed_by.as_deref(), Some("me"));
    assert_eq!(n.tags, strings(&["t"]));
    assert_eq!(g.nodes.len(), 6);
}

#[test]
fn new_node_takes_the_first_free_drawn_id() {
    let mut g = family();
    let mut rounds = vec![vec![0, 0, 0, 0]; 10];
    rounds[1] = vec![10, 11, 12, 13];
    let existing = strings(&["0000"]);
    let (id, parent) = create_node_from(&mut g, &existing, Some("b"), "child", None, vec![], &rounds).unwrap();
    assert_eq!(id, "ABCD");
    assert_eq!(parent.as_deref(), Some("b"));
    assert_eq!(g.get_node("ABCD").unwrap().parent.as_deref(), Some("b"));
    let all_taken = vec![vec![0, 0, 0, 0]; 10];
    let r = create_node_from(&mut g, &existing, None, "x", None, vec![], &all_taken);
    assert!(matches!(r, Err(CxError::Id(IdError::Exhausted))));
    let r = create_node_from(&mut g, &existing, Some("zzzz"), "x", None, vec![], &all_taken);
    assert!(matches!(r, Err(CxError::ParentNotFound(p)) if p == "zzzz"));
    assert_eq!(g.nodes.len(), 6);
}

#[test]
fn new_bad_parent_fails_with_hint() {
    let mut g = family();
    let r = create_node(&mut g, &vec![], Some("zzzz"), "child", None, vec![]);
    assert!(matches!(r, Err(CxError::ParentNotFound(p)) if p == "zzzz"));
    assert_eq!(g.nodes.len(), 5);
}

// ── the lifecycle ─────────────────────────────────────────────────────────────

#[test]
fn surface_id_promotes_latent_to_ready() {
    let mut g = family();
    let done = surface(&mut g, &strings(&["b", "d"]), Some("go")).unwrap();
    assert_eq!(done, strings(&["b", "d"]));
    assert_eq!(state_of(&g, "b"), State::Ready);
    assert_eq!(state_of(&g, "d"), State::Ready);
    assert_eq!(state_of(&g, "c"), State::Latent);
}

#[test]
fn surface_non_latent_fails() {
    let mut g = family();
    g.nodes[1].state = State::Ready;
    let r = surface(&mut g, &strings(&["d", "b"]), None);
    assert!(matches!(r, Err(CxError::NotLatent { id, state: State::Ready }) if id == "b"));
    assert_eq!(state_of(&g, "d"), State::Latent);
    let r = surface(&mut g, &strings(&["d", "d"]), None);
    assert!(matches!(r, Err(CxError::NotLatent { id, state: State::Ready }) if id == "d"));
}

#[test]
fn claim_latent_fails() {
    let mut g = family();
    let r = claim(&mut g, "b", "agent", None);
    assert!(matches!(r, Err(CxError::LatentNotSurfaced(id)) if id == "b"));
}

#[test]
fn claim_already_claimed_fails() {
    let mut g = family();
    g.nodes[1].state = State::Ready;
    claim(&mut g, "b", "agent-1", None).unwrap();
    let n = g.get_node("b").unwrap();
    assert_eq!(n.state, State::Claimed);
    assert_eq!(n.part.as_deref(), Some("agent-1"));
    let r = claim(&mut g, "b", "agent-2", None);
    assert!(matches!(r, Err(CxError::AlreadyClaimed { id, part: Some(p) }) if id == "b" && p == "agent-1"));
}

#[test]
fn unclaim_returns_to_ready() {
    let mut g = family();
    g.nodes[1].state = State::Ready;
    let before = g.get_node("b").unwrap().title.clone();
    claim(&mut g, "b", "agent", Some("taking it")).unwrap();
    unclaim(&mut g, "b", None).unwrap();
    let n = g.get_node("b").unwrap();
    assert_eq!(n.state, State::Ready);
    assert!(n.part.is_none());
    assert_eq!(n.title, before);
    let r = unclaim(&mut g, "b", None);
    assert!(matches!(r, Err(CxError::NotClaimed { id, state: State::Ready }) if id == "b"));
}

#[test]
fn claim_child_of_blocked_parent_fails() {
    let mut g = family();
    g.nodes[2].state = State::Ready;
    g.edges.push(Edge { from: "e".into(), to: "a".into(), edge_type: EdgeType::Blocks });
    let r = claim(&mut g, "c", "agent", None);
    assert!(matches!(r, Err(CxError::Blocked { id, blocker }) if id == "c" && blocker == "a"));
    assert_eq!(ancestor_blocker(&g, "c").as_deref(), Some("a"));
    g.nodes[4].state = State::Integrated;
    assert!(ancestor_blocker(&g, "c").is_none());
    claim(&mut g, "c", "agent", None).unwrap();
}

#[test]
fn integrate_auto_surfaces_unblocked_latent_node() {
    let mut g = family();
    g.edges.push(Edge { from: "b".into(), to: "d".into(), edge_type: EdgeType::Blocks });
    let out = integrate(&mut g, "b", Some("done")).unwrap();
    assert_eq!(out.id, "b");
    assert_eq!(out.active_children, strings(&["c"]));
    assert_eq!(out.newly_surfaced, strings(&["d"]));
    assert_eq!(state_of(&g, "b"), State::Integrated);
    assert_eq!(state_of(&g, "d"), State::Ready);
}

#[test]
fn integrate_does_not_auto_surface_if_other_blocker_remains() {
    let mut g = family();
    g.edges.push(Edge { from: "b".into(), to: "d".into(), edge_type: EdgeType::Blocks });
    g.edges.push(Edge { from: "e".into(), to: "d".into(), edge_type: EdgeType::Blocks });
    let out = integrate(&mut g, "b", None).unwrap();
    assert!(out.newly_surfaced.is_empty());
    assert_eq!(state_of(&g, "d"), State::Latent);
}

#[test]
fn surface_all_promotes_eligible_latent_nodes() {
    let mut g = family();
    g.edges.push(Edge { from: "a".into(), to: "d".into(), edge_type: EdgeType::Blocks });
    let done = surface_all(&mut g, None);
    assert_eq!(done, strings(&["a", "b", "c", "e"]));
    assert_eq!(state_of(&g, "d"), State::Latent);
    assert!(g.unblocked_latent_ids().is_empty());
}

#[test]
fn surface_all_twice_surfaces_nothing() {
    let mut g = family();
    g.edges.push(Edge { from: "e".into(), to: "d".into(), edge_type: EdgeType::Blocks });
    let first = surface_all(&mut g, None);
    assert_eq!(first, strings(&["a", "b", "c", "e"]));
    let second = surface_all(&mut g, None);
    assert!(second.is_empty());
    assert_eq!(state_of(&g, "d"), State::Latent);
}

#[test]
fn reason_leaves_non_object_meta_alone() {
    let mut n = node("x", None, State::Latent);
    n.meta = Some(serde_json::from_str("[1]").unwrap());
    set_reason(&mut n, "why");
    assert_eq!(n.meta.unwrap(), serde_json::from_str::<serde_json::Value>("[1]").unwrap());
    let mut m = node("y", None, State::Latent);
    set_reason(&mut m, "because");
    assert_eq!(m.meta.unwrap()["_reason"].as_str(), Some("because"));
}

#[test]
fn shadow_flag_and_reason() {
    let mut g = family();
    set_shadow(&mut g, "d", true, Some("stuck")).unwrap();
    let n = g.get_node("d").unwrap();
    assert!(n.shadowed);
    let meta = n.meta.as_ref().unwrap();
    assert_eq!(meta["_reason"].as_str(), Some("stuck"));
    set_shadow(&mut g, "d", false, None).unwrap();
    assert!(!g.get_node("d").unwrap().shadowed);
}

#[test]
fn reason_preserves_existing_meta() {
    let mut g = family();
    set_meta(&mut g, "a", r#"{"capability":"rust","priority":1}"#).unwrap();
    set_shadow(&mut g, "a", true, Some("blocked")).unwrap();
    let meta = g.get_node("a").unwrap().meta.clone().unwrap();
    assert_eq!(meta["capability"], "rust");
    assert_eq!(meta["priority"], 1);
    assert_eq!(meta["_reason"], "blocked");
}

#[test]
fn reason_creates_meta_when_missing() {
    let mut n = node("x", None, State::Latent);
    set_reason(&mut n, "blocked");
    let meta = n.meta.unwrap();
    assert_eq!(meta, serde_json::from_str::<serde_json::Value>(r#"{"_reason":"blocked"}"#).unwrap());
}

#[test]
fn meta_must_be_json() {
    let mut g = family();
    assert!(matches!(set_meta(&mut g, "a", "{not json"), Err(CxError::InvalidJson)));
    set_meta(&mut g, "a", r#"{"k": [1, 2]}"#).unwrap();
    assert_eq!(g.get_node("a").unwrap().meta.as_ref().unwrap()["k"][1].as_i64(), Some(2));
}

#[test]
fn rename_updates_title() {
    let mut g = family();
    assert_eq!(rename(&mut g, "a", "New name").unwrap(), "a");
    assert_eq!(g.get_node("a").unwrap().title, "New name");
}

// ── edges and moves ───────────────────────────────────────────────────────────

#[test]
fn block_cycle_direct_fails() {
    let mut g = family();
    set_edge(&mut g, "a", "e", EdgeType::Blocks, false).unwrap();
    let r = set_edge(&mut g, "e", "a", EdgeType::Blocks, false);
    assert!(matches!(r, Err(CxError::Cycle { from, to }) if from == "e" && to == "a"));
    assert_eq!(g.edges.len(), 1);
}

#[test]
fn block_cycle_transitive_fails() {
    let mut g = family();
    set_edge(&mut g, "a", "b", EdgeType::Blocks, false).unwrap();
    set_edge(&mut g, "b", "c", EdgeType::Blocks, false).unwrap();
    assert!(matches!(set_edge(&mut g, "c", "a", EdgeType::Blocks, false), Err(CxError::Cycle { .. })));
    set_edge(&mut g, "c", "a", EdgeType::Related, false).unwrap();
    assert_eq!(block_neighbors(&g, "b", false), strings(&["a"]));
    assert_eq!(block_neighbors(&g, "b", true), strings(&["c"]));
}

#[test]
fn block_nonexistent_node_fails() {
    let mut g = family();
    assert!(matches!(set_edge(&mut g, "a", "zzzz", EdgeType::Blocks, false), Err(CxError::Id(IdError::NoMatch(_)))));
}

#[test]
fn unblock_removes_edge() {
    let mut g = family();
    set_edge(&mut g, "a", "e", EdgeType::Blocks, false).unwrap();
    set_edge(&mut g, "a", "e", EdgeType::Blocks, false).unwrap();
    assert_eq!(g.edges.len(), 1);
    set_edge(&mut g, "a", "e", EdgeType::Blocks, true).unwrap();
    assert!(g.edges.is_empty());
}

#[test]
fn move_reparents_node_under_new_parent() {
    let mut g = family();
    let m = move_node(&mut g, "b", Some("e"), false).unwrap();
    assert_eq!(m.old_parent.as_deref(), Some("a"));
    assert_eq!(m.new_parent.as_deref(), Some("e"));
    assert_eq!(g.ancestors("c"), strings(&["b", "e"]));
    assert!(g.hierarchy_ok());
}

#[test]
fn move_under_self_fails() {
    let mut g = family();
    assert!(matches!(move_node(&mut g, "a", Some("a"), false), Err(CxError::MoveUnderDescendant { .. })));
    assert!(matches!(move_node(&mut g, "a", Some("c"), false), Err(CxError::MoveUnderDescendant { id, target }) if id == "a" && target == "c"));
    assert!(matches!(move_node(&mut g, "b", Some("a"), false), Err(CxError::AlreadyThere(id)) if id == "b"));
    assert!(matches!(move_node(&mut g, "b", None, false), Err(CxError::MoveTargetMissing)));
    assert!(matches!(move_node(&mut g, "b", Some("e"), true), Err(CxError::MoveTargetConflict)));
}

#[test]
fn move_promotes_to_root() {
    let mut g = family();
    move_node(&mut g, "c", None, true).unwrap();
    assert!(g.get_node("c").unwrap().parent.is_none());
    assert!(matches!(move_node(&mut g, "c", None, true), Err(CxError::AlreadyThere(_))));
}

#[test]
fn rm_refuses_with_active_children() {
    let mut g = family();
    g.edges.push(Edge { from: "b".into(), to: "e".into(), edge_type: EdgeType::Blocks });
    let r = remove_node(&mut g, "b");
    assert!(matches!(r, Err(CxError::ActiveChildren { id, children }) if id == "b" && children == strings(&["c"])));
    g.nodes[2].state = State::Integrated;
    let removed = remove_node(&mut g, "b").unwrap();
    assert_eq!(removed.id, "b");
    assert_eq!(removed.outgoing_edges.len(), 1);
    assert!(g.get_node("b").is_none());
    assert!(g.edges.is_empty());
}

#[test]
fn rm_leaves_no_stored_edge_to_the_node() {
    let mut g = family();
    g.nodes[0].outgoing_edges.push(OutgoingEdge { to: "e".into(), edge_type: EdgeType::Blocks });
    g.nodes[0].outgoing_edges.push(OutgoingEdge { to: "old".into(), edge_type: EdgeType::Related });
    g.edges.push(Edge { from: "a".into(), to: "e".into(), edge_type: EdgeType::Blocks });
    remove_node(&mut g, "e").unwrap();
    let a = g.get_node("a").unwrap();
    assert_eq!(a.outgoing_edges.len(), 1);
    assert_eq!(a.outgoing_edges[0].to, "old");
    let saved = outgoing_for_save(&g, 0);
    assert!(saved.iter().all(|oe| oe.to != "e"));
    assert_eq!(saved.len(), 1);
}

#[test]
fn untag_undoes_tag() {
    let mut g = family();
    g.nodes[0].tags = strings(&["m", "x"]);
    tag(&mut g, "a", "b").unwrap();
    assert_eq!(g.get_node("a").unwrap().tags, strings(&["b", "m", "x"]));
    let once = g.get_node("a").unwrap().tags.clone();
    tag(&mut g, "a", "b").unwrap();
    assert_eq!(g.get_node("a").unwrap().tags, once);
    untag(&mut g, "a", "b").unwrap();
    assert_eq!(g.get_node("a").unwrap().tags, strings(&["m", "x"]));
}

#[test]
fn edge_operations_keep_blocks_acyclic() {
    let mut g = family();
    set_edge(&mut g, "a", "b", EdgeType::Blocks, false).unwrap();
    set_edge(&mut g, "b", "a", EdgeType::Related, false).unwrap();
    assert!(matches!(set_edge(&mut g, "b", "a", EdgeType::Blocks, false), Err(CxError::Cycle { .. })));
    assert!(matches!(set_edge(&mut g, "c", "c", EdgeType::Blocks, false), Err(CxError::Cycle { .. })));
    set_edge(&mut g, "a", "b", EdgeType::Blocks, true).unwrap();
    set_edge(&mut g, "b", "a", EdgeType::Blocks, false).unwrap();
    assert_eq!(g.edges.len(), 2);
}

// ── tags, search, lists ───────────────────────────────────────────────────────

#[test]
fn tag_sorted_on_node() {
    let mut g = family();
    tag(&mut g, "a", "zeta").unwrap();
    tag(&mut g, "a", "alpha").unwrap();
    tag(&mut g, "a", "alpha").unwrap();
    assert_eq!(g.get_node("a").unwrap().tags, strings(&["alpha", "zeta"]));
    untag(&mut g, "a", "zeta").unwrap();
    assert_eq!(g.get_node("a").unwrap().tags, strings(&["alpha"]));
    tag(&mut g, "e", "beta").unwrap();
    assert_eq!(all_tags(&g), strings(&["alpha", "beta"]));
}

#[test]
fn find_case_insensitive() {
    let mut g = family();
    g.nodes[1].title = "Write the PARSER".into();
    g.nodes[3].title = "Release notes".into();
    assert_eq!(ids(&find(&g, "parser", None)), strings(&["b"]));
    assert_eq!(ids(&find(&g, "E", None)), strings(&["a", "b", "c", "d", "e"]));
    assert!(find(&g, "nothing like it", None).is_empty());
    g.nodes[0].tags = strings(&["x"]);
    assert_eq!(ids(&find(&g, "title", Some("x"))), strings(&["a", "c"]));
}

#[test]
fn list_state_filter() {
    let mut g = family();
    g.nodes[3].state = State::Ready;
    g.nodes[4].filed_by = Some("bot".into());
    assert_eq!(ids(&list(&g, Some("ready"), None, None)), strings(&["d"]));
    assert_eq!(ids(&list(&g, None, Some("bot"), None)), strings(&["e"]));
    assert_eq!(list(&g, None, None, None).len(), 5);
}

// ── comments ──────────────────────────────────────────────────────────────────

#[test]
fn comment_edit_and_remove() {
    let mut g = family();
    let (id, ts) = add_comment(&mut g, "a", "me", Some("review".into()), "first".into()).unwrap();
    assert_eq!(id, "a");
    let text = chrono::DateTime::from_timestamp(ts.secs, ts.nanos).unwrap().to_rfc3339();
    edit_comment(&mut g, "a", &text, "second".into(), None).unwrap();
    assert_eq!(g.get_node("a").unwrap().comments[0].body, "second");
    remove_comment(&mut g, "a", &text).unwrap();
    assert!(g.get_node("a").unwrap().comments.is_empty());
}

#[test]
fn comment_empty_body_rejected() {
    let mut g = family();
    assert!(matches!(add_comment(&mut g, "a", "me", None, " \n\t".into()), Err(CxError::EmptyComment)));
}

#[test]
fn comment_rm_nonexistent_timestamp_fails() {
    let mut g = family();
    add_comment(&mut g, "a", "me", None, "hi".into()).unwrap();
    let r = remove_comment(&mut g, "a", "2001-02-03T04:05:06Z");
    assert!(matches!(r, Err(CxError::NoSuchComment { ts, id }) if ts == "2001-02-03T04:05:06Z" && id == "a"));
    let r = remove_comment(&mut g, "a", "yesterday");
    assert!(matches!(r, Err(CxError::InvalidTimestamp(t)) if t == "yesterday"));
}

// ── archive targets ───────────────────────────────────────────────────────────

#[test]
fn archive_targets_need_integrated_nodes() {
    let mut g = family();
    g.nodes[3].state = State::Integrated;
    g.nodes[4].state = State::Integrated;
    assert_eq!(archive_targets(&g, None).unwrap(), strings(&["d", "e"]));
    assert_eq!(archive_targets(&g, Some(" e , d,")).unwrap(), strings(&["e", "d"]));
    let r = archive_targets(&g, Some("d,a"));
    assert!(matches!(r, Err(CxError::NotIntegrated { id, state: State::Latent }) if id == "a"));
}

// ── the queries the database answered ─────────────────────────────────────────

fn at(secs: i64) -> Timestamp {
    Timestamp { secs, nanos: 0 }
}

#[test]
fn shadowed_node_excluded_from_surface() {
    let mut g = family();
    for (i, n) in g.nodes.iter_mut().enumerate() {
        n.state = State::Ready;
        n.updated_at = at(1000 - i as i64);
    }
    g.nodes[1].shadowed = true;
    let ready: Vec<String> = ready_nodes(&g).into_iter().map(|r| r.id).collect();
    assert_eq!(ready, strings(&["e", "d", "c", "a"]));
}

#[test]
fn blocked_parent_hides_children_from_surface() {
    let mut g = graph(
        vec![
            node("pPp1", None, State::Ready),
            node("cCc2", Some("pPp1"), State::Ready),
            node("qQq3", None, State::Ready),
            node("gGg4", Some("cCc2"), State::Ready),
        ],
        vec![("qQq3", "pPp1", EdgeType::Blocks)],
    );
    g.nodes[2].updated_at = at(5);
    let ready: Vec<String> = ready_nodes(&g).into_iter().map(|r| r.id).collect();
    assert_eq!(ready, strings(&["qQq3"]));
    g.nodes[2].state = State::Integrated;
    let ready: Vec<String> = ready_nodes(&g).into_iter().map(|r| r.id).collect();
    assert_eq!(ready, strings(&["pPp1", "cCc2", "gGg4"]));
}

#[test]
fn therapy_surfaces_stale_and_shadowed_nodes() {
    let mut g = family();
    g.nodes[0].state = State::Claimed;
    g.nodes[0].updated_at = at(1_000_000);
    g.nodes[1].state = State::Claimed;
    g.nodes[1].updated_at = at(1_000_000 + 86_000);
    g.nodes[2].shadowed = true;
    let out = therapy_nodes(&g, at(1_000_000 + 90_000));
    assert_eq!(out.len(), 2);
    assert_eq!(out[0].id, "a");
    assert_eq!(out[0].reason, TherapyReason::Stale);
    assert_eq!(out[0].reason.text(), "stale (claimed > 24h)");
    assert_eq!(out[1].id, "c");
    assert_eq!(out[1].reason.text(), "shadowed");
}

#[test]
fn parts_shows_claimed_nodes_by_agent() {
    let mut g = family();
    for (i, part) in [(0, "bob"), (1, "alice"), (3, "bob")] {
        g.nodes[i].state = State::Claimed;
        g.nodes[i].part = Some(part.to_string());
    }
    let parts = parts_summary(&g);
    assert_eq!(parts.len(), 2);
    assert_eq!((parts[0].part.as_str(), parts[0].ids.as_str(), parts[0].count), ("alice", "b", 1));
    assert_eq!((parts[1].part.as_str(), parts[1].ids.as_str(), parts[1].count), ("bob", "a, d", 2));
}

#[test]
fn parts_empty_when_nothing_claimed() {
    assert!(parts_summary(&family()).is_empty());
}

#[test]
fn duplicate_ids_are_refused() {
    let g = graph(vec![node("a", None, State::Latent), node("a", None, State::Ready)], vec![]);
    assert!(matches!(materialize(&g), Err(CxError::DuplicateNodeId(id)) if id == "a"));
    assert!(materialize(&family()).is_ok());
}

// ── trees ─────────────────────────────────────────────────────────────────────

#[test]
fn tree_json_is_hierarchical() {
    let mut g = family();
    g.nodes.swap(1, 3);
    let roots = g.roots();
    let forest = build_forest(&g, &roots, None);
    assert_eq!(forest.len(), 2);
    assert_eq!(forest[0].node.id, "a");
    let kids: Vec<&str> = forest[0].children.iter().map(|t| t.node.id.as_str()).collect();
    assert_eq!(kids, vec!["b", "d"]);
    assert_eq!(forest[0].children[0].children[0].node.id, "c");
    assert!(forest[1].children.is_empty());
}

#[test]
fn tag_tree_filter() {
    let mut g = family();
    g.nodes[2].tags = strings(&["deep"]);
    let roots = g.roots();
    let forest = build_forest(&g, &roots, Some("deep"));
    assert_eq!(forest.len(), 1);
    assert_eq!(forest[0].children.len(), 1);
    assert_eq!(forest[0].children[0].node.id, "b");
    assert_eq!(forest[0].children[0].children[0].effective_tags, strings(&["deep"]));
}

#[test]
fn tree_labels_and_order() {
    assert_eq!(leaf_label("a.b.c", 2), "c");
    assert_eq!(leaf_label("a.b.c", 0), "a.b.c");
    assert_eq!(leaf_label("abcd", 1), "abcd");
    let g = graph(vec![node("b", None, State::Latent), node("a", None, State::Latent)], vec![]);
    assert_eq!(ids(&sorted_by_id(&g)), strings(&["a", "b"]));
}
