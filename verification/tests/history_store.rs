use complex::history::{
    comment_diff_from, node_created_from, node_modified_from,
    body_summary, classify_path, diff_comments, diff_node_fields, display_field, extract_id,
    first_line, log_entries, node_created, node_modified, parse_diff_tree_line,
    route_path, step_for, CommentChange, FieldValue, FileKind, Step,
};
use complex::model::{Edge, EdgeType, Graph, Node, OutgoingEdge, State};
use complex::store::{
    archive_node, archived_ids, check_unarchive, edge_listed, find_orphan_bodies, gitignore_lists,
    legacy_parent, live_in, load_edges, outgoing_for_save, scrub_archived_edges, scrub_edge_list,
    take_archived_line, unarchive_node, RawEdge, absorb_legacy_edge, legacy_edge, legacy_line_ids,
    raw_edges_of, scrub_node_text, split_lines,
};
use complex::ops::CxError;
use complex::text::{sort_strings, split_list, str_lt};

fn json(s: &str) -> serde_json::Value {
    serde_json::from_str(s).unwrap()
}

fn strings(v: &[&str]) -> Vec<String> {
    v.iter().map(|s| s.to_string()).collect()
}

fn node(id: &str) -> Node {
    Node::new(id.to_string(), format!("title {}", id))
}

// ── history ───────────────────────────────────────────────────────────────────

#[test]
fn extract_id_strips_directory_and_suffix() {
    assert_eq!(extract_id(".complex/nodes/lnIl.json", ".json"), "lnIl");
    assert_eq!(extract_id("x/issues/ab.comments.json", ".comments.json"), "ab");
    assert_eq!(extract_id("plain.json", ".json"), "plain");
    assert_eq!(extract_id(".complex/nodes/lnIl.txt", ".json"), "?");
}

#[test]
fn paths_are_routed_in_order() {
    assert_eq!(classify_path(".complex/nodes/a.json"), FileKind::Node);
    assert_eq!(classify_path(".complex/archive/nodes/a.json"), FileKind::Node);
    assert_eq!(classify_path(".complex/issues/a.comments.json"), FileKind::Comments);
    assert_eq!(classify_path(".complex/issues/a.md"), FileKind::Body);
    assert_eq!(classify_path(".complex/events.jsonl"), FileKind::Other);
    let (k, id) = route_path(".complex/issues/Qd4e.comments.json").unwrap();
    assert_eq!((k, id.as_str()), (FileKind::Comments, "Qd4e"));
    assert!(route_path("README.md").is_none());
}

#[test]
fn diff_tree_lines_give_status_and_path() {
    let line = ":100644 100644 0123abc 4567def M\t.complex/nodes/x.json";
    let (status, path) = parse_diff_tree_line(line).unwrap();
    assert_eq!(status, 'M');
    assert_eq!(path, ".complex/nodes/x.json");
    assert_eq!(parse_diff_tree_line("A  \tp").unwrap(), ('A', "p".to_string()));
    assert_eq!(parse_diff_tree_line("   \tp").unwrap(), ('?', "p".to_string()));
    assert!(parse_diff_tree_line("no tab here").is_none());
}

#[test]
fn step_depends_on_kind_and_status() {
    assert_eq!(step_for(FileKind::Node, 'A'), Step::NodeCreated);
    assert_eq!(step_for(FileKind::Node, 'T'), Step::NodeModified);
    assert_eq!(step_for(FileKind::ArchivedNode, 'D'), Step::Unarchived);
    assert_eq!(step_for(FileKind::Body, 'M'), Step::BodyEdited);
    assert_eq!(step_for(FileKind::Body, 'T'), Step::Skip);
    assert_eq!(step_for(FileKind::Comments, 'A'), Step::Comments { read_before: false, read_after: true });
    assert_eq!(step_for(FileKind::Other, 'A'), Step::Skip);
}

#[test]
fn first_line_skips_blank_lines_and_trims() {
    assert_eq!(first_line("\n  \r\n   hello world  \r\nsecond"), "hello world");
    assert_eq!(first_line(""), "");
    assert_eq!(first_line(" \n\t\n"), "");
}

#[test]
fn first_line_cuts_long_lines() {
    let long = "a".repeat(100);
    assert_eq!(first_line(&long), format!("{}...", "a".repeat(77)));
    let exact = "b".repeat(80);
    assert_eq!(first_line(&exact), exact);
    let wide = format!("{}é{}", "a".repeat(76), "a".repeat(10));
    assert_eq!(first_line(&wide), format!("{}...", "a".repeat(76)));
    let fine = format!("{}é{}", "a".repeat(75), "a".repeat(10));
    assert_eq!(first_line(&fine), format!("{}é...", "a".repeat(75)));
}

#[test]
fn log_lines_give_commits() {
    let out = "h1\u{0}2024-01-01T00:00:00+00:00\u{0}first\n\nbroken line\nh2\u{0}d2\u{0}sub\u{0}ject\r\n";
    let commits = log_entries(out);
    assert_eq!(commits.len(), 2);
    assert_eq!(commits[0], ("h1".to_string(), "2024-01-01T00:00:00+00:00".to_string(), "first".to_string()));
    assert_eq!(commits[1], ("h2".to_string(), "d2".to_string(), "sub\u{0}ject".to_string()));
    assert!(log_entries("").is_empty());
}

#[test]
fn fields_are_displayed_for_humans() {
    assert_eq!(display_field(&json("null")), "\u{2205}");
    assert_eq!(display_field(&json("\"ready\"")), "ready");
    assert_eq!(display_field(&json("true")), "true");
    assert_eq!(display_field(&json("false")), "false");
    assert_eq!(display_field(&json("3")), "3");
    assert_eq!(display_field(&json("[1,\"x\"]")), "[1,\"x\"]");
}

#[test]
fn node_field_changes() {
    let before = json(r#"{"state":"latent","title":"T","tags":["a"],"edges":[]}"#);
    let after = json(r#"{"state":"ready","title":"T","part":"p","tags":["a","b"],"edges":[]}"#);
    let fields = diff_node_fields(&before, &after);
    assert_eq!(fields.len(), 2);
    assert_eq!(fields[0].key, "state");
    assert!(matches!(&fields[0].from, FieldValue::Shown(s) if s == "latent"));
    assert!(matches!(&fields[0].to, FieldValue::Shown(s) if s == "ready"));
    assert_eq!(fields[1].key, "part");
    assert!(matches!(&fields[1].from, FieldValue::Shown(s) if s == "\u{2205}"));

    let tags_only = json(r#"{"state":"latent","title":"T","tags":["a","b"],"edges":[]}"#);
    let fields = diff_node_fields(&before, &tags_only);
    assert_eq!(fields.len(), 1);
    assert_eq!(fields[0].key, "tags");
    assert!(matches!(&fields[0].to, FieldValue::Raw(v) if *v == json(r#"["a","b"]"#)));

    assert!(node_modified(&before, &before).is_none());
    let m = node_modified(&before, &tags_only).unwrap();
    assert_eq!(m.tags, Some(json(r#"["a","b"]"#)));
}

#[test]
fn created_nodes_default_title_and_state() {
    let c = node_created(&json(r#"{"id":"x","tags":[]}"#));
    assert_eq!((c.title.as_str(), c.state.as_str()), ("", "latent"));
    assert!(c.tags.is_none());
    let c = node_created(&json(r#"{"title":"T","state":"ready","tags":["q"]}"#));
    assert_eq!((c.title.as_str(), c.state.as_str()), ("T", "ready"));
    assert_eq!(c.tags, Some(json(r#"["q"]"#)));
}

#[test]
fn body_summary_trims_the_whole_text() {
    assert_eq!(body_summary("  line one\nline two \n").as_deref(), Some("line one\nline two"));
    assert!(body_summary(" \n ").is_none());
}

#[test]
fn comment_changes_are_matched_by_timestamp() {
    let before = vec![
        json(r#"{"timestamp":"t1","author":"a","body":"one"}"#),
        json(r#"{"timestamp":"t2","author":"a","body":"two"}"#),
    ];
    let after = vec![
        json(r#"{"timestamp":"t2","author":"a","body":"TWO"}"#),
        json(r#"{"timestamp":"t3","author":"b","tag":"review","body":"three"}"#),
    ];
    let changes = diff_comments(&before, &after);
    assert_eq!(changes.len(), 3);
    match &changes[0] {
        CommentChange::Added { author, tag, body } => {
            assert_eq!(author.as_deref(), Some("b"));
            assert_eq!(tag.as_deref(), Some("review"));
            assert_eq!(body.as_deref(), Some("three"));
        }
        _ => panic!("expected an added comment"),
    }
    assert!(matches!(&changes[1], CommentChange::Removed { timestamp } if timestamp == "t1"));
    assert!(matches!(&changes[2], CommentChange::Edited { timestamp, body } if timestamp == "t2" && body.as_deref() == Some("TWO")));
    assert!(diff_comments(&after, &after).is_empty());
}

#[test]
fn history_reads_node_and_comment_texts() {
    let c = node_created_from(r#"{"title":"T","state":"ready","tags":["q"]}"#).unwrap();
    assert_eq!((c.title.as_str(), c.state.as_str()), ("T", "ready"));
    assert!(node_created_from("not json").is_none());
    let m = node_modified_from(r#"{"title":"A"}"#, r#"{"title":"B"}"#).unwrap();
    assert_eq!(m.fields.len(), 1);
    assert_eq!(m.fields[0].key, "title");
    assert!(node_modified_from("{", r#"{"title":"B"}"#).is_none());
    assert!(node_modified_from(r#"{"title":"A"}"#, r#"{"title":"A"}"#).is_none());
    let after = r#"[{"timestamp":"t1","author":"a","body":"one"}]"#;
    let changes = comment_diff_from(None, Some(after));
    assert_eq!(changes.len(), 1);
    assert!(matches!(&changes[0], CommentChange::Added { body, .. } if body.as_deref() == Some("one")));
    let changes = comment_diff_from(Some(after), Some("{}"));
    assert!(matches!(&changes[0], CommentChange::Removed { timestamp } if timestamp == "t1"));
    assert!(comment_diff_from(Some("oops"), None).is_empty());
}

// ── loading, saving, archiving ────────────────────────────────────────────────

fn stored_graph() -> Graph {
    let mut a = node("a");
    a.outgoing_edges.push(OutgoingEdge { to: "b".into(), edge_type: EdgeType::Blocks });
    a.outgoing_edges.push(OutgoingEdge { to: "gone".into(), edge_type: EdgeType::Related });
    let mut b = node("b");
    b.outgoing_edges.push(OutgoingEdge { to: "a".into(), edge_type: EdgeType::Related });
    let mut g = Graph::default();
    g.nodes = vec![a, b];
    g
}

#[test]
fn loading_drops_dormant_edges() {
    let mut g = stored_graph();
    let edges = load_edges(&g.nodes);
    let seen: Vec<(String, String)> = edges.iter().map(|e| (e.from.clone(), e.to.clone())).collect();
    assert_eq!(seen, vec![("a".to_string(), "b".to_string()), ("b".to_string(), "a".to_string())]);
    assert!(live_in(&g.nodes, "b"));
    assert!(!live_in(&g.nodes, "gone"));
    g.edges = edges;
    let saved = outgoing_for_save(&g, 0);
    let targets: Vec<&str> = saved.iter().map(|o| o.to.as_str()).collect();
    assert_eq!(targets, vec!["b", "gone"]);
}

#[test]
fn save_then_load_gives_back_the_edges() {
    let mut g = stored_graph();
    g.edges = load_edges(&g.nodes);
    let mut reread: Vec<Node> = Vec::new();
    for i in 0..g.nodes.len() {
        let mut n = node(&g.nodes[i].id);
        n.outgoing_edges = outgoing_for_save(&g, i);
        reread.push(n);
    }
    let again = load_edges(&reread);
    let view = |v: &Vec<Edge>| {
        let mut x: Vec<(String, String, EdgeType)> = v.iter().map(|e| (e.from.clone(), e.to.clone(), e.edge_type)).collect();
        x.sort_by(|p, q| (p.0.clone(), p.1.clone()).cmp(&(q.0.clone(), q.1.clone())));
        x
    };
    assert_eq!(view(&again), view(&g.edges));
}

#[test]
fn archive_and_restore_a_node() {
    let mut g = stored_graph();
    g.edges = load_edges(&g.nodes);
    let archived = archive_node(&mut g, "a").unwrap();
    assert_eq!(archived.outgoing_edges.len(), 1);
    assert_eq!(g.nodes.len(), 1);
    assert!(g.edges.is_empty());
    assert!(check_unarchive(&g, "a").is_ok());
    assert!(matches!(check_unarchive(&g, "b"), Err(CxError::AlreadyLive(id)) if id == "b"));
    let incoming = vec![RawEdge { from: "b".into(), to: Some("a".into()), edge_type: json("\"related\"") }];
    unarchive_node(&mut g, archived, &incoming).unwrap();
    assert_eq!(g.nodes.len(), 2);
    assert_eq!(g.edges.len(), 2);
    assert_eq!((g.edges[0].from.as_str(), g.edges[0].to.as_str(), g.edges[0].edge_type), ("a", "b", EdgeType::Blocks));
    assert_eq!((g.edges[1].from.as_str(), g.edges[1].to.as_str(), g.edges[1].edge_type), ("b", "a", EdgeType::Related));
    assert_eq!(g.nodes[1].id, "a");
    assert_eq!(g.nodes[1].state, State::Integrated);
    assert!(matches!(archive_node(&mut g, "zz"), Err(CxError::NodeNotFound(id)) if id == "zz"));
}

#[test]
fn unknown_edge_types_are_refused() {
    let mut g = stored_graph();
    let a = archive_node(&mut g, "a").unwrap();
    let incoming = vec![RawEdge { from: "b".into(), to: Some("a".into()), edge_type: json("\"likes\"") }];
    assert!(matches!(unarchive_node(&mut g, a, &incoming), Err(CxError::UnknownEdgeType)));
    assert_eq!(g.nodes.len(), 1);
}

#[test]
fn scrubbing_removes_edges_into_the_node() {
    let targets = vec![Some("x".to_string()), None, Some("y".to_string()), Some("x".to_string())];
    assert_eq!(scrub_archived_edges(&targets, "x"), Some(vec![false, true, true, false]));
    assert_eq!(scrub_archived_edges(&targets, "z"), None);
}

#[test]
fn node_file_texts_are_scrubbed_and_read() {
    let text = r#"{"id":"a","title":"T","edges":[{"to":"x","type":"blocks"},{"to":"b","type":"related"}]}"#;
    let out = scrub_node_text(text, "x").unwrap().unwrap();
    let v = json(&out);
    assert_eq!(v["title"], "T");
    assert_eq!(v["edges"], json(r#"[{"to":"b","type":"related"}]"#));
    assert_eq!(scrub_node_text(&out, "x").unwrap(), None);
    assert_eq!(scrub_node_text(r#"{"id":"a"}"#, "x").unwrap(), None);
    assert!(matches!(scrub_node_text("nope", "x"), Err(CxError::InvalidJson)));
    let raws = raw_edges_of(text).unwrap();
    assert_eq!(raws.len(), 2);
    assert_eq!((raws[1].from.as_str(), raws[1].to.as_deref()), ("a", Some("b")));
    assert_eq!(raws[1].edge_type, json("\"related\""));
    assert!(raw_edges_of(r#"{"id":"a"}"#).unwrap().is_empty());
    assert!(matches!(raw_edges_of("["), Err(CxError::InvalidJson)));
}

#[test]
fn legacy_archive_lines_and_edges_are_read() {
    let text = "{\"id\":\"a\"}\n\nnot json\n{\"title\":\"no id\"}\r\n{\"id\":\"b\"}\n";
    assert_eq!(split_lines(text).len(), 5);
    assert_eq!(legacy_line_ids(text), strings(&["a", "b"]));
    let (from, to, t) = legacy_edge(r#"{"from":"a","to":"b","type":"blocks"}"#).unwrap();
    assert_eq!((from.as_str(), to.as_str()), ("a", "b"));
    assert_eq!(t, json("\"blocks\""));
    assert!(legacy_edge("x").is_err());
    let node = r#"{"id":"a","edges":[{"to":"c","type":"related"}]}"#;
    let out = absorb_legacy_edge(node, "b", &t).unwrap().unwrap();
    assert_eq!(json(&out)["edges"], json(r#"[{"to":"c","type":"related"},{"to":"b","type":"blocks"}]"#));
    assert_eq!(absorb_legacy_edge(&out, "b", &t).unwrap(), None);
    let bare = absorb_legacy_edge(r#"{"id":"a"}"#, "b", &t).unwrap().unwrap();
    assert_eq!(json(&bare)["edges"], json(r#"[{"to":"b","type":"blocks"}]"#));
    assert!(absorb_legacy_edge("[1]", "b", &t).is_err());
}

#[test]
fn scrubbing_a_file_keeps_order_and_settles() {
    let edges = vec![
        json(r#"{"to":"x","type":"blocks"}"#),
        json(r#"{"to":"b","type":"related"}"#),
        json(r#"{"type":"related"}"#),
        json(r#"{"to":"x","type":"related"}"#),
        json(r#"{"to":"c","type":"blocks"}"#),
    ];
    let kept = scrub_edge_list(edges.clone(), "x").unwrap();
    assert_eq!(kept, vec![edges[1].clone(), edges[2].clone(), edges[4].clone()]);
    assert_eq!(scrub_edge_list(kept, "x"), None);
    assert_eq!(scrub_edge_list(edges, "zz"), None);
}

#[test]
fn therapy_detects_orphan_body_files() {
    let mut g = Graph::default();
    g.nodes = vec![node("a")];
    let names = strings(&["zz.md", "a.md", "b.md", "b.comments.json", "notes.txt"]);
    assert_eq!(find_orphan_bodies(&names, &g), strings(&["b", "zz"]));
}

#[test]
fn legacy_ids_imply_parents() {
    assert_eq!(legacy_parent("a.b.c").as_deref(), Some("a.b"));
    assert_eq!(legacy_parent("abc"), None);
}

#[test]
fn init_ephemeral_no_duplicate_in_gitignore() {
    assert!(gitignore_lists(".complex/\n", ".complex/"));
    assert!(gitignore_lists("target/\n.complex\n", ".complex/"));
    assert!(gitignore_lists("  .complex/  \r\nx", ".complex/"));
    assert!(!gitignore_lists("target/\n", ".complex/"));
    assert!(!gitignore_lists("", ".complex/"));
}

#[test]
fn archive_ids_from_files_and_legacy_lines() {
    let names = strings(&["a.json", ".json", "b.md", "c.d.json"]);
    assert_eq!(archived_ids(&names, &strings(&["old"])), strings(&["a", "c.d", "old"]));
}

#[test]
fn legacy_edges_are_not_added_twice() {
    let edges = vec![json(r#"{"to":"b","type":"blocks"}"#), json(r#"{"to":"c","type":"related"}"#)];
    assert!(edge_listed(&edges, "b", &json("\"blocks\"")));
    assert!(!edge_listed(&edges, "b", &json("\"related\"")));
    assert!(!edge_listed(&edges, "d", &json("\"blocks\"")));
}

#[test]
fn archived_line_is_taken_out() {
    let lines = strings(&["{a}", "  ", "{b}", "{c}"]);
    let parsed = vec![Some("a".to_string()), None, None, Some("c".to_string())];
    let (pos, rest) = take_archived_line(&lines, &parsed, "c").unwrap();
    assert_eq!(pos, 3);
    assert_eq!(rest, strings(&["{a}", "{b}"]));
    assert!(take_archived_line(&lines, &parsed, "b").is_none());
}

// ── text ──────────────────────────────────────────────────────────────────────

#[test]
fn comma_lists_are_split_and_trimmed() {
    assert_eq!(split_list(" a, b ,,c ,"), strings(&["a", "b", "c"]));
    assert!(split_list(" , ").is_empty());
}

#[test]
fn strings_sort_by_code_point() {
    assert_eq!(sort_strings(strings(&["b", "B", "a", "b"])), strings(&["B", "a", "b", "b"]));
    assert!(str_lt("abc", "abd"));
    assert!(str_lt("ab", "abc"));
    assert!(!str_lt("abc", "abc"));
}

#[test]
fn states_have_names() {
    assert_eq!(State::Claimed.name(), "claimed");
    assert_eq!(State::from_name("integrated"), Some(State::Integrated));
    assert_eq!(EdgeType::from_name("waits-for"), Some(EdgeType::WaitsFor));
    assert_eq!(EdgeType::DiscoveredFrom.name(), "discovered-from");
    assert_eq!(EdgeType::from_name("nope"), None);
}

#[test]
fn removed_edges_leave_graph_consistent() {
    let mut g = stored_graph();
    g.edges = load_edges(&g.nodes);
    g.edges.push(Edge { from: "b".into(), to: "b".into(), edge_type: EdgeType::Related });
    let b = archive_node(&mut g, "b").unwrap();
    assert_eq!(b.outgoing_edges.len(), 2);
    assert!(g.edges.is_empty());
}
