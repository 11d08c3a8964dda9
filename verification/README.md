# complex

A hierarchical issue tracker for agents: nodes move through
`latent → ready → claimed → integrated`, carry tags that flow down the
hierarchy, block one another along cycle-free `blocks` edges, and live as
one JSON file per node under `.complex/`.

## Layout

- `src/` — the library, verified with Verus.
  - `model.rs` — nodes, edges, the graph, and the hierarchy queries
    (children, ancestors, descendants, effective tags, cycle checks).
  - `ops.rs` — what each command checks and changes.
  - `db.rs` — the ready list, the therapy list and the parts summary.
  - `tree.rs` — the trees that `tree` and `status` print.
  - `store.rs` — what loading, saving, archiving and migrating do to the graph
    and to the texts of the node files (the files themselves are read,
    written and moved in `app/`).
  - `history.rs` — reading `git log` and `git diff-tree` output into node changes.
  - `id.rs`, `text.rs`, `clock.rs`, `json.rs` — IDs, strings, time and JSON.
  - `laws.rs` — properties that span several operations.
- `tests/` — tests of the library on concrete graphs.
- `app/` — the `cx` command line: argument parsing, files, git, printing.
