# cargo-arc

Dependency analysis of a Cargo workspace: which crates take part (feature
filtering), how `use` paths and qualified paths resolve to workspace modules,
the dependency graph of crates and modules, its cycles, and the order in which
the graph is laid out. The library under `src/` is written in Verus; every
public function carries a contract that Verus proves.

Layout:

- `src/strings.rs`, `src/order.rs` — character-level helpers and the orders on
  names and paths.
- `src/model.rs` — crates, modules, dependency references and their keys.
- `src/use_parser.rs`, `src/module_walk.rs` — use-path resolution and the rules
  of the module walk (module paths, exports, merging).
- `src/filtering.rs`, `src/workspace.rs`, `src/externals.rs` — which crates are
  analysed, their dependencies, and the external crates they use.
- `src/graph.rs` — the dependency graph (petgraph underneath).
- `src/layout.rs` — cycle detection, the layout order and the layout items.
- `src/js_registry.rs` — annotations and load order of the embedded
  JavaScript modules.
- `src/cli.rs` — command-line options and the cycle report.
- `app/main.rs` — the `cargo arc` program: reads cargo metadata and source
  files, calls the library, writes the result.
- `tests/` — tests of the library.
