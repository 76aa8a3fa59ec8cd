use cargo_arc::model::{
    normalize_crate_name, CrateExportMap, DependencyKind, EdgeContext, ModulePathMap, TestKind, WorkspaceCrates,
};
use cargo_arc::use_parser::{
    find_longest_module_prefix, parse_bare_module_import, parse_path_ref_dependencies, resolve_relative_path,
    resolve_use_tree, parse_workspace_dependencies, ResolutionContext, UseItem, UseTree,
};

/// Empty workspace, module paths and exports for contexts that need none.
struct Defaults {
    ws: WorkspaceCrates,
    mp: ModulePathMap,
    exports: CrateExportMap,
}

impl Defaults {
    fn new() -> Self {
        Defaults {
            ws: WorkspaceCrates::new(),
            mp: ModulePathMap::from_entries(vec![]),
            exports: CrateExportMap::from_entries(vec![]),
        }
    }
}

struct ResolutionContextBuilder<'a> {
    current_crate: &'a str,
    workspace_crates: &'a WorkspaceCrates,
    source_file: &'a str,
    all_module_paths: &'a ModulePathMap,
    crate_exports: &'a CrateExportMap,
    current_module_path: &'a str,
}

impl<'a> ResolutionContextBuilder<'a> {
    fn new(source_file: &'a str, defaults: &'a Defaults) -> Self {
        Self {
            current_crate: "my_crate",
            workspace_crates: &defaults.ws,
            source_file,
            all_module_paths: &defaults.mp,
            crate_exports: &defaults.exports,
            current_module_path: "",
        }
    }

    fn workspace_crates(mut self, ws: &'a WorkspaceCrates) -> Self {
        self.workspace_crates = ws;
        self
    }

    fn module_paths(mut self, mp: &'a ModulePathMap) -> Self {
        self.all_module_paths = mp;
        self
    }

    fn crate_exports(mut self, exports: &'a CrateExportMap) -> Self {
        self.crate_exports = exports;
        self
    }

    fn current_module_path(mut self, path: &'a str) -> Self {
        self.current_module_path = path;
        self
    }

    fn build(self) -> ResolutionContext<'a> {
        ResolutionContext {
            current_crate: self.current_crate,
            workspace_crates: self.workspace_crates,
            source_file: self.source_file,
            all_module_paths: self.all_module_paths,
            crate_exports: self.crate_exports,
            current_module_path: self.current_module_path,
        }
    }
}

fn strings(v: &[&str]) -> Vec<String> {
    v.iter().map(|s| s.to_string()).collect()
}

fn module_paths(krate: &str, paths: &[&str]) -> ModulePathMap {
    ModulePathMap::from_entries(vec![(krate.to_string(), strings(paths))])
}

fn ws(names: &[&str]) -> WorkspaceCrates {
    WorkspaceCrates::from_names(strings(names))
}

// ---------------------------------------------------------------------------
// normalize and longest prefix
// ---------------------------------------------------------------------------

#[test]
fn use_parser_test_normalize_crate_name() {
    assert_eq!(normalize_crate_name("my-lib"), "my_lib");
    assert_eq!(normalize_crate_name("already_valid"), "already_valid");
    assert_eq!(normalize_crate_name("a-b-c"), "a_b_c");
}

#[test]
fn tests_test_normalize_crate_name() {
    assert_eq!(normalize_crate_name("my-lib"), "my_lib");
    assert_eq!(normalize_crate_name("already_valid"), "already_valid");
    assert_eq!(normalize_crate_name("a-b-c"), "a_b_c");
}

fn check_longest_submodule() {
    let paths = strings(&["analyze", "analyze::use_parser"]);
    let (prefix, len) = find_longest_module_prefix(&strings(&["analyze", "use_parser", "normalize"]), &paths);
    assert_eq!(prefix, "analyze::use_parser");
    assert_eq!(len, 2);
}

fn check_longest_parent_only() {
    let paths = strings(&["analyze"]);
    let (prefix, len) = find_longest_module_prefix(&strings(&["analyze", "SomeItem"]), &paths);
    assert_eq!(prefix, "analyze");
    assert_eq!(len, 1);
}

fn check_longest_no_match() {
    let paths = strings(&["analyze"]);
    let (prefix, len) = find_longest_module_prefix(&strings(&["unknown", "item"]), &paths);
    assert_eq!(prefix, "unknown");
    assert_eq!(len, 1);
}

fn check_longest_single_segment() {
    let paths = strings(&["graph"]);
    let (prefix, len) = find_longest_module_prefix(&strings(&["graph"]), &paths);
    assert_eq!(prefix, "graph");
    assert_eq!(len, 1);
}

fn check_longest_empty_module_paths() {
    let paths: Vec<String> = Vec::new();
    let (prefix, len) = find_longest_module_prefix(&strings(&["analyze", "foo"]), &paths);
    assert_eq!(prefix, "analyze");
    assert_eq!(len, 1);
}

#[test]
fn use_parser_test_find_longest_prefix_submodule() {
    check_longest_submodule();
}

#[test]
fn tests_test_find_longest_prefix_submodule() {
    check_longest_submodule();
}

#[test]
fn use_parser_test_find_longest_prefix_parent_only() {
    check_longest_parent_only();
}

#[test]
fn tests_test_find_longest_prefix_parent_only() {
    check_longest_parent_only();
}

#[test]
fn use_parser_test_find_longest_prefix_no_match() {
    check_longest_no_match();
}

#[test]
fn tests_test_find_longest_prefix_no_match() {
    check_longest_no_match();
}

#[test]
fn use_parser_test_find_longest_prefix_single_segment() {
    check_longest_single_segment();
}

#[test]
fn tests_test_find_longest_prefix_single_segment() {
    check_longest_single_segment();
}

#[test]
fn use_parser_test_find_longest_prefix_empty_module_paths() {
    check_longest_empty_module_paths();
}

#[test]
fn tests_test_find_longest_prefix_empty_module_paths() {
    check_longest_empty_module_paths();
}

// ---------------------------------------------------------------------------
// bare module imports
// ---------------------------------------------------------------------------

fn check_bare_module_simple() {
    let d = Defaults::new();
    let mp = module_paths("my_crate", &["cli"]);
    let ctx = ResolutionContextBuilder::new("src/lib.rs", &d).module_paths(&mp).build();
    let dep = parse_bare_module_import(&ctx, "cli::Args", 1, &EdgeContext::production());
    let dep = dep.expect("should parse bare module import");
    assert_eq!(dep.target_crate, "my_crate");
    assert_eq!(dep.target_module, "cli");
    assert_eq!(dep.target_item, Some("Args".to_string()));
}

fn check_bare_module_no_match() {
    let d = Defaults::new();
    let mp = module_paths("my_crate", &["cli"]);
    let ctx = ResolutionContextBuilder::new("src/lib.rs", &d).module_paths(&mp).build();
    let dep = parse_bare_module_import(&ctx, "serde::Serialize", 1, &EdgeContext::production());
    assert!(dep.is_none(), "external crate should not match");
}

fn check_bare_module_deep_path() {
    let d = Defaults::new();
    let mp = module_paths("my_crate", &["analyze", "analyze::use_parser"]);
    let ctx = ResolutionContextBuilder::new("src/lib.rs", &d).module_paths(&mp).build();
    let dep = parse_bare_module_import(&ctx, "analyze::use_parser::normalize", 1, &EdgeContext::production());
    let dep = dep.expect("should parse deep bare module import");
    assert_eq!(dep.target_crate, "my_crate");
    assert_eq!(dep.target_module, "analyze::use_parser");
    assert_eq!(dep.target_item, Some("normalize".to_string()));
}

fn check_bare_module_module_only() {
    let d = Defaults::new();
    let mp = module_paths("my_crate", &["cli"]);
    let ctx = ResolutionContextBuilder::new("src/lib.rs", &d).module_paths(&mp).build();
    let dep = parse_bare_module_import(&ctx, "cli", 1, &EdgeContext::production());
    let dep = dep.expect("should parse module-only bare import");
    assert_eq!(dep.target_crate, "my_crate");
    assert_eq!(dep.target_module, "cli");
    assert!(dep.target_item.is_none());
}

#[test]
fn use_parser_test_bare_module_simple() {
    check_bare_module_simple();
}

#[test]
fn tests_test_bare_module_simple() {
    check_bare_module_simple();
}

#[test]
fn use_parser_test_bare_module_no_match() {
    check_bare_module_no_match();
}

#[test]
fn tests_test_bare_module_no_match() {
    check_bare_module_no_match();
}

#[test]
fn use_parser_test_bare_module_deep_path() {
    check_bare_module_deep_path();
}

#[test]
fn tests_test_bare_module_deep_path() {
    check_bare_module_deep_path();
}

#[test]
fn use_parser_test_bare_module_module_only() {
    check_bare_module_module_only();
}

#[test]
fn tests_test_bare_module_module_only() {
    check_bare_module_module_only();
}

#[test]
fn test_bare_module_child_resolution() {
    let d = Defaults::new();
    let mp = module_paths("my_crate", &["render", "render::css"]);
    let ctx = ResolutionContextBuilder::new("src/render/mod.rs", &d)
        .module_paths(&mp)
        .current_module_path("render")
        .build();
    let dep = parse_bare_module_import(&ctx, "css::render_styles", 1, &EdgeContext::production());
    let dep = dep.expect("should resolve child module");
    assert_eq!(dep.target_crate, "my_crate");
    assert_eq!(dep.target_module, "render::css");
    assert_eq!(dep.target_item, Some("render_styles".to_string()));
}

#[test]
fn test_bare_module_root_still_works() {
    let d = Defaults::new();
    let mp = module_paths("my_crate", &["cli"]);
    let ctx = ResolutionContextBuilder::new("src/lib.rs", &d).module_paths(&mp).build();
    let dep = parse_bare_module_import(&ctx, "cli::Args", 1, &EdgeContext::production());
    let dep = dep.expect("should parse bare module from root");
    assert_eq!(dep.target_module, "cli");
    assert_eq!(dep.target_item, Some("Args".to_string()));
}

#[test]
fn test_bare_module_deeply_nested() {
    let d = Defaults::new();
    let mp = module_paths("my_crate", &["a", "a::b", "a::b::sub"]);
    let ctx = ResolutionContextBuilder::new("src/a/b/mod.rs", &d)
        .module_paths(&mp)
        .current_module_path("a::b")
        .build();
    let dep = parse_bare_module_import(&ctx, "sub::Item", 1, &EdgeContext::production());
    let dep = dep.expect("should resolve deeply nested child");
    assert_eq!(dep.target_module, "a::b::sub");
    assert_eq!(dep.target_item, Some("Item".to_string()));
}

// ---------------------------------------------------------------------------
// path references
// ---------------------------------------------------------------------------

fn check_path_refs_workspace_crate() {
    let d = Defaults::new();
    let w = ws(&["other_crate"]);
    let mp = module_paths("other_crate", &["module"]);
    let paths = vec![("other_crate::module::item".to_string(), 5, EdgeContext::production(), 0)];
    let ctx = ResolutionContextBuilder::new("src/main.rs", &d).workspace_crates(&w).module_paths(&mp).build();
    let deps = parse_path_ref_dependencies(&paths, &ctx);
    assert_eq!(deps.len(), 1, "should resolve workspace crate path: {deps:?}");
    assert_eq!(deps[0].target_crate, "other_crate");
    assert_eq!(deps[0].target_module, "module");
    assert_eq!(deps[0].target_item, Some("item".to_string()));
    assert_eq!(deps[0].line, 5);
}

fn check_path_refs_crate_local() {
    let d = Defaults::new();
    let mp = module_paths("my_crate", &["module"]);
    let paths = vec![("crate::module::item".to_string(), 3, EdgeContext::production(), 0)];
    let ctx = ResolutionContextBuilder::new("src/main.rs", &d).module_paths(&mp).build();
    let deps = parse_path_ref_dependencies(&paths, &ctx);
    assert_eq!(deps.len(), 1, "should resolve crate-local path: {deps:?}");
    assert_eq!(deps[0].target_crate, "my_crate");
    assert_eq!(deps[0].target_module, "module");
    assert_eq!(deps[0].target_item, Some("item".to_string()));
}

fn check_path_refs_bare_module() {
    let d = Defaults::new();
    let mp = module_paths("my_crate", &["cli"]);
    let paths = vec![("cli::Args".to_string(), 1, EdgeContext::production(), 0)];
    let ctx = ResolutionContextBuilder::new("src/lib.rs", &d).module_paths(&mp).build();
    let deps = parse_path_ref_dependencies(&paths, &ctx);
    assert_eq!(deps.len(), 1, "should resolve bare module path: {deps:?}");
    assert_eq!(deps[0].target_crate, "my_crate");
    assert_eq!(deps[0].target_module, "cli");
    assert_eq!(deps[0].target_item, Some("Args".to_string()));
}

fn check_path_refs_unknown_skipped() {
    let d = Defaults::new();
    let paths = vec![
        ("std::io::Read".to_string(), 1, EdgeContext::production(), 0),
        ("anyhow::Result".to_string(), 2, EdgeContext::production(), 0),
        ("serde::Serialize".to_string(), 3, EdgeContext::production(), 0),
    ];
    let ctx = ResolutionContextBuilder::new("src/lib.rs", &d).build();
    let deps = parse_path_ref_dependencies(&paths, &ctx);
    assert!(deps.is_empty(), "unknown paths should be skipped: {deps:?}");
}

fn check_path_refs_entry_point() {
    let d = Defaults::new();
    let w = ws(&["other_crate"]);
    let exports = CrateExportMap::from_entries(vec![("other_crate".to_string(), strings(&["MyStruct"]))]);
    let paths = vec![("other_crate::MyStruct".to_string(), 7, EdgeContext::production(), 0)];
    let ctx = ResolutionContextBuilder::new("src/main.rs", &d).workspace_crates(&w).crate_exports(&exports).build();
    let deps = parse_path_ref_dependencies(&paths, &ctx);
    assert_eq!(deps.len(), 1, "should resolve entry-point path: {deps:?}");
    assert_eq!(deps[0].target_crate, "other_crate");
    assert_eq!(deps[0].target_module, "");
    assert_eq!(deps[0].target_item, Some("MyStruct".to_string()));
}

fn check_path_refs_dedup() {
    let d = Defaults::new();
    let w = ws(&["other_crate"]);
    let mp = module_paths("other_crate", &["module"]);
    let paths = vec![
        ("other_crate::module::item".to_string(), 5, EdgeContext::production(), 0),
        ("other_crate::module::item".to_string(), 10, EdgeContext::production(), 0),
    ];
    let ctx = ResolutionContextBuilder::new("src/main.rs", &d).workspace_crates(&w).module_paths(&mp).build();
    let deps = parse_path_ref_dependencies(&paths, &ctx);
    assert_eq!(deps.len(), 1, "duplicate paths should be deduped: {deps:?}");
}

fn check_same_target_different_context() {
    let d = Defaults::new();
    let w = ws(&["other_crate"]);
    let mp = module_paths("other_crate", &["module"]);
    let paths = vec![
        ("other_crate::module::item".to_string(), 5, EdgeContext::production(), 0),
        ("other_crate::module::item".to_string(), 10, EdgeContext::test(TestKind::Unit), 0),
    ];
    let ctx = ResolutionContextBuilder::new("src/main.rs", &d).workspace_crates(&w).module_paths(&mp).build();
    let deps = parse_path_ref_dependencies(&paths, &ctx);
    assert_eq!(deps.len(), 2, "prod + test on same target must not be deduped: {deps:?}");
    assert!(deps.iter().any(|d| d.context == EdgeContext::production()));
    assert!(deps.iter().any(|d| d.context == EdgeContext::test(TestKind::Unit)));
}

fn check_same_target_same_context() {
    let d = Defaults::new();
    let w = ws(&["other_crate"]);
    let mp = module_paths("other_crate", &["module"]);
    let paths = vec![
        ("other_crate::module::item".to_string(), 5, EdgeContext::production(), 0),
        ("other_crate::module::item".to_string(), 10, EdgeContext::production(), 0),
    ];
    let ctx = ResolutionContextBuilder::new("src/main.rs", &d).workspace_crates(&w).module_paths(&mp).build();
    let deps = parse_path_ref_dependencies(&paths, &ctx);
    assert_eq!(deps.len(), 1, "same context same target should still dedup: {deps:?}");
}

#[test]
fn use_parser_test_parse_path_refs_workspace_crate() {
    check_path_refs_workspace_crate();
}

#[test]
fn tests_test_parse_path_refs_workspace_crate() {
    check_path_refs_workspace_crate();
}

#[test]
fn use_parser_test_parse_path_refs_crate_local() {
    check_path_refs_crate_local();
}

#[test]
fn tests_test_parse_path_refs_crate_local() {
    check_path_refs_crate_local();
}

#[test]
fn use_parser_test_parse_path_refs_bare_module() {
    check_path_refs_bare_module();
}

#[test]
fn tests_test_parse_path_refs_bare_module() {
    check_path_refs_bare_module();
}

#[test]
fn use_parser_test_parse_path_refs_unknown_skipped() {
    check_path_refs_unknown_skipped();
}

#[test]
fn tests_test_parse_path_refs_unknown_skipped() {
    check_path_refs_unknown_skipped();
}

#[test]
fn use_parser_test_parse_path_refs_entry_point() {
    check_path_refs_entry_point();
}

#[test]
fn tests_test_parse_path_refs_entry_point() {
    check_path_refs_entry_point();
}

#[test]
fn use_parser_test_parse_path_refs_dedup() {
    check_path_refs_dedup();
}

#[test]
fn tests_test_parse_path_refs_dedup() {
    check_path_refs_dedup();
}

#[test]
fn use_parser_test_same_target_different_context_not_deduped_path_ref() {
    check_same_target_different_context();
}

#[test]
fn tests_test_same_target_different_context_not_deduped_path_ref() {
    check_same_target_different_context();
}

#[test]
fn use_parser_test_same_target_same_context_still_deduped() {
    check_same_target_same_context();
}

#[test]
fn tests_test_same_target_same_context_still_deduped() {
    check_same_target_same_context();
}

#[test]
fn test_dedup_merges_features_path_ref() {
    let d = Defaults::new();
    let w = ws(&["other_crate"]);
    let mp = module_paths("other_crate", &["module"]);
    let paths = vec![
        (
            "other_crate::module::item".to_string(),
            5,
            EdgeContext { kind: DependencyKind::Production, features: vec!["feat-a".into()] },
            0,
        ),
        (
            "other_crate::module::item".to_string(),
            10,
            EdgeContext { kind: DependencyKind::Production, features: vec!["feat-b".into()] },
            0,
        ),
    ];
    let ctx = ResolutionContextBuilder::new("src/main.rs", &d).workspace_crates(&w).module_paths(&mp).build();
    let deps = parse_path_ref_dependencies(&paths, &ctx);
    assert_eq!(deps.len(), 1, "same target+kind should dedup to one: {deps:?}");
    let mut features = deps[0].context.features.clone();
    features.sort();
    assert_eq!(features, vec!["feat-a".to_string(), "feat-b".to_string()], "features should be merged: {features:?}");
}

// ---------------------------------------------------------------------------
// relative paths
// ---------------------------------------------------------------------------

#[test]
fn test_super_basic() {
    assert_eq!(resolve_relative_path("super::foo", "a::b", 0), Some("a::foo".to_string()));
}

#[test]
fn test_super_from_root() {
    assert_eq!(resolve_relative_path("super::foo", "", 0), None);
}

#[test]
fn test_super_super() {
    assert_eq!(resolve_relative_path("super::super::foo", "a::b::c", 0), Some("a::foo".to_string()));
}

#[test]
fn test_super_too_many() {
    assert_eq!(resolve_relative_path("super::super::foo", "a", 0), None);
}

#[test]
fn test_self_basic() {
    assert_eq!(resolve_relative_path("self::child", "render", 0), Some("render::child".to_string()));
}

#[test]
fn test_self_from_root() {
    assert_eq!(resolve_relative_path("self::foo", "", 0), Some("foo".to_string()));
}

#[test]
fn test_super_inside_inline_mod_ignored() {
    assert_eq!(resolve_relative_path("super::*", "analyze::filtering", 1), None);
}

#[test]
fn test_super_super_from_inline_mod() {
    assert_eq!(
        resolve_relative_path("super::super::sibling", "analyze::filtering", 1),
        Some("analyze::sibling".to_string())
    );
}

#[test]
fn test_self_inside_inline_mod_ignored() {
    assert_eq!(resolve_relative_path("self::helper", "analyze::filtering", 1), None);
}

// ---------------------------------------------------------------------------
// use trees and use items
// ---------------------------------------------------------------------------

fn path(seg: &str, tree: UseTree) -> UseTree {
    UseTree::Path(seg.to_string(), Box::new(tree))
}

fn name(n: &str) -> UseTree {
    UseTree::Name(n.to_string())
}

#[test]
fn use_tree_paths_of_group_rename_and_glob() {
    // use a::{b::{C, D as E}, f::*};
    let tree = path(
        "a",
        UseTree::Group(vec![
            path("b", UseTree::Group(vec![name("C"), UseTree::Rename("D".to_string(), "E".to_string())])),
            path("f", UseTree::Glob),
        ]),
    );
    assert_eq!(resolve_use_tree(&tree, ""), strings(&["a::b::C", "a::b::D", "a::f::*"]));
    assert_eq!(resolve_use_tree(&name("Baz"), "foo::bar"), strings(&["foo::bar::Baz"]));
    assert_eq!(resolve_use_tree(&UseTree::Glob, ""), strings(&["*"]));
}

#[test]
fn use_items_resolve_and_dedup_across_items() {
    let d = Defaults::new();
    let mp = module_paths("my_crate", &["cli", "graph"]);
    let uses = vec![
        (UseItem { tree: path("crate", path("graph", UseTree::Group(vec![name("Node"), name("Edge")]))), line: 1 }, EdgeContext::production(), 0),
        (UseItem { tree: path("cli", name("Args")), line: 2 }, EdgeContext::production(), 0),
        (UseItem { tree: path("crate", path("graph", name("Node"))), line: 3 }, EdgeContext::production(), 0),
        (UseItem { tree: path("serde", name("Serialize")), line: 4 }, EdgeContext::production(), 0),
    ];
    let ctx = ResolutionContextBuilder::new("src/lib.rs", &d).module_paths(&mp).build();
    let deps = parse_workspace_dependencies(&uses, &ctx);
    let targets: Vec<String> = deps.iter().map(|d| d.full_target()).collect();
    assert_eq!(targets, strings(&["my_crate::graph::Node", "my_crate::graph::Edge", "my_crate::cli::Args"]));
    assert_eq!(deps[0].line, 1);
}
