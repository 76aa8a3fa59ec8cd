use cargo_arc::model::{DependencyRef, EdgeContext, ModuleInfo, TestKind};
use cargo_arc::module_walk::{
    child_module_path, child_resolve_dir, collect_crate_exports, extract_mod_declarations, merge_module_dependencies,
    merge_root_module, module_full_path, ExportItem, ModItem,
};
use cargo_arc::use_parser::UseTree;

fn m(name: &str, inline: bool, cfg_test: bool, path_attr: Option<&str>) -> ModItem {
    ModItem { name: name.to_string(), inline, cfg_test, path_attr: path_attr.map(|s| s.to_string()) }
}

fn dep(target: &str, module: &str, item: Option<&str>, line: usize, context: EdgeContext) -> DependencyRef {
    DependencyRef {
        target_crate: target.to_string(),
        target_module: module.to_string(),
        target_item: item.map(|s| s.to_string()),
        source_file: "src/lib.rs".to_string(),
        line,
        context,
    }
}

fn module(name: &str, children: Vec<ModuleInfo>, dependencies: Vec<DependencyRef>) -> ModuleInfo {
    ModuleInfo { name: name.to_string(), full_path: format!("c::{name}"), children, dependencies }
}

#[test]
fn mod_declarations_skip_inline_and_test_modules() {
    let items = vec![m("a", false, false, None), m("tests", false, true, None), m("inline", true, false, None), m("b", false, false, Some("x/b.rs"))];
    let decls = extract_mod_declarations(&items, false);
    let names: Vec<(String, Option<String>)> = decls.iter().map(|d| (d.name.clone(), d.explicit_path.clone())).collect();
    assert_eq!(names, vec![("a".to_string(), None), ("b".to_string(), Some("x/b.rs".to_string()))]);
    let with_tests = extract_mod_declarations(&items, true);
    assert_eq!(with_tests.len(), 3);
    assert_eq!(with_tests[1].name, "tests");
}

#[test]
fn module_paths_of_roots_and_children() {
    assert_eq!(module_full_path("my_crate", "my_crate"), "my_crate");
    assert_eq!(module_full_path("my_crate", "graph"), "my_crate::graph");
    assert_eq!(module_full_path("my_crate::tests", "smoke"), "my_crate::tests::smoke");
    assert_eq!(child_module_path("", "analyze"), "analyze");
    assert_eq!(child_module_path("analyze", "hir"), "analyze::hir");
}

#[test]
fn child_modules_live_beside_dir_style_files() {
    assert_eq!(child_resolve_dir("/ws/core/src/lib.rs"), "/ws/core/src");
    assert_eq!(child_resolve_dir("src/main.rs"), "src");
    assert_eq!(child_resolve_dir("src/analyze/mod.rs"), "src/analyze");
    assert_eq!(child_resolve_dir("src/analyze.rs"), "src/analyze");
    assert_eq!(child_resolve_dir("graph.rs"), "graph");
    assert_eq!(child_resolve_dir("/x.rs"), "/x");
    assert_eq!(child_resolve_dir("src/.hidden"), "src/.hidden");
}

#[test]
fn exports_are_public_names_and_pub_use_leaves() {
    let items = vec![
        ExportItem::Named { public: true, name: "run".to_string() },
        ExportItem::Named { public: false, name: "helper".to_string() },
        ExportItem::Use {
            public: true,
            tree: UseTree::Path(
                "cli".to_string(),
                Box::new(UseTree::Group(vec![
                    UseTree::Name("Args".to_string()),
                    UseTree::Rename("Cargo".to_string(), "CargoCmd".to_string()),
                    UseTree::Glob,
                ])),
            ),
        },
        ExportItem::Use { public: false, tree: UseTree::Name("Hidden".to_string()) },
        ExportItem::Other,
    ];
    assert_eq!(collect_crate_exports(&items), vec!["run".to_string(), "Args".to_string(), "CargoCmd".to_string()]);
}

#[test]
fn path_dependencies_join_only_with_new_target_and_context() {
    let use_deps = vec![dep("c", "graph", Some("Node"), 1, EdgeContext::production())];
    let path_deps = vec![
        dep("c", "graph", Some("Node"), 7, EdgeContext::production()),
        dep("c", "graph", Some("Node"), 8, EdgeContext::test(TestKind::Unit)),
        dep("c", "graph", Some("Edge"), 9, EdgeContext::production()),
        dep("c", "graph", Some("Edge"), 10, EdgeContext::production()),
    ];
    let merged = merge_module_dependencies(use_deps, &path_deps);
    let lines: Vec<usize> = merged.iter().map(|d| d.line).collect();
    assert_eq!(lines, vec![1, 8, 9]);
}

#[test]
fn root_trees_merge_children_by_name_and_new_dependencies() {
    let mut lib = module("c", vec![module("a", vec![], vec![])], vec![dep("c", "a", None, 1, EdgeContext::production())]);
    let main = module(
        "c",
        vec![module("a", vec![], vec![]), module("b", vec![], vec![]), module("b", vec![], vec![])],
        vec![dep("c", "a", None, 1, EdgeContext::production()), dep("c", "b", None, 2, EdgeContext::production())],
    );
    merge_root_module(&mut lib, main);
    let names: Vec<&str> = lib.children.iter().map(|c| c.name.as_str()).collect();
    assert_eq!(names, vec!["a", "b"]);
    assert_eq!(lib.dependencies.len(), 2);
    assert_eq!(lib.dependencies[1].target_module, "b");
    assert_eq!(lib.name, "c");
}
