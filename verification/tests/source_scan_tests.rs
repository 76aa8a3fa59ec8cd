use cargo_arc::model::{CrateExportMap, DependencyKind, EdgeContext, ModulePathMap, TestKind, WorkspaceCrates};
use cargo_arc::module_walk::{crate_relative_path, module_from_scan, ModItem, SourceScan};
use cargo_arc::use_parser::{
    is_cfg_test_attribute, path_reference, scoped_context, ResolutionContext, UseItem, UseTree,
};

#[test]
fn cfg_test_scope_turns_production_into_unit_test() {
    let ctx = scoped_context(&EdgeContext::production(), true);
    assert_eq!(ctx.kind, DependencyKind::Test(TestKind::Unit));
    let same = scoped_context(&EdgeContext::production(), false);
    assert_eq!(same.kind, DependencyKind::Production);
}

#[test]
fn path_reference_joins_two_or_more_segments() {
    let segments = vec!["my_crate".to_string(), "graph".to_string(), "Node".to_string()];
    let ctx = EdgeContext::production();
    let (path, line, context, depth) = path_reference(&segments, 7, &ctx, 2).expect("kept");
    assert_eq!(path, "my_crate::graph::Node");
    assert_eq!(line, 7);
    assert_eq!(context, ctx);
    assert_eq!(depth, 2);
}

#[test]
fn path_reference_drops_single_segments() {
    let segments = vec!["Node".to_string()];
    assert!(path_reference(&segments, 1, &EdgeContext::production(), 0).is_none());
    assert!(path_reference(&Vec::new(), 1, &EdgeContext::production(), 0).is_none());
}

#[test]
fn cfg_test_attribute_is_recognized() {
    assert!(is_cfg_test_attribute("cfg", &vec!["test".to_string()]));
    assert!(!is_cfg_test_attribute("cfg", &vec!["feature".to_string()]));
    assert!(!is_cfg_test_attribute("path", &vec!["test".to_string()]));
}

fn resolution_context<'a>(ws: &'a WorkspaceCrates, mp: &'a ModulePathMap, exports: &'a CrateExportMap) -> ResolutionContext<'a> {
    ResolutionContext {
        current_crate: "my_crate",
        workspace_crates: ws,
        source_file: "src/lib.rs",
        all_module_paths: mp,
        crate_exports: exports,
        current_module_path: "",
    }
}

#[test]
fn crate_relative_path_drops_the_crate_name() {
    assert_eq!(crate_relative_path("my_crate::graph::node", "my_crate"), "graph::node");
    assert_eq!(crate_relative_path("my_crate", "my_crate"), "");
    assert_eq!(crate_relative_path("other::x", "my_crate"), "other::x");
}

#[test]
fn module_from_scan_without_source_is_empty() {
    let (ws, mp, ex) = (WorkspaceCrates::new(), ModulePathMap::from_entries(vec![]), CrateExportMap::from_entries(vec![]));
    let ctx = resolution_context(&ws, &mp, &ex);
    let (module, decls) = module_from_scan(&None, "graph", "my_crate", &ctx, false);
    assert_eq!(module.name, "graph");
    assert_eq!(module.full_path, "my_crate::graph");
    assert!(module.dependencies.is_empty());
    assert!(module.children.is_empty());
    assert!(decls.is_empty());
}

#[test]
fn module_from_scan_resolves_uses_and_lists_file_modules() {
    let mut ws = WorkspaceCrates::new();
    ws.insert("other_crate".to_string());
    let mp = ModulePathMap::from_entries(vec![]);
    let ex = CrateExportMap::from_entries(vec![]);
    let ctx = resolution_context(&ws, &mp, &ex);
    let tree = UseTree::Path("other_crate".to_string(), Box::new(UseTree::Path("util".to_string(), Box::new(UseTree::Name("Thing".to_string())))));
    let scan = SourceScan {
        uses: vec![(UseItem { tree, line: 3 }, EdgeContext::production(), 0)],
        paths: vec![],
        mods: vec![
            ModItem { name: "child".to_string(), inline: false, cfg_test: false, path_attr: None },
            ModItem { name: "inline_one".to_string(), inline: true, cfg_test: false, path_attr: None },
        ],
    };
    let (module, decls) = module_from_scan(&Some(scan), "my_crate", "my_crate", &ctx, false);
    assert_eq!(module.full_path, "my_crate");
    assert_eq!(module.dependencies.len(), 1);
    assert_eq!(module.dependencies[0].target_crate, "other_crate");
    assert_eq!(decls.len(), 1);
    assert_eq!(decls[0].name, "child");
}
