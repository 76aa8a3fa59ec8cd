use cargo_arc::model::{
    normalize_crate_name, DependencyKind, DependencyRef, EdgeContext, ModuleInfo, TestKind, WorkspaceCrates,
};
use std::collections::HashSet;

fn dep(target_crate: &str, target_module: &str, target_item: Option<&str>, source_file: &str, line: usize, context: EdgeContext) -> DependencyRef {
    DependencyRef {
        target_crate: target_crate.to_string(),
        target_module: target_module.to_string(),
        target_item: target_item.map(|s| s.to_string()),
        source_file: source_file.to_string(),
        line,
        context,
    }
}

#[test]
fn test_edgecontext_struct_basics() {
    let ctx = EdgeContext::production();
    assert_eq!(ctx.kind, DependencyKind::Production);
    assert!(ctx.features.is_empty());
    let test_ctx = EdgeContext::test(TestKind::Unit);
    assert_eq!(test_ctx.kind, DependencyKind::Test(TestKind::Unit));
    assert_ne!(ctx, test_ctx);
    let cloned = ctx.clone();
    assert_eq!(ctx, cloned);
}

#[test]
fn test_dependency_kind_js_strings() {
    assert_eq!(DependencyKind::Production.kind_js(), "production");
    assert_eq!(DependencyKind::Production.sub_kind_js(), None);
    assert_eq!(DependencyKind::Test(TestKind::Unit).kind_js(), "test");
    assert_eq!(DependencyKind::Test(TestKind::Unit).sub_kind_js(), Some("unit"));
    assert_eq!(DependencyKind::Test(TestKind::Integration).kind_js(), "test");
    assert_eq!(DependencyKind::Test(TestKind::Integration).sub_kind_js(), Some("integration"));
    assert_eq!(DependencyKind::Build.kind_js(), "build");
    assert_eq!(DependencyKind::Build.sub_kind_js(), None);
}

#[test]
fn test_edge_context_format_js() {
    let prod = EdgeContext::production();
    assert_eq!(prod.format_js(), r#"{ kind: "production", subKind: null, features: [] }"#);
    let test_unit = EdgeContext::test(TestKind::Unit);
    assert_eq!(test_unit.format_js(), r#"{ kind: "test", subKind: "unit", features: [] }"#);
    let test_int = EdgeContext::test(TestKind::Integration);
    assert_eq!(test_int.format_js(), r#"{ kind: "test", subKind: "integration", features: [] }"#);
    let build = EdgeContext::build();
    assert_eq!(build.format_js(), r#"{ kind: "build", subKind: null, features: [] }"#);
    let with_features = EdgeContext {
        kind: DependencyKind::Production,
        features: vec!["serde".to_string(), "derive".to_string()],
    };
    assert_eq!(
        with_features.format_js(),
        r#"{ kind: "production", subKind: null, features: ["serde", "derive"] }"#
    );
}

#[test]
fn test_dependency_kind_is_copy_and_hash() {
    let a = DependencyKind::Production;
    let b = a;
    assert_eq!(a, b);
    let mut set = HashSet::new();
    set.insert(DependencyKind::Test(TestKind::Unit));
    set.insert(DependencyKind::Build);
    assert_eq!(set.len(), 2);
}

#[test]
fn test_dependency_ref_carries_context() {
    let prod_dep = dep("my_crate", "graph", None, "src/lib.rs", 1, EdgeContext::production());
    assert_eq!(prod_dep.context, EdgeContext::production());
    let test_dep = dep("my_crate", "graph", None, "src/lib.rs", 1, EdgeContext::test(TestKind::Unit));
    assert_eq!(test_dep.context, EdgeContext::test(TestKind::Unit));
    assert_ne!(prod_dep, test_dep);
}

#[test]
fn test_dependency_ref_struct() {
    let d = dep("my_crate", "graph", None, "src/cli.rs", 42, EdgeContext::production());
    assert_eq!(d.target_crate, "my_crate");
    assert_eq!(d.target_module, "graph");
    assert!(d.target_item.is_none());
    assert_eq!(d.source_file, "src/cli.rs");
    assert_eq!(d.line, 42);
}

#[test]
fn test_dependency_ref_full_target() {
    let d = dep("crate", "graph", Some("build"), "", 1, EdgeContext::production());
    assert_eq!(d.full_target(), "crate::graph::build");
}

#[test]
fn test_dependency_ref_module_target() {
    let d = dep("crate", "graph", Some("build"), "", 1, EdgeContext::production());
    assert_eq!(d.module_target(), "crate::graph");
}

#[test]
fn test_dependency_ref_full_target_no_item() {
    let d = dep("crate", "graph", None, "", 1, EdgeContext::production());
    assert_eq!(d.full_target(), "crate::graph");
}

#[test]
fn test_module_target_empty_module() {
    let d = dep("crate_b", "", None, "", 1, EdgeContext::production());
    assert_eq!(d.module_target(), "crate_b");
}

#[test]
fn test_full_target_empty_module_with_item() {
    let d = dep("crate_b", "", Some("Symbol"), "", 1, EdgeContext::production());
    assert_eq!(d.full_target(), "crate_b::Symbol");
}

#[test]
fn test_full_target_empty_module_no_item() {
    let d = dep("crate_b", "", None, "", 1, EdgeContext::production());
    assert_eq!(d.full_target(), "crate_b");
}

#[test]
fn test_workspace_crates_from_iter_normalizes() {
    let ws = WorkspaceCrates::from_names(vec!["core-utils".to_string(), "my-lib".to_string()]);
    assert!(ws.contains("core_utils"));
    assert!(ws.contains("core-utils"));
    assert!(ws.contains("my_lib"));
    assert!(ws.contains("my-lib"));
}

#[test]
fn test_workspace_crates_iter_returns_normalized() {
    let ws = WorkspaceCrates::from_names(vec!["core-utils".to_string()]);
    let names: Vec<&str> = ws.iter().map(|s| s.as_str()).collect();
    assert_eq!(names, vec!["core_utils"]);
}

#[test]
fn test_module_info_has_dependency_refs() {
    let module = ModuleInfo {
        name: "cli".to_string(),
        full_path: "crate::cli".to_string(),
        children: vec![],
        dependencies: vec![dep("crate", "graph", None, "src/cli.rs", 5, EdgeContext::production())],
    };
    assert!(module.dependencies.iter().any(|d| d.module_target() == "crate::graph"));
}

// --- further cases ---

#[test]
fn workspace_crates_insert_normalizes_and_reports_novelty() {
    let mut ws = WorkspaceCrates::new();
    assert!(ws.insert("my-lib".to_string()));
    assert!(ws.contains("my_lib"));
    assert!(ws.contains("my-lib"));
    assert!(!ws.insert("my_lib".to_string()));
    assert_eq!(ws.len(), 1);
}

#[test]
fn workspace_crates_len_and_is_empty() {
    let empty = WorkspaceCrates::new();
    assert!(empty.is_empty());
    assert_eq!(empty.len(), 0);
    let ws = WorkspaceCrates::from_names(vec!["a".to_string(), "b".to_string(), "a".to_string()]);
    assert!(!ws.is_empty());
    assert_eq!(ws.len(), 2);
}

#[test]
fn normalize_crate_name_is_idempotent_on_examples() {
    for name in ["a-b-c", "already_valid", "-x-", ""] {
        let once = normalize_crate_name(name);
        assert_eq!(normalize_crate_name(&once), once);
    }
    assert_eq!(normalize_crate_name("a-b-c"), "a_b_c");
}

#[test]
fn workspace_crates_treat_hyphen_and_underscore_alike() {
    let mut crates = WorkspaceCrates::new();
    crates.insert("my-crate_name".to_string());
    assert!(crates.contains("my_crate-name"));
    assert!(crates.contains("my-crate-name"));
    assert!(crates.contains("my_crate_name"));
    assert!(!crates.contains("my.crate.name"));
}
