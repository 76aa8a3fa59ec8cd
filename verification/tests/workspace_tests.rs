use cargo_arc::filtering::{DepKind, FeatureConfig};
use cargo_arc::workspace::{analyze_workspace, MetaDep, MetaNode, MetaPackage, WorkspaceError, WorkspaceMetadata};

/// Resolved dependency as the resolve section lists it.
#[derive(Debug, Clone)]
struct ResolvedDependency {
    name: String,
    #[allow(dead_code)]
    pkg_id: String,
    dep_kinds: Vec<ResolvedDepKind>,
}

/// Dependency kind entry of a resolved dependency.
#[derive(Debug, Clone)]
struct ResolvedDepKind {
    kind: Option<String>,
    #[allow(dead_code)]
    target: Option<String>,
}

#[test]
fn test_resolved_dependency_construction() {
    let dep = ResolvedDependency {
        name: "core".to_string(),
        pkg_id: "core 0.1.0 (path+file:///workspace/core)".to_string(),
        dep_kinds: vec![ResolvedDepKind { kind: None, target: None }],
    };
    assert_eq!(dep.name, "core");
    assert_eq!(dep.dep_kinds.len(), 1);
    assert!(dep.dep_kinds[0].kind.is_none());
}

fn pkg(name: &str, features: &[&str]) -> MetaPackage {
    MetaPackage {
        id: format!("{name} 0.1.0"),
        name: name.to_string(),
        version: "0.1.0".to_string(),
        dir: format!("/ws/{name}"),
        features: features.iter().map(|s| s.to_string()).collect(),
        is_local: name != "serde",
    }
}

fn node(name: &str, deps: &[(&str, DepKind)]) -> MetaNode {
    MetaNode {
        id: format!("{name} 0.1.0"),
        deps: deps.iter().map(|(n, k)| MetaDep { name: n.to_string(), pkg: format!("{n} 0.1.0"), kinds: vec![*k] }).collect(),
    }
}

fn metadata() -> WorkspaceMetadata {
    let members = ["core", "core-utils", "web-utils", "server-utils", "testlib"];
    WorkspaceMetadata {
        packages: vec![
            pkg("core", &[]),
            pkg("core-utils", &[]),
            pkg("web-utils", &["web"]),
            pkg("server-utils", &["server"]),
            pkg("testlib", &[]),
            pkg("serde", &["derive"]),
        ],
        workspace_members: members.iter().map(|m| format!("{m} 0.1.0")).collect(),
        resolve: Some(vec![
            node("core", &[("serde", DepKind::Normal)]),
            node("core-utils", &[("core", DepKind::Normal), ("testlib", DepKind::Dev)]),
            node("web-utils", &[("core", DepKind::Normal), ("testlib", DepKind::Normal)]),
            node("server-utils", &[("core", DepKind::Normal)]),
            node("testlib", &[]),
        ]),
    }
}

#[test]
fn analyze_lists_all_members_without_features() {
    let crates = analyze_workspace(&metadata(), &FeatureConfig::default()).unwrap();
    let names: Vec<&str> = crates.iter().map(|c| c.name.as_str()).collect();
    assert_eq!(names, vec!["core", "core-utils", "web-utils", "server-utils", "testlib"]);
    assert!(crates[0].dependencies.is_empty());
    assert_eq!(crates[1].dependencies, vec!["core".to_string()]);
    // dev-dependencies only with tests included
    assert!(crates[1].dev_dependencies.is_empty());
    assert_eq!(crates[1].path, "/ws/core-utils");
}

#[test]
fn analyze_keeps_dev_dependencies_with_tests() {
    let cfg = FeatureConfig { include_tests: true, ..Default::default() };
    let crates = analyze_workspace(&metadata(), &cfg).unwrap();
    assert_eq!(crates[1].dev_dependencies, vec!["testlib".to_string()]);
}

#[test]
fn analyze_filters_to_crates_reachable_from_feature_seeds() {
    let cfg = FeatureConfig { features: vec!["web".to_string()], ..Default::default() };
    let crates = analyze_workspace(&metadata(), &cfg).unwrap();
    let names: Vec<&str> = crates.iter().map(|c| c.name.as_str()).collect();
    assert_eq!(names, vec!["core", "web-utils", "testlib"]);
}

#[test]
fn analyze_without_resolve_section_fails() {
    let mut meta = metadata();
    meta.resolve = None;
    assert_eq!(analyze_workspace(&meta, &FeatureConfig::default()).unwrap_err(), WorkspaceError::NoResolve);
}
