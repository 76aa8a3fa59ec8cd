use cargo_arc::filtering::{
    collect_reachable_crates, find_seed_crates, package_matches_features, parse_feature, DepInfo, DepKind, DepScope,
    FeatureConfig, PackageFeatures,
};
use cargo_arc::model::WorkspaceCrates;

fn names(v: &[&str]) -> Vec<String> {
    v.iter().map(|s| s.to_string()).collect()
}

fn has(v: &[String], s: &str) -> bool {
    v.iter().any(|x| x == s)
}

#[test]
fn test_parse_feature_simple() {
    let (crate_filter, feature_name) = parse_feature("web");
    assert_eq!(crate_filter, None);
    assert_eq!(feature_name, "web");
}

#[test]
fn test_parse_feature_with_crate_prefix() {
    let (crate_filter, feature_name) = parse_feature("app/web");
    assert_eq!(crate_filter, Some("app"));
    assert_eq!(feature_name, "web");
}

#[test]
fn test_collect_reachable_crates_bfs() {
    let seeds = names(&["A"]);
    let resolved_deps = vec![("A".to_string(), names(&["B"])), ("B".to_string(), names(&["C"]))];
    let workspace = WorkspaceCrates::from_names(names(&["A", "B", "C"]));
    let reachable = collect_reachable_crates(&seeds, &resolved_deps, &workspace);
    assert!(has(&reachable, "A"));
    assert!(has(&reachable, "B"));
    assert!(has(&reachable, "C"));
    assert_eq!(reachable.len(), 3);
}

#[test]
fn test_collect_reachable_stops_at_non_workspace() {
    let seeds = names(&["A"]);
    let resolved_deps = vec![("A".to_string(), names(&["B"])), ("B".to_string(), names(&["external"]))];
    let workspace = WorkspaceCrates::from_names(names(&["A", "B"]));
    let reachable = collect_reachable_crates(&seeds, &resolved_deps, &workspace);
    assert!(has(&reachable, "A"));
    assert!(has(&reachable, "B"));
    assert!(!has(&reachable, "external"));
    assert_eq!(reachable.len(), 2);
}

#[test]
fn test_collect_reachable_handles_cycles() {
    let seeds = names(&["A"]);
    let resolved_deps = vec![("A".to_string(), names(&["B"])), ("B".to_string(), names(&["A"]))];
    let workspace = WorkspaceCrates::from_names(names(&["A", "B"]));
    let reachable = collect_reachable_crates(&seeds, &resolved_deps, &workspace);
    assert!(has(&reachable, "A"));
    assert!(has(&reachable, "B"));
    assert_eq!(reachable.len(), 2);
}

#[test]
fn test_dep_info_normal_workspace_is_included() {
    let info = DepInfo { name: "foo", kind: DepKind::Normal, scope: DepScope::Workspace };
    assert!(info.is_included(), "Normal + Workspace should be included");
}

#[test]
fn test_dep_info_dev_workspace_is_excluded() {
    let info = DepInfo { name: "foo", kind: DepKind::Dev, scope: DepScope::Workspace };
    assert!(!info.is_included(), "Dev + Workspace should be excluded");
}

#[test]
fn test_dep_info_build_workspace_is_excluded() {
    let info = DepInfo { name: "foo", kind: DepKind::Build, scope: DepScope::Workspace };
    assert!(!info.is_included(), "Build + Workspace should be excluded");
}

#[test]
fn test_dep_info_normal_external_is_excluded() {
    let info = DepInfo { name: "serde", kind: DepKind::Normal, scope: DepScope::External };
    assert!(!info.is_included(), "Normal + External should be excluded from workspace graph");
}

#[test]
fn test_dep_info_dev_external_is_excluded() {
    let info = DepInfo { name: "test-helper", kind: DepKind::Dev, scope: DepScope::External };
    assert!(!info.is_included(), "Dev + External should be excluded");
}

#[test]
fn test_dep_info_dev_workspace_is_dev_workspace() {
    let info = DepInfo { name: "foo", kind: DepKind::Dev, scope: DepScope::Workspace };
    assert!(info.is_dev_workspace(), "Dev + Workspace should be dev_workspace");
}

#[test]
fn test_dep_info_normal_workspace_is_not_dev_workspace() {
    let info = DepInfo { name: "foo", kind: DepKind::Normal, scope: DepScope::Workspace };
    assert!(!info.is_dev_workspace(), "Normal + Workspace should not be dev_workspace");
}

#[test]
fn test_dep_info_dev_external_is_not_dev_workspace() {
    let info = DepInfo { name: "foo", kind: DepKind::Dev, scope: DepScope::External };
    assert!(!info.is_dev_workspace(), "Dev + External should not be dev_workspace");
}

// --- further cases ---

#[test]
fn from_node_dep_prefers_normal_over_dev_over_build() {
    let ws = WorkspaceCrates::from_names(names(&["my-lib"]));
    let info = DepInfo::from_node_dep("my-lib", &vec![DepKind::Build, DepKind::Dev, DepKind::Normal], &ws);
    assert_eq!(info.kind, DepKind::Normal);
    assert_eq!(info.scope, DepScope::Workspace);
    let info = DepInfo::from_node_dep("my_lib", &vec![DepKind::Build, DepKind::Dev], &ws);
    assert_eq!(info.kind, DepKind::Dev);
    let info = DepInfo::from_node_dep("serde", &vec![DepKind::Build], &ws);
    assert_eq!(info.kind, DepKind::Build);
    assert_eq!(info.scope, DepScope::External);
    let info = DepInfo::from_node_dep("serde", &vec![], &ws);
    assert_eq!(info.kind, DepKind::Unknown);
}

#[test]
fn parse_feature_splits_at_first_slash_only() {
    let (crate_filter, feature_name) = parse_feature("a/b/c");
    assert_eq!(crate_filter, Some("a"));
    assert_eq!(feature_name, "b/c");
    let (crate_filter, feature_name) = parse_feature("/x");
    assert_eq!(crate_filter, Some(""));
    assert_eq!(feature_name, "x");
}

#[test]
fn package_matches_features_respects_crate_filter() {
    let pkg = PackageFeatures { name: "web-utils".to_string(), features: names(&["web", "default"]) };
    assert!(package_matches_features(&pkg, &vec![(None, "web")]));
    assert!(package_matches_features(&pkg, &vec![(Some("web-utils"), "web")]));
    assert!(!package_matches_features(&pkg, &vec![(Some("server-utils"), "web")]));
    assert!(!package_matches_features(&pkg, &vec![(None, "server")]));
    assert!(!package_matches_features(&pkg, &vec![]));
}

#[test]
fn find_seed_crates_all_members_without_features() {
    let ws = WorkspaceCrates::from_names(names(&["core", "web-utils"]));
    let packages = vec![PackageFeatures { name: "core".to_string(), features: vec![] }];
    let cfg = FeatureConfig::default();
    let seeds = find_seed_crates(&packages, &cfg, &ws);
    assert_eq!(seeds.len(), 2);
    assert!(has(&seeds, "core"));
    assert!(has(&seeds, "web_utils"));
}

#[test]
fn find_seed_crates_selects_members_declaring_the_feature() {
    let ws = WorkspaceCrates::from_names(names(&["core", "web-utils", "server-utils"]));
    let packages = vec![
        PackageFeatures { name: "core".to_string(), features: vec![] },
        PackageFeatures { name: "web-utils".to_string(), features: names(&["web"]) },
        PackageFeatures { name: "server-utils".to_string(), features: names(&["server"]) },
        PackageFeatures { name: "outside".to_string(), features: names(&["web"]) },
    ];
    let cfg = FeatureConfig { features: names(&["web"]), ..Default::default() };
    let seeds = find_seed_crates(&packages, &cfg, &ws);
    assert_eq!(seeds, names(&["web_utils"]));
    let cfg = FeatureConfig { features: names(&["web"]), all_features: true, ..Default::default() };
    assert_eq!(find_seed_crates(&packages, &cfg, &ws).len(), 3);
}

#[test]
fn reachable_set_is_closed_and_least() {
    // D is reachable from nothing; E is listed but not a member
    let seeds = names(&["A", "A"]);
    let resolved_deps = vec![
        ("A".to_string(), names(&["B", "E"])),
        ("B".to_string(), names(&["C"])),
        ("D".to_string(), names(&["A"])),
        ("B".to_string(), names(&[])),
    ];
    let workspace = WorkspaceCrates::from_names(names(&["A", "B", "C", "D"]));
    let reachable = collect_reachable_crates(&seeds, &resolved_deps, &workspace);
    // the later entry for B replaces the earlier one
    assert_eq!(reachable, names(&["A", "B"]));
}

#[test]
fn reachable_set_grows_with_its_seeds() {
    let resolved_deps = vec![
        ("A".to_string(), names(&["B"])),
        ("C".to_string(), names(&["D"])),
        ("D".to_string(), names(&[])),
    ];
    let workspace = WorkspaceCrates::from_names(names(&["A", "B", "C", "D"]));
    let small = collect_reachable_crates(&names(&["A"]), &resolved_deps, &workspace);
    let large = collect_reachable_crates(&names(&["A", "C"]), &resolved_deps, &workspace);
    for c in &small {
        assert!(has(&large, c));
    }
    assert!(has(&large, "D"));
    assert!(!has(&small, "D"));
}

#[test]
fn reachable_set_of_a_reachable_set_is_itself() {
    let resolved_deps = vec![("A".to_string(), names(&["B"])), ("B".to_string(), names(&["C", "X"]))];
    let workspace = WorkspaceCrates::from_names(names(&["A", "B", "C"]));
    let once = collect_reachable_crates(&names(&["A"]), &resolved_deps, &workspace);
    let twice = collect_reachable_crates(&once, &resolved_deps, &workspace);
    let mut a = once.clone();
    let mut b = twice.clone();
    a.sort();
    b.sort();
    assert_eq!(a, b);
    assert_eq!(a, names(&["A", "B", "C"]));
}
