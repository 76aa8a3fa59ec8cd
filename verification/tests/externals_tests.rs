use cargo_arc::externals::analyze_externals;
use cargo_arc::filtering::DepKind;
use cargo_arc::workspace::{MetaDep, MetaNode, MetaPackage, WorkspaceMetadata};

fn pkg(name: &str, version: &str, local: bool) -> MetaPackage {
    MetaPackage {
        id: format!("{name} {version}"),
        name: name.to_string(),
        version: version.to_string(),
        dir: format!("/p/{name}"),
        features: vec![],
        is_local: local,
    }
}

fn dep(name: &str, id: &str, kinds: &[DepKind]) -> MetaDep {
    MetaDep { name: name.to_string(), pkg: id.to_string(), kinds: kinds.to_vec() }
}

fn metadata() -> WorkspaceMetadata {
    WorkspaceMetadata {
        packages: vec![
            pkg("app", "0.1.0", true),
            pkg("lib-a", "0.1.0", true),
            pkg("serde", "1.0.0", false),
            pkg("serde_derive", "1.0.0", false),
            pkg("cc", "1.0.0", false),
            pkg("proc-macro2", "1.0.0", false),
        ],
        workspace_members: vec!["app 0.1.0".to_string(), "lib-a 0.1.0".to_string()],
        resolve: Some(vec![
            MetaNode {
                id: "app 0.1.0".to_string(),
                deps: vec![
                    dep("lib_a", "lib-a 0.1.0", &[DepKind::Normal]),
                    dep("serde", "serde 1.0.0", &[DepKind::Normal]),
                    dep("cc", "cc 1.0.0", &[DepKind::Build]),
                ],
            },
            MetaNode { id: "lib-a 0.1.0".to_string(), deps: vec![dep("serde", "serde 1.0.0", &[DepKind::Dev, DepKind::Build])] },
            MetaNode {
                id: "serde 1.0.0".to_string(),
                deps: vec![dep("serde_derive", "serde_derive 1.0.0", &[DepKind::Normal])],
            },
            MetaNode {
                id: "serde_derive 1.0.0".to_string(),
                deps: vec![dep("proc_macro2", "proc-macro2 1.0.0", &[DepKind::Normal])],
            },
        ]),
    }
}

fn ids(r: &cargo_arc::externals::ExternalsResult) -> Vec<String> {
    let mut v: Vec<String> = r.crates.iter().map(|c| c.package_id.clone()).collect();
    v.sort();
    v
}

#[test]
fn direct_externals_only_without_transitive() {
    let r = analyze_externals(&metadata(), false);
    assert_eq!(ids(&r), vec!["serde 1.0.0".to_string()]);
    assert_eq!(r.crates[0].name, "serde");
    assert_eq!(r.crates[0].version, "1.0.0");
    assert!(r.external_deps.is_empty());
    let ws: Vec<(String, String, Vec<DepKind>)> =
        r.workspace_deps.iter().map(|d| (d.workspace_crate.clone(), d.external_pkg_id.clone(), d.dep_kinds.clone())).collect();
    assert_eq!(
        ws,
        vec![
            ("app".to_string(), "serde 1.0.0".to_string(), vec![DepKind::Normal]),
            ("lib_a".to_string(), "serde 1.0.0".to_string(), vec![DepKind::Dev]),
        ]
    );
    assert_eq!(
        r.crate_name_map,
        vec![
            ("app".to_string(), "serde".to_string(), "serde 1.0.0".to_string()),
            ("lib_a".to_string(), "serde".to_string(), "serde 1.0.0".to_string()),
        ]
    );
}

#[test]
fn transitive_externals_follow_external_edges() {
    let r = analyze_externals(&metadata(), true);
    assert_eq!(
        ids(&r),
        vec!["proc-macro2 1.0.0".to_string(), "serde 1.0.0".to_string(), "serde_derive 1.0.0".to_string()]
    );
    let ext: Vec<(String, String)> = r.external_deps.iter().map(|d| (d.from_pkg_id.clone(), d.to_pkg_id.clone())).collect();
    assert_eq!(
        ext,
        vec![
            ("serde 1.0.0".to_string(), "serde_derive 1.0.0".to_string()),
            ("serde_derive 1.0.0".to_string(), "proc-macro2 1.0.0".to_string()),
        ]
    );
}

#[test]
fn no_resolve_section_finds_nothing() {
    let mut meta = metadata();
    meta.resolve = None;
    let r = analyze_externals(&meta, true);
    assert!(r.crates.is_empty() && r.external_deps.is_empty() && r.workspace_deps.is_empty() && r.crate_name_map.is_empty());
}
