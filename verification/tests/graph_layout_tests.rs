use cargo_arc::graph::{ArcGraph, Edge, Node};
use cargo_arc::layout::{detect_cycles, layout_graph, topo_sort, ItemKind};
use cargo_arc::model::{CrateInfo, DependencyKind, DependencyRef, EdgeContext, ModuleInfo, ModuleTree, TestKind};

fn dep(target_crate: &str, target_module: &str) -> DependencyRef {
    DependencyRef {
        target_crate: target_crate.to_string(),
        target_module: target_module.to_string(),
        target_item: None,
        source_file: "src/lib.rs".to_string(),
        line: 1,
        context: EdgeContext::production(),
    }
}

fn module(name: &str, full_path: &str, children: Vec<ModuleInfo>, dependencies: Vec<DependencyRef>) -> ModuleInfo {
    ModuleInfo { name: name.to_string(), full_path: full_path.to_string(), children, dependencies }
}

/// One crate `app` with modules `a`, `b`, `c`: a -> b -> a (a cycle), c -> a.
fn sample() -> ArcGraph {
    let crates = vec![CrateInfo { name: "app".to_string(), path: "/ws/app".to_string(), dependencies: vec![], dev_dependencies: vec![] }];
    let root = module(
        "app",
        "app",
        vec![
            module("a", "app::a", vec![], vec![dep("app", "b")]),
            module("b", "app::b", vec![], vec![dep("app", "a")]),
            module("c", "app::c", vec![], vec![dep("app", "a")]),
        ],
        vec![],
    );
    ArcGraph::try_build(&crates, &vec![ModuleTree { root }]).expect("small graph")
}

#[test]
fn built_graph_starts_with_its_crates() {
    let g = sample();
    assert_eq!(g.node_count(), 4);
    assert!(g.node(0).is_crate());
    assert_eq!(g.node(0).name(), "app");
}

#[test]
fn module_cycles_are_detected_once() {
    let g = sample();
    let cycles = detect_cycles(&g);
    assert_eq!(cycles.len(), 1);
    let mut nodes = cycles[0].nodes.clone();
    nodes.sort();
    let names: Vec<&str> = nodes.iter().map(|&i| g.node(i).name()).collect();
    assert_eq!(names, vec!["a", "b"]);
}

#[test]
fn topo_sort_lists_every_node_once_and_dependents_first() {
    let g = sample();
    let cycles = detect_cycles(&g);
    let order = topo_sort(&g, &cycles);
    let mut sorted = order.clone();
    sorted.sort();
    assert_eq!(sorted, vec![0, 1, 2, 3]);
    let names: Vec<&str> = order.iter().map(|&i| g.node(i).name()).collect();
    // c depends on the cycle {a, b}; the cycle's members come together by name
    let pos = |n: &str| names.iter().position(|x| *x == n).unwrap();
    assert!(pos("c") < pos("a"));
    assert_eq!(pos("b"), pos("a") + 1);
}

#[test]
fn layout_has_one_item_per_node_with_nesting() {
    let g = sample();
    let layout = layout_graph(&g).expect("layout");
    assert_eq!(layout.items.len(), 4);
    assert!(matches!(layout.items[0].kind, ItemKind::Crate));
    for item in &layout.items[1..] {
        match item.kind {
            ItemKind::Module { nesting, parent } => {
                assert_eq!(nesting, 1);
                assert_eq!(parent, 0);
            }
            ItemKind::Crate => panic!("one crate only"),
        }
    }
}

#[test]
fn graph_with_parents_added_later_is_laid_out() {
    let mut g = ArcGraph::new();
    let m = g.add_node(Node::Module { name: "m".to_string(), crate_idx: 1 });
    let c = g.add_node(Node::Crate { name: "c".to_string(), path: "/c".to_string() });
    g.add_edge(c, m, Edge::Contains);
    let layout = layout_graph(&g).expect("layout");
    let labels: Vec<&str> = layout.items.iter().map(|i| i.label.as_str()).collect();
    assert_eq!(labels, vec!["c", "m"]);
    assert!(matches!(layout.items[1].kind, ItemKind::Module { nesting: 1, parent: 0 }));
}

#[test]
fn graph_whose_containment_loops_has_no_layout() {
    let mut g = ArcGraph::new();
    let a = g.add_node(Node::Module { name: "a".to_string(), crate_idx: 0 });
    let b = g.add_node(Node::Module { name: "b".to_string(), crate_idx: 0 });
    g.add_edge(a, b, Edge::Contains);
    g.add_edge(b, a, Edge::Contains);
    assert!(layout_graph(&g).is_none());
}

#[test]
fn topo_sort_puts_dependents_before_dependencies_across_units() {
    // a chain x -> y -> z in one crate, no cycle
    let crates = vec![CrateInfo { name: "lib".to_string(), path: "/ws/lib".to_string(), dependencies: vec![], dev_dependencies: vec![] }];
    let root = module(
        "lib",
        "lib",
        vec![
            module("z", "lib::z", vec![], vec![]),
            module("y", "lib::y", vec![], vec![dep("lib", "z")]),
            module("x", "lib::x", vec![], vec![dep("lib", "y")]),
        ],
        vec![],
    );
    let g = ArcGraph::try_build(&crates, &vec![ModuleTree { root }]).expect("small graph");
    let cycles = detect_cycles(&g);
    assert!(cycles.is_empty());
    let order = topo_sort(&g, &cycles);
    let names: Vec<&str> = order.iter().map(|&i| g.node(i).name()).collect();
    let pos = |n: &str| names.iter().position(|x| *x == n).unwrap();
    assert!(pos("x") < pos("y"));
    assert!(pos("y") < pos("z"));
    assert_eq!(order, topo_sort(&g, &cycles));
}

#[test]
fn crate_dependency_edges_follow_dependencies_then_dev_dependencies() {
    let krate = |name: &str, deps: &[&str], dev: &[&str]| CrateInfo {
        name: name.to_string(),
        path: format!("/ws/{name}"),
        dependencies: deps.iter().map(|s| s.to_string()).collect(),
        dev_dependencies: dev.iter().map(|s| s.to_string()).collect(),
    };
    let crates = vec![krate("a", &["b", "serde"], &["c"]), krate("b", &[], &[]), krate("c", &["b"], &[])];
    let g = ArcGraph::try_build(&crates, &vec![]).expect("small graph");
    let mut crate_edges = Vec::new();
    for e in 0..g.edge_count() {
        let (from, to, w) = g.edge(e);
        if let Edge::CrateDep { context } = w {
            crate_edges.push((from, to, context.kind));
        }
    }
    assert_eq!(
        crate_edges,
        vec![
            (0, 1, DependencyKind::Production),
            (0, 2, DependencyKind::Test(TestKind::Unit)),
            (2, 1, DependencyKind::Production),
        ]
    );
}

#[test]
fn module_dependency_edges_join_the_resolved_nodes() {
    let crates = vec![CrateInfo { name: "app".to_string(), path: "/ws/app".to_string(), dependencies: vec![], dev_dependencies: vec![] }];
    let mut test_dep = dep("app", "b");
    test_dep.context = EdgeContext::test(TestKind::Unit);
    let root = module(
        "app",
        "app",
        vec![
            module("a", "app::a", vec![], vec![test_dep, dep("app", "c"), dep("app", "missing")]),
            module("b", "app::b", vec![], vec![]),
            module("c", "app::c", vec![], vec![dep("app", "c")]),
        ],
        vec![],
    );
    let g = ArcGraph::try_build(&crates, &vec![ModuleTree { root }]).expect("small graph");
    let mut deps = Vec::new();
    for e in 0..g.edge_count() {
        let (from, to, w) = g.edge(e);
        if let Edge::ModuleDep { context, .. } = w {
            deps.push((g.node(from).name().to_string(), g.node(to).name().to_string(), context.kind));
        }
    }
    // the self-dependency of c and the unknown target leave no edge
    assert_eq!(
        deps,
        vec![
            ("a".to_string(), "b".to_string(), DependencyKind::Test(TestKind::Unit)),
            ("a".to_string(), "c".to_string(), DependencyKind::Production),
        ]
    );
}

#[test]
fn layout_lists_each_module_after_the_node_containing_it() {
    let crates = vec![CrateInfo { name: "app".to_string(), path: "/ws/app".to_string(), dependencies: vec![], dev_dependencies: vec![] }];
    let root = module(
        "app",
        "app",
        vec![
            module("b", "app::b", vec![module("inner", "app::b::inner", vec![], vec![])], vec![]),
            module("a", "app::a", vec![], vec![dep("app", "b::inner")]),
        ],
        vec![],
    );
    let g = ArcGraph::try_build(&crates, &vec![ModuleTree { root }]).expect("small graph");
    let layout = layout_graph(&g).expect("layout");
    let labels: Vec<&str> = layout.items.iter().map(|item| item.label.as_str()).collect();
    assert_eq!(labels[0], "app");
    for (k, item) in layout.items.iter().enumerate() {
        if let ItemKind::Module { parent, .. } = item.kind {
            assert!(parent < k);
        }
    }
    let pos = |n: &str| labels.iter().position(|x| *x == n).unwrap();
    assert!(pos("b") < pos("inner"));
    assert_eq!(layout.items[pos("inner")].kind, ItemKind::Module { nesting: 2, parent: pos("b") });
}

#[test]
fn production_subgraph_keeps_only_production_module_dependencies() {
    let crates = vec![CrateInfo { name: "app".to_string(), path: "/ws/app".to_string(), dependencies: vec![], dev_dependencies: vec![] }];
    let mut test_dep = dep("app", "b");
    test_dep.context = EdgeContext::test(TestKind::Unit);
    let root = module(
        "app",
        "app",
        vec![
            module("a", "app::a", vec![], vec![dep("app", "b")]),
            module("b", "app::b", vec![], vec![]),
            module("c", "app::c", vec![], vec![test_dep]),
        ],
        vec![],
    );
    let g = ArcGraph::try_build(&crates, &vec![ModuleTree { root }]).expect("small graph");
    let sub = g.production_subgraph();
    assert_eq!(sub.node_count(), g.node_count());
    assert_eq!(sub.edge_count(), 1);
    let e = &sub.raw_edges()[0];
    assert_eq!(g.node(e.source().index()).name(), "a");
    assert_eq!(g.node(e.target().index()).name(), "b");
}
