use cargo_arc::graph::{ArcGraph, Edge, Node};
use cargo_arc::layout::{build_layout, detect_cycles, stable_toposort, topo_sort, Cycle, EdgeKind};
use petgraph::graph::DiGraph;
use cargo_arc::model::{EdgeContext, SourceLocation};

fn module_node(name: &str, crate_idx: usize) -> Node {
    Node::Module { name: name.to_string(), crate_idx }
}

fn crate_node(name: &str, path: &str) -> Node {
    Node::Crate { name: name.to_string(), path: path.to_string() }
}

fn module_dep(locations: Vec<SourceLocation>) -> Edge {
    Edge::ModuleDep { locations, context: EdgeContext::production() }
}

fn crate_dep() -> Edge {
    Edge::CrateDep { context: EdgeContext::production() }
}

fn names_of(graph: &ArcGraph, order: &[usize]) -> Vec<String> {
    order.iter().map(|&i| graph.node(i).name().to_string()).collect()
}

#[test]
fn test_no_cycles() {
    let mut graph = ArcGraph::new();
    let a = graph.add_node(module_node("a", 0));
    let b = graph.add_node(module_node("b", 0));
    let c = graph.add_node(module_node("c", 0));
    graph.add_edge(a, b, module_dep(vec![]));
    graph.add_edge(b, c, module_dep(vec![]));
    let cycles = detect_cycles(&graph);
    assert!(cycles.is_empty(), "Linear graph should have no cycles");
}

#[test]
fn test_direct_cycle() {
    let mut graph = ArcGraph::new();
    let a = graph.add_node(module_node("a", 0));
    let b = graph.add_node(module_node("b", 0));
    graph.add_edge(a, b, module_dep(vec![]));
    graph.add_edge(b, a, module_dep(vec![]));
    let cycles = detect_cycles(&graph);
    assert_eq!(cycles.len(), 1, "Should detect one cycle");
    assert_eq!(cycles[0].nodes.len(), 2, "Cycle should contain 2 nodes");
    assert!(cycles[0].nodes.contains(&a));
    assert!(cycles[0].nodes.contains(&b));
}

#[test]
fn test_transitive_cycle() {
    let mut graph = ArcGraph::new();
    let a = graph.add_node(module_node("a", 0));
    let b = graph.add_node(module_node("b", 0));
    let c = graph.add_node(module_node("c", 0));
    graph.add_edge(a, b, module_dep(vec![]));
    graph.add_edge(b, c, module_dep(vec![]));
    graph.add_edge(c, a, module_dep(vec![]));
    let cycles = detect_cycles(&graph);
    assert_eq!(cycles.len(), 1, "Should detect one cycle");
    assert_eq!(cycles[0].nodes.len(), 3, "Cycle should contain 3 nodes");
}

#[test]
fn test_multiple_independent_cycles() {
    let mut graph = ArcGraph::new();
    let a = graph.add_node(module_node("a", 0));
    let b = graph.add_node(module_node("b", 0));
    let c = graph.add_node(module_node("c", 0));
    let d = graph.add_node(module_node("d", 0));
    graph.add_edge(a, b, module_dep(vec![]));
    graph.add_edge(b, a, module_dep(vec![]));
    graph.add_edge(c, d, module_dep(vec![]));
    graph.add_edge(d, c, module_dep(vec![]));
    let cycles = detect_cycles(&graph);
    assert_eq!(cycles.len(), 2, "Should detect two independent cycles");
    for cycle in &cycles {
        assert_eq!(cycle.nodes.len(), 2, "Each cycle should contain 2 nodes");
    }
    let all_nodes: Vec<usize> = cycles.iter().flat_map(|c| c.nodes.iter().copied()).collect();
    assert!(all_nodes.contains(&a), "Cycle 1 should contain A");
    assert!(all_nodes.contains(&b), "Cycle 1 should contain B");
    assert!(all_nodes.contains(&c), "Cycle 2 should contain C");
    assert!(all_nodes.contains(&d), "Cycle 2 should contain D");
}

#[test]
fn layout_test_topo_sort_simple() {
    let mut graph = ArcGraph::new();
    let a = graph.add_node(module_node("a", 0));
    let b = graph.add_node(module_node("b", 0));
    let c = graph.add_node(module_node("c", 0));
    graph.add_edge(a, b, module_dep(vec![]));
    graph.add_edge(b, c, module_dep(vec![]));
    let cycles: Vec<Cycle> = vec![];
    let sorted = topo_sort(&graph, &cycles);
    assert_eq!(sorted.len(), 3);
    let pos_a = sorted.iter().position(|&n| n == a).unwrap();
    let pos_b = sorted.iter().position(|&n| n == b).unwrap();
    let pos_c = sorted.iter().position(|&n| n == c).unwrap();
    assert!(pos_a < pos_b, "A should come before B (A depends on B)");
    assert!(pos_b < pos_c, "B should come before C (B depends on C)");
}

#[test]
fn test_topo_sort_with_cycles() {
    let mut graph = ArcGraph::new();
    let a = graph.add_node(module_node("a", 0));
    let b = graph.add_node(module_node("b", 0));
    let c = graph.add_node(module_node("c", 0));
    let d = graph.add_node(module_node("d", 0));
    graph.add_edge(d, a, module_dep(vec![]));
    graph.add_edge(a, b, module_dep(vec![]));
    graph.add_edge(b, a, module_dep(vec![]));
    graph.add_edge(b, c, module_dep(vec![]));
    let cycles = vec![Cycle { nodes: vec![a, b] }];
    let sorted = topo_sort(&graph, &cycles);
    assert_eq!(sorted.len(), 4);
    let pos_a = sorted.iter().position(|&n| n == a).unwrap();
    let pos_b = sorted.iter().position(|&n| n == b).unwrap();
    let pos_c = sorted.iter().position(|&n| n == c).unwrap();
    let pos_d = sorted.iter().position(|&n| n == d).unwrap();
    assert!(pos_d < pos_a && pos_d < pos_b, "D should come before cycle (D depends on cycle)");
    assert!(pos_a < pos_c && pos_b < pos_c, "Cycle should come before C (cycle depends on C)");
    assert!(pos_a < pos_b, "Within cycle: A before B (alphabetical)");
}

#[test]
fn layout_test_build_layout_single_crate() {
    let mut graph = ArcGraph::new();
    let crate_idx = graph.add_node(crate_node("my_crate", "/path"));
    let mod_a = graph.add_node(module_node("mod_a", crate_idx));
    let mod_b = graph.add_node(module_node("mod_b", crate_idx));
    graph.add_edge(crate_idx, mod_a, Edge::Contains);
    graph.add_edge(crate_idx, mod_b, Edge::Contains);
    graph.add_edge(mod_a, mod_b, module_dep(vec![]));
    let cycles: Vec<Cycle> = vec![];
    let order = topo_sort(&graph, &cycles);
    let ir = build_layout(&graph, &order, &cycles);
    assert_eq!(ir.items.len(), 3);
    assert_eq!(ir.edges.len(), 1);
    assert!(matches!(ir.edges[0].kind, EdgeKind::Downward));
}

#[test]
fn layout_test_build_layout_with_cycles() {
    let mut graph = ArcGraph::new();
    let a = graph.add_node(module_node("a", 0));
    let b = graph.add_node(module_node("b", 0));
    graph.add_edge(a, b, module_dep(vec![]));
    graph.add_edge(b, a, module_dep(vec![]));
    let cycles = detect_cycles(&graph);
    let order = topo_sort(&graph, &cycles);
    let ir = build_layout(&graph, &order, &cycles);
    assert_eq!(ir.items.len(), 2);
    assert_eq!(ir.edges.len(), 2);
    for edge in &ir.edges {
        assert!(matches!(edge.kind, EdgeKind::DirectCycle | EdgeKind::TransitiveCycle), "Cycle edges should be marked");
    }
}

#[test]
fn layout_test_upward_edge_direction() {
    let mut graph = ArcGraph::new();
    let crate_idx = graph.add_node(crate_node("test", "/test"));
    let mod_a = graph.add_node(module_node("a", crate_idx));
    let mod_b = graph.add_node(module_node("b", crate_idx));
    graph.add_edge(crate_idx, mod_a, Edge::Contains);
    graph.add_edge(crate_idx, mod_b, Edge::Contains);
    graph.add_edge(mod_a, mod_b, module_dep(vec![]));
    let cycles: Vec<Cycle> = vec![];
    let order = topo_sort(&graph, &cycles);
    let ir = build_layout(&graph, &order, &cycles);
    assert_eq!(ir.edges.len(), 1);
    let edge = &ir.edges[0];
    assert!(matches!(edge.kind, EdgeKind::Downward | EdgeKind::Upward), "Edge should have direction: {:?}", edge.kind);
}

#[test]
fn layout_test_build_layout_multi_crate_grouping() {
    let mut graph = ArcGraph::new();
    let crate_a = graph.add_node(crate_node("crate_a", "/path/a"));
    let mod_a1 = graph.add_node(module_node("mod_a1", crate_a));
    let mod_a2 = graph.add_node(module_node("mod_a2", crate_a));
    graph.add_edge(crate_a, mod_a1, Edge::Contains);
    graph.add_edge(crate_a, mod_a2, Edge::Contains);
    let crate_b = graph.add_node(crate_node("crate_b", "/path/b"));
    let mod_b1 = graph.add_node(module_node("mod_b1", crate_b));
    let mod_b2 = graph.add_node(module_node("mod_b2", crate_b));
    graph.add_edge(crate_b, mod_b1, Edge::Contains);
    graph.add_edge(crate_b, mod_b2, Edge::Contains);
    graph.add_edge(crate_a, crate_b, crate_dep());
    let cycles: Vec<Cycle> = vec![];
    let order = topo_sort(&graph, &cycles);
    let ir = build_layout(&graph, &order, &cycles);
    assert_eq!(ir.items.len(), 6);
    let pos = |l: &str| ir.items.iter().position(|i| i.label == l).unwrap();
    let (pos_crate_a, pos_mod_a1, pos_mod_a2) = (pos("crate_a"), pos("mod_a1"), pos("mod_a2"));
    let (pos_crate_b, pos_mod_b1, pos_mod_b2) = (pos("crate_b"), pos("mod_b1"), pos("mod_b2"));
    assert!(pos_crate_a < pos_mod_a1 && pos_mod_a1 < pos_crate_b, "mod_a1 should be between crate_a and crate_b");
    assert!(pos_crate_a < pos_mod_a2 && pos_mod_a2 < pos_crate_b, "mod_a2 should be between crate_a and crate_b");
    assert!(pos_crate_b < pos_mod_b1, "mod_b1 should be after crate_b");
    assert!(pos_crate_b < pos_mod_b2, "mod_b2 should be after crate_b");
    assert_eq!(ir.edges.len(), 1, "Should have CrateDep edge (no ModuleDeps between crates)");
    assert_eq!(ir.edges[0].from, pos_crate_a);
    assert_eq!(ir.edges[0].to, pos_crate_b);
}

#[test]
fn layout_test_nested_module_hierarchy_ordering() {
    let mut graph = ArcGraph::new();
    let crate_idx = graph.add_node(crate_node("test_crate", "/test"));
    let other = graph.add_node(module_node("other_module", crate_idx));
    let zebra = graph.add_node(module_node("zebra_child", crate_idx));
    let parent = graph.add_node(module_node("parent", crate_idx));
    let alpha = graph.add_node(module_node("alpha_child", crate_idx));
    graph.add_edge(crate_idx, other, Edge::Contains);
    graph.add_edge(crate_idx, parent, Edge::Contains);
    graph.add_edge(parent, alpha, Edge::Contains);
    graph.add_edge(parent, zebra, Edge::Contains);
    let cycles: Vec<Cycle> = vec![];
    let order = topo_sort(&graph, &cycles);
    let ir = build_layout(&graph, &order, &cycles);
    let labels: Vec<&str> = ir.items.iter().map(|i| i.label.as_str()).collect();
    let pos = |l: &str| labels.iter().position(|&x| x == l).unwrap();
    let (pos_parent, pos_alpha, pos_zebra) = (pos("parent"), pos("alpha_child"), pos("zebra_child"));
    let _ = pos("test_crate");
    let _ = pos("other_module");
    assert!(pos_alpha > pos_parent && pos_alpha < pos_parent + 3, "alpha_child must directly follow parent, not scattered. Labels: {:?}", labels);
    assert!(pos_zebra > pos_parent && pos_zebra < pos_parent + 3, "zebra_child must directly follow parent, not scattered. Labels: {:?}", labels);
    assert!(pos_alpha < pos_zebra, "alpha_child should come before zebra_child (alphabetical). Labels: {:?}", labels);
}

#[test]
fn layout_test_module_dependency_ordering() {
    let mut graph = ArcGraph::new();
    let crate_idx = graph.add_node(crate_node("test_crate", "/test"));
    let alpha = graph.add_node(module_node("alpha", crate_idx));
    let beta = graph.add_node(module_node("beta", crate_idx));
    let zebra = graph.add_node(module_node("zebra", crate_idx));
    graph.add_edge(crate_idx, alpha, Edge::Contains);
    graph.add_edge(crate_idx, beta, Edge::Contains);
    graph.add_edge(crate_idx, zebra, Edge::Contains);
    graph.add_edge(zebra, beta, module_dep(vec![]));
    graph.add_edge(beta, alpha, module_dep(vec![]));
    let cycles: Vec<Cycle> = vec![];
    let order = topo_sort(&graph, &cycles);
    let ir = build_layout(&graph, &order, &cycles);
    let labels: Vec<&str> = ir.items.iter().map(|i| i.label.as_str()).collect();
    let pos = |l: &str| labels.iter().position(|&x| x == l).unwrap();
    assert!(pos("zebra") < pos("beta"), "zebra should come before beta (zebra depends on beta). Labels: {:?}", labels);
    assert!(pos("beta") < pos("alpha"), "beta should come before alpha (beta depends on alpha). Labels: {:?}", labels);
}

#[test]
fn layout_test_crate_dep_suppressed_for_entry_point_module_dep() {
    let mut graph = ArcGraph::new();
    let crate_a = graph.add_node(crate_node("crate_a", "/path/a"));
    let mod_a = graph.add_node(module_node("mod_a", crate_a));
    let crate_b = graph.add_node(crate_node("crate_b", "/path/b"));
    graph.add_edge(crate_a, mod_a, Edge::Contains);
    graph.add_edge(crate_a, crate_b, crate_dep());
    graph.add_edge(
        mod_a,
        crate_b,
        module_dep(vec![SourceLocation {
            file: "src/mod_a.rs".to_string(),
            line: 1,
            symbols: vec!["Helper".to_string()],
            mod_path: "crate_b".to_string(),
        }]),
    );
    let cycles: Vec<Cycle> = vec![];
    let order = topo_sort(&graph, &cycles);
    let ir = build_layout(&graph, &order, &cycles);
    assert_eq!(ir.items.len(), 3);
    assert_eq!(
        ir.edges.len(),
        1,
        "CrateDep should be suppressed when ModuleDep exists. Edges: {:?}",
        ir.edges
            .iter()
            .map(|e| format!("{}->{} locs={}", ir.items[e.from].label, ir.items[e.to].label, e.source_locations.len()))
            .collect::<Vec<_>>()
    );
    assert!(!ir.edges[0].source_locations.is_empty(), "Remaining edge should be ModuleDep with source_locations");
}

#[test]
fn layout_test_crate_dep_suppressed_for_crate_to_crate_module_dep() {
    let mut graph = ArcGraph::new();
    let crate_a = graph.add_node(crate_node("crate_a", "/path/a"));
    let crate_b = graph.add_node(crate_node("crate_b", "/path/b"));
    graph.add_edge(crate_a, crate_b, crate_dep());
    graph.add_edge(
        crate_a,
        crate_b,
        module_dep(vec![SourceLocation {
            file: "src/lib.rs".to_string(),
            line: 3,
            symbols: vec!["Config".to_string()],
            mod_path: "crate_b".to_string(),
        }]),
    );
    let cycles: Vec<Cycle> = vec![];
    let order = topo_sort(&graph, &cycles);
    let ir = build_layout(&graph, &order, &cycles);
    assert_eq!(ir.edges.len(), 1, "CrateDep should be suppressed for Crate→Crate ModuleDep");
    assert!(!ir.edges[0].source_locations.is_empty(), "Remaining edge should be ModuleDep");
}

#[test]
fn layout_test_crate_dep_suppressed_for_crate_to_module_module_dep() {
    let mut graph = ArcGraph::new();
    let crate_a = graph.add_node(crate_node("crate_a", "/path/a"));
    let crate_b = graph.add_node(crate_node("crate_b", "/path/b"));
    let mod_b = graph.add_node(module_node("mod_b", crate_b));
    graph.add_edge(crate_b, mod_b, Edge::Contains);
    graph.add_edge(crate_a, crate_b, crate_dep());
    graph.add_edge(
        crate_a,
        mod_b,
        module_dep(vec![SourceLocation {
            file: "src/lib.rs".to_string(),
            line: 5,
            symbols: vec!["parse".to_string()],
            mod_path: "mod_b".to_string(),
        }]),
    );
    let cycles: Vec<Cycle> = vec![];
    let order = topo_sort(&graph, &cycles);
    let ir = build_layout(&graph, &order, &cycles);
    assert_eq!(ir.edges.len(), 1, "CrateDep should be suppressed for Crate→Module ModuleDep");
    assert!(!ir.edges[0].source_locations.is_empty(), "Remaining edge should be ModuleDep");
}

#[test]
fn layout_test_subtree_dependency_ordering() {
    let mut graph = ArcGraph::new();
    let crate_idx = graph.add_node(crate_node("test_crate", "/test"));
    let parent_a = graph.add_node(module_node("parent_a", crate_idx));
    let parent_b = graph.add_node(module_node("parent_b", crate_idx));
    let child_a = graph.add_node(module_node("child_a", crate_idx));
    let child_b = graph.add_node(module_node("child_b", crate_idx));
    graph.add_edge(crate_idx, parent_a, Edge::Contains);
    graph.add_edge(crate_idx, parent_b, Edge::Contains);
    graph.add_edge(parent_a, child_a, Edge::Contains);
    graph.add_edge(parent_b, child_b, Edge::Contains);
    graph.add_edge(child_a, child_b, module_dep(vec![]));
    let cycles: Vec<Cycle> = vec![];
    let order = topo_sort(&graph, &cycles);
    let ir = build_layout(&graph, &order, &cycles);
    let labels: Vec<&str> = ir.items.iter().map(|i| i.label.as_str()).collect();
    let pos = |l: &str| labels.iter().position(|&x| x == l).unwrap();
    assert!(pos("parent_a") < pos("parent_b"), "parent_a should come before parent_b (subtree dependency). Labels: {:?}", labels);
}

#[test]
fn layout_test_crate_order_respects_inter_crate_module_deps() {
    let mut graph = ArcGraph::new();
    let crate_b = graph.add_node(crate_node("crate_b", "/b"));
    let crate_a = graph.add_node(crate_node("crate_a", "/a"));
    let mod_a = graph.add_node(module_node("mod_a", crate_a));
    let mod_b = graph.add_node(module_node("mod_b", crate_b));
    graph.add_edge(crate_a, mod_a, Edge::Contains);
    graph.add_edge(crate_b, mod_b, Edge::Contains);
    graph.add_edge(mod_a, mod_b, module_dep(vec![]));
    let cycles: Vec<Cycle> = vec![];
    let order = topo_sort(&graph, &cycles);
    let ir = build_layout(&graph, &order, &cycles);
    let labels: Vec<&str> = ir.items.iter().map(|i| i.label.as_str()).collect();
    let pos = |l: &str| labels.iter().position(|&x| x == l).unwrap();
    assert!(pos("crate_a") < pos("crate_b"), "crate_a should come before crate_b (inter-crate module dep). Labels: {:?}", labels);
    let mod_a_to_mod_b = ir.edges.iter().find(|e| ir.items[e.from].label == "mod_a" && ir.items[e.to].label == "mod_b");
    assert!(mod_a_to_mod_b.is_some(), "Should have edge from mod_a to mod_b");
    assert_eq!(mod_a_to_mod_b.unwrap().kind, EdgeKind::Downward, "Inter-crate module dep should be Downward, not Upward");
}

#[test]
fn test_sort_with_cycle_breaking_two_node_cycle() {
    let mut graph = ArcGraph::new();
    let beta = graph.add_node(crate_node("beta", ""));
    let alpha = graph.add_node(crate_node("alpha", ""));
    graph.add_edge(alpha, beta, crate_dep());
    graph.add_edge(beta, alpha, module_dep(vec![]));
    let cycles = detect_cycles(&graph);
    assert!(cycles.is_empty(), "No pure ModuleDep cycle expected");
    let sorted = topo_sort(&graph, &cycles);
    assert_eq!(names_of(&graph, &sorted), vec!["alpha", "beta"], "SCC should be sorted alphabetically");
}

#[test]
fn test_sort_with_cycle_breaking_three_node_partial() {
    let mut graph = ArcGraph::new();
    let gamma = graph.add_node(crate_node("gamma", ""));
    let beta = graph.add_node(crate_node("beta", ""));
    let alpha = graph.add_node(crate_node("alpha", ""));
    graph.add_edge(alpha, beta, crate_dep());
    graph.add_edge(alpha, gamma, crate_dep());
    graph.add_edge(beta, alpha, module_dep(vec![]));
    let cycles = detect_cycles(&graph);
    assert!(cycles.is_empty(), "No pure ModuleDep cycle expected");
    let sorted = topo_sort(&graph, &cycles);
    assert_eq!(names_of(&graph, &sorted), vec!["alpha", "beta", "gamma"], "SCC [alpha,beta] alphabetical, then gamma (dependent)");
}

#[test]
fn test_sort_with_cycle_breaking_combined_levels() {
    let mut graph = ArcGraph::new();
    let beta = graph.add_node(crate_node("beta", ""));
    let alpha = graph.add_node(crate_node("alpha", ""));
    let mod_b = graph.add_node(module_node("mod_b", alpha));
    let mod_a = graph.add_node(module_node("mod_a", alpha));
    graph.add_edge(alpha, mod_a, Edge::Contains);
    graph.add_edge(alpha, mod_b, Edge::Contains);
    graph.add_edge(mod_a, mod_b, module_dep(vec![]));
    graph.add_edge(mod_b, mod_a, module_dep(vec![]));
    graph.add_edge(alpha, beta, crate_dep());
    graph.add_edge(beta, alpha, module_dep(vec![]));
    let cycles = detect_cycles(&graph);
    assert_eq!(cycles.len(), 1, "Should detect Ebene-1 cycle (mod_a ↔ mod_b)");
    let sorted = topo_sort(&graph, &cycles);
    let names = names_of(&graph, &sorted);
    let pos = |n: &str| names.iter().position(|x| x == n).unwrap();
    assert!(pos("alpha") < pos("beta"), "alpha before beta (Ebene-2 SCC alphabetical). Got: {:?}", names);
    assert!(pos("mod_a") < pos("mod_b"), "mod_a before mod_b (Ebene-1 cycle alphabetical). Got: {:?}", names);
    assert_eq!(names.len(), 4, "All nodes present. Got: {:?}", names);
}

#[test]
fn stable_toposort_breaks_ties_by_name() {
    let mut graph = ArcGraph::new();
    let c = graph.add_node(module_node("c", 0));
    let a = graph.add_node(module_node("a", 0));
    let b = graph.add_node(module_node("b", 0));
    let mut deps: DiGraph<usize, ()> = DiGraph::new();
    let nc = deps.add_node(c);
    deps.add_node(a);
    let nb = deps.add_node(b);
    // c must come before b; a is free and first by name
    deps.add_edge(nc, nb, ());
    let order = stable_toposort(&deps, &vec![c, a, b], &graph);
    assert_eq!(names_of(&graph, &order), vec!["a", "c", "b"]);
}

#[test]
fn stable_toposort_is_empty_on_a_cycle() {
    let mut graph = ArcGraph::new();
    let a = graph.add_node(module_node("a", 0));
    let b = graph.add_node(module_node("b", 0));
    let mut deps: DiGraph<usize, ()> = DiGraph::new();
    let na = deps.add_node(a);
    let nb = deps.add_node(b);
    deps.add_edge(na, nb, ());
    deps.add_edge(nb, na, ());
    assert!(stable_toposort(&deps, &vec![a, b], &graph).is_empty());
}
