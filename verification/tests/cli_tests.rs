use cargo_arc::cli::{format_cycle_errors, Args};
use cargo_arc::graph::{ArcGraph, Node};
use cargo_arc::layout::Cycle;

/// A graph with one crate and the named modules; returns their indices.
fn test_graph(names: &[&str]) -> (ArcGraph, Vec<usize>) {
    let mut graph = ArcGraph::new();
    let crate_idx = graph.add_node(Node::Crate { name: "test".into(), path: "/test".into() });
    let indices = names
        .iter()
        .map(|name| graph.add_node(Node::Module { name: (*name).into(), crate_idx }))
        .collect();
    (graph, indices)
}

#[test]
fn format_cycle_errors_transitive() {
    let (graph, idx) = test_graph(&["A", "B", "C"]);
    let cycles = vec![Cycle { nodes: vec![idx[0], idx[1], idx[2]] }];
    let output = format_cycle_errors(&graph, &cycles);
    assert!(output.contains("error[cycle]: A -> B -> C -> A"));
}

#[test]
fn format_cycle_errors_direct() {
    let (graph, idx) = test_graph(&["A", "B"]);
    let cycles = vec![Cycle { nodes: vec![idx[0], idx[1]] }];
    let output = format_cycle_errors(&graph, &cycles);
    assert!(output.contains("error[cycle]: A <-> B"));
}

#[test]
fn format_cycle_errors_empty() {
    let (graph, _) = test_graph(&["A", "B"]);
    let output = format_cycle_errors(&graph, &vec![]);
    assert!(output.is_empty());
}

#[test]
fn format_cycle_errors_summary() {
    let (graph, idx) = test_graph(&["A", "B", "C", "D"]);
    let cycles = vec![Cycle { nodes: vec![idx[0], idx[1]] }, Cycle { nodes: vec![idx[2], idx[3]] }];
    let output = format_cycle_errors(&graph, &cycles);
    assert!(output.contains("error: found 2 cycle(s) in dependency graph"));
    assert_eq!(output, "error[cycle]: A <-> B\nerror[cycle]: C <-> D\n\nerror: found 2 cycle(s) in dependency graph\n");
}

#[test]
fn format_cycle_errors_counts_in_decimal() {
    let names: Vec<String> = (0..24).map(|i| format!("M{i}")).collect();
    let refs: Vec<&str> = names.iter().map(|s| s.as_str()).collect();
    let (graph, idx) = test_graph(&refs);
    let cycles: Vec<Cycle> = (0..12).map(|k| Cycle { nodes: vec![idx[2 * k], idx[2 * k + 1]] }).collect();
    let output = format_cycle_errors(&graph, &cycles);
    assert!(output.ends_with("error: found 12 cycle(s) in dependency graph\n"));
}

#[test]
fn feature_config_follows_the_options() {
    let args = Args {
        output: None,
        manifest_path: "Cargo.toml".to_string(),
        features: vec!["web".to_string(), "server".to_string()],
        all_features: false,
        no_default_features: true,
        include_tests: true,
        check: false,
        debug: false,
        volatility: false,
        no_volatility: false,
        volatility_months: 6,
        volatility_low: 2,
        volatility_high: 10,
        externals: false,
        transitive_deps: false,
    };
    let cfg = args.feature_config();
    assert_eq!(cfg.features, vec!["web".to_string(), "server".to_string()]);
    assert!(cfg.no_default_features);
    assert!(cfg.include_tests);
    assert!(!cfg.all_features);
}
