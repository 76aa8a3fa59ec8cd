use cargo_arc::layout::{EdgeKind, ItemKind, LayoutEdge, LayoutIR, LayoutItem};
use cargo_arc::model::SourceLocation;

#[test]
fn layout_test_layout_edge_has_source_locations() {
    let edge = LayoutEdge {
        from: 0,
        to: 1,
        kind: EdgeKind::Downward,
        source_locations: vec![SourceLocation {
            file: "src/cli.rs".to_string(),
            line: 42,
            symbols: vec![],
            mod_path: String::new(),
        }],
    };
    assert_eq!(edge.source_locations.len(), 1);
    assert_eq!(edge.source_locations[0].line, 42);
}

#[test]
fn layout_test_layout_item_creation() {
    let crate_item = LayoutItem { id: 0, kind: ItemKind::Crate, label: "my_crate".to_string(), source_path: None, volatility: None };
    let module_item = LayoutItem {
        id: 1,
        kind: ItemKind::Module { nesting: 1, parent: 0 },
        label: "my_module".to_string(),
        source_path: None,
        volatility: None,
    };
    assert_eq!(crate_item.label, "my_crate");
    assert_eq!(module_item.id, 1);
    match module_item.kind {
        ItemKind::Module { nesting, parent } => {
            assert_eq!(nesting, 1);
            assert_eq!(parent, 0);
        }
        _ => panic!("Expected Module"),
    }
}

#[test]
fn layout_test_layout_edge_kinds() {
    let normal = LayoutEdge { from: 0, to: 1, kind: EdgeKind::Downward, source_locations: vec![] };
    let direct = LayoutEdge { from: 1, to: 0, kind: EdgeKind::DirectCycle, source_locations: vec![] };
    let trans = LayoutEdge { from: 2, to: 3, kind: EdgeKind::TransitiveCycle, source_locations: vec![] };
    assert_eq!(normal.from, 0);
    assert!(matches!(direct.kind, EdgeKind::DirectCycle));
    assert!(matches!(trans.kind, EdgeKind::TransitiveCycle));
}

#[test]
fn layout_test_layout_ir_builder() {
    let mut ir = LayoutIR::new();
    let crate_id = ir.add_item(ItemKind::Crate, "my_crate".to_string());
    let mod_id = ir.add_item(ItemKind::Module { nesting: 1, parent: crate_id }, "my_module".to_string());
    ir.add_edge(crate_id, mod_id, EdgeKind::Downward, vec![]);
    assert_eq!(ir.items.len(), 2);
    assert_eq!(ir.edges.len(), 1);
    assert_eq!(ir.items[crate_id].label, "my_crate");
}

#[test]
fn layout_test_layout_item_default_source_path_is_none() {
    let mut ir = LayoutIR::new();
    let id = ir.add_item(ItemKind::Crate, "test".to_string());
    assert!(ir.items[id].source_path.is_none());
}

#[test]
fn layout_test_layout_item_default_volatility_is_none() {
    let mut ir = LayoutIR::new();
    let id = ir.add_item(ItemKind::Crate, "test".to_string());
    assert!(ir.items[id].volatility.is_none());
}
