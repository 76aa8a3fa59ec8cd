use cargo_arc::js_registry::{
    active_source_lines, declared_module_name, generate_modules_rs, is_module_file, parse_js_annotations, topo_sort,
    validate_source_deps, JsModuleInfo, JsOrderError, UndeclaredReference,
};

fn module(name: &str, file_name: &str, deps: &[&str], config_keys: &[&str]) -> JsModuleInfo {
    JsModuleInfo {
        name: name.to_string(),
        file_name: file_name.to_string(),
        deps: deps.iter().map(|s| s.to_string()).collect(),
        config_keys: config_keys.iter().map(|s| s.to_string()).collect(),
    }
}

fn names_in_order(modules: &[JsModuleInfo], order: &[usize]) -> Vec<String> {
    order.iter().map(|&i| modules[i].name.clone()).collect()
}

#[test]
fn test_parse_annotations_full() {
    let content = "\
// @module SvgScript
// @deps ArcLogic, StaticData, AppState
// @config ROW_HEIGHT, MARGIN, TOOLBAR_HEIGHT
// svg_script.js
";
    let info = parse_js_annotations(content, "svg_script.js");
    assert_eq!(info.name, "SvgScript");
    assert_eq!(info.file_name, "svg_script.js");
    assert_eq!(info.deps, vec!["ArcLogic", "StaticData", "AppState"]);
    assert_eq!(info.config_keys, vec!["ROW_HEIGHT", "MARGIN", "TOOLBAR_HEIGHT"]);
}

#[test]
fn test_parse_annotations_no_deps() {
    let content = "\
// @module ArcLogic
// @deps
// @config
// arc_logic.js
";
    let info = parse_js_annotations(content, "arc_logic.js");
    assert_eq!(info.name, "ArcLogic");
    assert!(info.deps.is_empty());
    assert!(info.config_keys.is_empty());
}

#[test]
fn test_parse_annotations_single_dep() {
    let content = "\
// @module StaticData
// @deps ArcLogic
// @config
// static_data.js
";
    let info = parse_js_annotations(content, "static_data.js");
    assert_eq!(info.deps, vec!["ArcLogic"]);
}

#[test]
fn test_is_module_file() {
    assert!(is_module_file("foo.js"));
    assert!(is_module_file("arc_logic.js"));
    assert!(!is_module_file("foo.test.js"));
    assert!(!is_module_file("foo.rs"));
    assert!(!is_module_file("foo.ts"));
}

#[test]
fn test_generate_modules_rs_config_keys() {
    let modules = vec![module("M", "m.js", &[], &["ROW_HEIGHT", "MARGIN"])];
    let sorted = vec![0];
    let output = generate_modules_rs(&modules, &sorted);
    assert!(output.contains("config_keys: &[\"ROW_HEIGHT\", \"MARGIN\"]"));
}

#[test]
fn test_source_scan_ignores_comments() {
    let modules = vec![module("ArcLogic", "arc_logic.js", &[], &[]), module("Foo", "foo.js", &[], &[])];
    let sources = vec![
        "const ArcLogic = {};",
        "// ArcLogic.calc is loaded before\n * ArcLogic.stuff in JSDoc\nvar x = 1;",
    ];
    assert!(validate_source_deps(&modules, &sources).is_ok());
}

#[test]
fn test_source_scan_ignores_commonjs() {
    let modules = vec![module("ArcLogic", "arc_logic.js", &[], &[]), module("Foo", "foo.js", &[], &[])];
    let sources = vec![
        "const ArcLogic = {};",
        "var x = 1;\nif (typeof module !== 'undefined') {\n  module.exports = { ArcLogic };\n}",
    ];
    assert!(validate_source_deps(&modules, &sources).is_ok());
}

#[test]
fn test_source_scan_self_reference_ok() {
    let modules = vec![module("ArcLogic", "arc_logic.js", &[], &[])];
    let sources = vec!["const ArcLogic = {};\nArcLogic.calc = function() {};"];
    assert!(validate_source_deps(&modules, &sources).is_ok());
}

// --- further cases ---

#[test]
fn missing_module_annotation_is_detected_before_parsing() {
    assert_eq!(declared_module_name("// just a comment\nfunction foo() {}\n"), None);
    assert_eq!(declared_module_name("// @module A\n"), Some("A".to_string()));
    // only the first five lines count, and a later annotation wins
    assert_eq!(declared_module_name("\n\n\n\n\n// @module Late\n"), None);
    assert_eq!(declared_module_name("// @module A\n// @module B\n"), Some("B".to_string()));
}

#[test]
fn source_scan_reports_first_undeclared_reference() {
    let modules = vec![module("ArcLogic", "arc_logic.js", &[], &[]), module("Foo", "foo.js", &[], &[])];
    let sources = vec!["const ArcLogic = {};", "var x = ArcLogic.calc();"];
    assert_eq!(
        validate_source_deps(&modules, &sources),
        Err(UndeclaredReference { module: 1, referenced: 0 })
    );
    let modules = vec![module("ArcLogic", "arc_logic.js", &[], &[]), module("Foo", "foo.js", &["ArcLogic"], &[])];
    assert!(validate_source_deps(&modules, &sources).is_ok());
}

#[test]
fn active_lines_skip_comments_and_stop_at_export() {
    let src = "  a();\n// c\n * d\n\tb();\nif (typeof module !== 'undefined') {\nz();\n";
    assert_eq!(active_source_lines(src), vec!["a();".to_string(), "b();".to_string()]);
}

#[test]
fn topo_sort_orders_dependencies_first_then_by_name() {
    let modules = vec![module("C", "c.js", &["B"], &[]), module("B", "b.js", &["A"], &[]), module("A", "a.js", &[], &[])];
    let sorted = topo_sort(&modules).unwrap();
    assert_eq!(names_in_order(&modules, &sorted), vec!["A", "B", "C"]);
    let modules = vec![
        module("Selectors", "selectors.js", &[], &[]),
        module("ArcLogic", "arc_logic.js", &[], &[]),
        module("AppState", "app_state.js", &[], &[]),
    ];
    let sorted = topo_sort(&modules).unwrap();
    assert_eq!(names_in_order(&modules, &sorted), vec!["AppState", "ArcLogic", "Selectors"]);
    let modules = vec![module("C", "c.js", &["A", "B"], &[]), module("B", "b.js", &[], &[]), module("A", "a.js", &[], &[])];
    let sorted = topo_sort(&modules).unwrap();
    assert_eq!(names_in_order(&modules, &sorted), vec!["A", "B", "C"]);
}

#[test]
fn topo_sort_reports_cycles_and_unknown_dependencies() {
    let modules = vec![module("A", "a.js", &["B"], &[]), module("B", "b.js", &["A"], &[]), module("C", "c.js", &[], &[])];
    match topo_sort(&modules) {
        Err(JsOrderError::Cycle { remaining }) => assert_eq!(remaining, vec![0, 1]),
        other => panic!("expected a cycle, got {other:?}"),
    }
    let modules = vec![module("A", "a.js", &["X"], &[])];
    match topo_sort(&modules) {
        Err(JsOrderError::UnknownDependency { module, dep }) => assert_eq!((module, dep), (0, 0)),
        other => panic!("expected an unknown dependency, got {other:?}"),
    }
}

#[test]
fn generated_table_lists_modules_in_order() {
    let modules = vec![module("B", "b.js", &["A"], &[]), module("A", "a.js", &[], &["KEY1"])];
    let sorted = topo_sort(&modules).unwrap();
    let output = generate_modules_rs(&modules, &sorted);
    assert!(output.contains("struct JsModule"));
    assert!(output.contains("const MODULES: &[JsModule]"));
    assert_eq!(output.matches("JsModule {").count(), 3);
    let pos_a = output.find("name: \"A\"").unwrap();
    let pos_b = output.find("name: \"B\"").unwrap();
    assert!(pos_a < pos_b);
    assert!(output.contains("/js/a.js"));
    assert!(output.contains("config_keys: &[\"KEY1\"],\n"));
    assert!(output.contains("config_keys: &[],\n"));
    assert!(output.ends_with("];\n"));
}

#[test]
fn topo_sort_puts_every_declared_dependency_first_and_is_deterministic() {
    let modules = vec![
        module("Zeta", "zeta.js", &["Alpha", "Mid"], &[]),
        module("Mid", "mid.js", &["Alpha"], &[]),
        module("Beta", "beta.js", &[], &[]),
        module("Alpha", "alpha.js", &[], &[]),
    ];
    let sorted = topo_sort(&modules).unwrap();
    assert_eq!(sorted, topo_sort(&modules).unwrap());
    let order = names_in_order(&modules, &sorted);
    let pos = |n: &str| order.iter().position(|x| x == n).unwrap();
    for m in &modules {
        for d in &m.deps {
            assert!(pos(d) < pos(&m.name));
        }
    }
    assert_eq!(order, vec!["Alpha", "Beta", "Mid", "Zeta"]);
}
