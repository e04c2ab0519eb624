use dls::imports::{FileImports, ImportRecord};
use dls::walker::Walker;

fn rec(specifier: &str, target: Option<&str>) -> ImportRecord {
    ImportRecord { specifier: specifier.to_string(), target: target.map(|t| t.to_string()) }
}

fn fi(path: &str, records: Vec<ImportRecord>) -> FileImports {
    FileImports { path: path.to_string(), records }
}

fn strs(v: &[&str]) -> Vec<String> {
    v.iter().map(|s| s.to_string()).collect()
}

fn has_edge(w: &Walker, a: &str, b: &str) -> bool {
    w.graph.has_edge_named(&a.to_string(), &b.to_string())
}

fn has_node(w: &Walker, l: &str) -> bool {
    w.graph.find_node(&l.to_string()).is_some()
}

#[test]
fn scenario_linear_chain() {
    let mut w = Walker::with_imports(
        "/proj".to_string(),
        strs(&["a.ts", "b.ts", "c.json"]),
        vec![
            fi("a.ts", vec![rec("./b", Some("b.ts"))]),
            fi("b.ts", vec![rec("./c.json", Some("c.json"))]),
            fi("c.json", vec![]),
        ],
    );
    w.collect_all();
    assert_eq!(w.graph.node_count(), 3);
    assert!(has_node(&w, "a.ts"));
    assert!(has_node(&w, "b.ts"));
    assert!(has_node(&w, "c.json"));
    assert_eq!(w.graph.edge_count(), 2);
    assert!(has_edge(&w, "a.ts", "b.ts"));
    assert!(has_edge(&w, "b.ts", "c.json"));
    assert!(!has_edge(&w, "a.ts", "c.json"));
    assert!(!has_edge(&w, "b.ts", "a.ts"));
}

#[test]
fn scenario_import_cycle_terminates() {
    let mut w = Walker::with_imports(
        "/proj".to_string(),
        strs(&["x.ts", "y.ts"]),
        vec![
            fi("x.ts", vec![rec("./y", Some("y.ts"))]),
            fi("y.ts", vec![rec("./x", Some("x.ts"))]),
        ],
    );
    w.collect_all();
    assert_eq!(w.graph.node_count(), 2);
    assert_eq!(w.graph.edge_count(), 2);
    assert!(has_edge(&w, "x.ts", "y.ts"));
    assert!(has_edge(&w, "y.ts", "x.ts"));
}

#[test]
fn self_import_cycle_terminates() {
    let mut w = Walker::with_imports(
        "/proj".to_string(),
        strs(&["x.ts"]),
        vec![fi("x.ts", vec![rec("./x", Some("x.ts"))])],
    );
    w.collect_all();
    assert_eq!(w.graph.node_count(), 1);
    assert_eq!(w.graph.edge_count(), 1);
    assert!(has_edge(&w, "x.ts", "x.ts"));
}

#[test]
fn untracked_target_is_excluded() {
    let mut w = Walker::with_imports(
        "/proj".to_string(),
        strs(&["a.ts"]),
        vec![fi("a.ts", vec![rec("./gen", Some("gen.ts"))])],
    );
    w.collect_all();
    assert_eq!(w.graph.node_count(), 1);
    assert!(!has_node(&w, "gen.ts"));
    assert_eq!(w.graph.edge_count(), 0);
}

#[test]
fn leaf_extension_has_no_outgoing_edge() {
    let mut w = Walker::with_imports(
        "/proj".to_string(),
        strs(&["img.png", "a.ts"]),
        vec![fi("img.png", vec![rec("./a", Some("a.ts"))])],
    );
    w.collect_all();
    assert_eq!(w.graph.node_count(), 2);
    assert!(has_node(&w, "img.png"));
    assert!(!has_edge(&w, "img.png", "a.ts"));
    assert_eq!(w.graph.edge_count(), 0);
}

#[test]
fn bare_specifier_is_excluded() {
    let mut w = Walker::with_imports(
        "/proj".to_string(),
        strs(&["a.ts", "b.ts"]),
        vec![fi("a.ts", vec![rec("react", Some("b.ts")), rec("./b", Some("b.ts"))])],
    );
    w.collect_all();
    assert_eq!(w.graph.edge_count(), 1);
    assert!(has_edge(&w, "a.ts", "b.ts"));
}

#[test]
fn unresolved_import_is_skipped() {
    let mut w = Walker::with_imports(
        "/proj".to_string(),
        strs(&["a.ts", "b.ts", "c.ts"]),
        vec![
            fi("a.ts", vec![rec("./missing", None), rec("./b", Some("b.ts"))]),
            fi("c.ts", vec![rec("./b", Some("b.ts"))]),
        ],
    );
    w.collect_all();
    assert_eq!(w.graph.node_count(), 3);
    assert_eq!(w.graph.edge_count(), 2);
    assert!(has_edge(&w, "a.ts", "b.ts"));
    assert!(has_edge(&w, "c.ts", "b.ts"));
}

#[test]
fn repeated_import_gives_one_edge() {
    let mut w = Walker::with_imports(
        "/proj".to_string(),
        strs(&["a.ts", "b.ts"]),
        vec![fi("a.ts", vec![rec("./b", Some("b.ts")), rec("./b", Some("b.ts"))])],
    );
    w.collect_all();
    assert_eq!(w.graph.edge_count(), 1);
    assert!(has_edge(&w, "a.ts", "b.ts"));
}

#[test]
fn duplicate_universe_entry_gives_one_node() {
    let mut w = Walker::with_imports(
        "/proj".to_string(),
        strs(&["a.ts", "a.ts"]),
        vec![fi("a.ts", vec![])],
    );
    w.collect_all();
    assert_eq!(w.graph.node_count(), 1);
}

#[test]
fn never_imported_file_still_becomes_node() {
    let mut w = Walker::with_imports(
        "/proj".to_string(),
        strs(&["a.ts", "lonely.ts"]),
        vec![fi("a.ts", vec![]), fi("lonely.ts", vec![])],
    );
    w.collect_all();
    assert_eq!(w.graph.node_count(), 2);
    assert!(has_node(&w, "lonely.ts"));
    assert_eq!(w.graph.edge_count(), 0);
}

#[test]
fn first_table_entry_wins() {
    let mut w = Walker::with_imports(
        "/proj".to_string(),
        strs(&["a.ts", "b.ts", "c.ts"]),
        vec![
            fi("a.ts", vec![rec("./b", Some("b.ts"))]),
            fi("a.ts", vec![rec("./c", Some("c.ts"))]),
        ],
    );
    w.collect_all();
    assert!(has_edge(&w, "a.ts", "b.ts"));
    assert!(!has_edge(&w, "a.ts", "c.ts"));
    assert_eq!(w.graph.edge_count(), 1);
}

#[test]
fn edge_weight_is_presence_marker() {
    let mut w = Walker::with_imports(
        "/proj".to_string(),
        strs(&["a.ts", "b.ts"]),
        vec![fi("a.ts", vec![rec("./b", Some("b.ts"))])],
    );
    w.collect_all();
    assert_eq!(w.graph.edge_count(), 1);
    assert_eq!(w.graph.edge_weight(0), 1);
    let (from, to) = w.graph.edge_at(0);
    assert_eq!(w.graph.node_label(from), "a.ts".to_string());
    assert_eq!(w.graph.node_label(to), "b.ts".to_string());
}

#[test]
fn collect_ignores_untracked_entry() {
    let mut w = Walker::with_imports("/proj".to_string(), Vec::new(), Vec::new());
    w.collect(&"a.ts".to_string(), None);
    assert_eq!(w.graph.node_count(), 0);
    assert_eq!(w.graph.edge_count(), 0);
}

#[test]
fn collect_with_parent_adds_edge_once() {
    let mut w = Walker::with_imports(
        "/proj".to_string(),
        strs(&["a.ts", "b.ts"]),
        vec![],
    );
    w.collect(&"a.ts".to_string(), None);
    assert_eq!(w.graph.node_count(), 1);
    let a = w.graph.find_node(&"a.ts".to_string()).unwrap();
    w.collect(&"b.ts".to_string(), Some(a));
    assert_eq!(w.graph.edge_count(), 1);
    assert!(has_edge(&w, "a.ts", "b.ts"));
    w.collect(&"b.ts".to_string(), Some(a));
    assert_eq!(w.graph.edge_count(), 1);
}
