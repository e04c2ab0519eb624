use dls::imports::FileText;
use dls::walker::Walker;

fn ft(path: &str, text: &str) -> FileText {
    FileText { path: path.to_string(), text: text.to_string() }
}

#[test]
fn extraction_finds_default_import_specifiers() {
    let w = Walker::new(
        "/nonexistent_root_for_extraction".to_string(),
        vec!["a.ts".to_string(), "b.ts".to_string()],
        vec![ft("a.ts", "import b from \"./b\"\nimport react from \"react\"\n")],
    );
    assert_eq!(w.imports.len(), 1);
    assert_eq!(w.imports[0].path, "a.ts".to_string());
    let specs: Vec<String> =
        w.imports[0].records.iter().map(|r| r.specifier.clone()).collect();
    assert_eq!(specs, vec!["./b".to_string(), "react".to_string()]);
}

#[test]
fn bare_specifier_record_carries_no_target() {
    let w = Walker::new(
        "/nonexistent_root_for_extraction".to_string(),
        vec!["a.ts".to_string()],
        vec![ft("a.ts", "import react from \"react\"\n")],
    );
    assert_eq!(w.imports[0].records.len(), 1);
    assert!(w.imports[0].records[0].target.is_none());
}

#[test]
fn dynamic_imports_and_reexports_are_not_extracted() {
    let w = Walker::new(
        "/nonexistent_root_for_extraction".to_string(),
        vec!["a.ts".to_string()],
        vec![ft("a.ts", "const m = import(\"./d\")\nexport * from \"./e\"\n")],
    );
    assert_eq!(w.imports[0].records.len(), 0);
}

#[test]
fn empty_source_yields_no_records() {
    let w = Walker::new(
        "/nonexistent_root_for_extraction".to_string(),
        vec!["a.ts".to_string()],
        vec![ft("a.ts", "")],
    );
    assert_eq!(w.imports[0].records.len(), 0);
}

#[test]
fn json_content_yields_no_records() {
    let w = Walker::new(
        "/nonexistent_root_for_extraction".to_string(),
        vec!["c.json".to_string()],
        vec![ft("c.json", "{ \"name\": \"demo\" }\n")],
    );
    assert_eq!(w.imports[0].records.len(), 0);
}

#[test]
fn unresolvable_relative_import_gives_no_edge_end_to_end() {
    let mut w = Walker::new(
        "/nonexistent_root_for_extraction".to_string(),
        vec!["a.ts".to_string(), "b.ts".to_string()],
        vec![ft("a.ts", "import b from \"./b\"\n")],
    );
    assert_eq!(w.imports[0].records.len(), 1);
    assert!(w.imports[0].records[0].target.is_none());
    w.collect_all();
    assert_eq!(w.graph.node_count(), 2);
    assert_eq!(w.graph.edge_count(), 0);
}
