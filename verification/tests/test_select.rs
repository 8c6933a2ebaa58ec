use vmz_compiler::test_select::select_tests;

fn e(c: &str, t: &str, m: &str) -> (String, String, String) {
    (c.to_string(), t.to_string(), m.to_string())
}

#[test]
fn tests_of_affected_chunks_are_selected() {
    let edges = vec![
        e("pages/index", "t-index", "tests/index.test.json"),
        e("components/Card", "t-card", "tests/card.test.json"),
        e("pages/index", "t-index", "tests/index2.test.json"),
    ];
    let d = select_tests(&edges, &["pages/index".to_string()], false).unwrap();
    assert_eq!(d.test_ids, vec!["t-index".to_string()]);
    assert_eq!(d.manifest_files, vec!["tests/index.test.json".to_string(), "tests/index2.test.json".to_string()]);
    assert_eq!(d.reason, "graph→test edges: 1 test(s) selected from 3 edge(s) for 1 affected chunk(s)");
    assert_eq!(d.status, "ready");
}

#[test]
fn chunk_containment_selects_too() {
    let edges = vec![e("components/Card", "t-card", "c.test.json")];
    let d = select_tests(&edges, &["Card".to_string()], false).unwrap();
    assert_eq!(d.test_ids, vec!["t-card".to_string()]);
}

#[test]
fn no_match_is_a_preview() {
    let edges = vec![e("components/Card", "t-card", "c.test.json")];
    let d = select_tests(&edges, &["pages/x".to_string()], false).unwrap();
    assert!(d.test_ids.is_empty());
    assert_eq!(d.status, "preview");
    assert_eq!(d.reason, "graph→test edges indexed; no manifests matched affected chunks");
}

#[test]
fn full_rebuild_selects_everything() {
    let edges = vec![e("b", "t2", "b.test.json"), e("a", "t1", "a.test.json")];
    let d = select_tests(&edges, &[], true).unwrap();
    assert_eq!(d.test_ids, vec!["t1".to_string(), "t2".to_string()]);
    assert_eq!(d.reason, "full rebuild — all graph→test edges selected");
    assert!(select_tests(&edges, &[], false).is_none());
}
