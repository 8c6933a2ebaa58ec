use vmz_compiler::dx_x1::{
    causal_chain_id, chunks_from_edits, find_field_spans, find_route_id_spans, is_ident_boundary, rel_path_to_chunk,
    rename_explain_chain, TextEdit,
};

#[test]
fn route_id_spans_cover_quoted_and_bare_forms() {
    let text = "<a to=\"home\">x</a> id: 'home' id: homepage id: home, \"routeId\": \"home\"";
    let spans = find_route_id_spans(text, "home");
    let starts: Vec<usize> = spans.iter().map(|s| s.0).collect();
    assert_eq!(starts, vec![7, 24, 47, 65]);
    for (s, e, id) in &spans {
        assert_eq!(*e, s + 4);
        assert_eq!(id, "home");
        assert_eq!(&text[*s..*e], "home");
    }
}

#[test]
fn route_id_spans_none_for_other_ids() {
    let text = "<a to=\"homepage\">x</a> id: homes";
    assert!(find_route_id_spans(text, "home").is_empty());
}

#[test]
fn route_id_spans_after_multibyte_text() {
    let text = "首页 to='home'";
    let spans = find_route_id_spans(text, "home");
    assert_eq!(spans.len(), 1);
    assert_eq!(spans[0].0, 11);
    assert_eq!(&text[spans[0].0..spans[0].1], "home");
}

#[test]
fn field_spans_declaration_braces_and_bindings() {
    let text = "count = 0;\nrecount = 1;\n<p>{count}</p><p if={count} each={counts} show={count.x}>{discount}</p>";
    let spans = find_field_spans(text, "count");
    assert_eq!(spans, vec![(0, 5), (28, 33), (45, 50), (72, 77)]);
}

#[test]
fn ident_boundary_checks_both_sides() {
    let text = "a count$ b_count count";
    assert!(!is_ident_boundary(text, 2, 7));
    assert!(!is_ident_boundary(text, 11, 16));
    assert!(is_ident_boundary(text, 17, 22));
    assert!(is_ident_boundary(text, 0, 1));
}

#[test]
fn rel_path_to_chunk_forms() {
    assert_eq!(rel_path_to_chunk("src/pages/x.vmz"), Some("pages/x".to_string()));
    assert_eq!(rel_path_to_chunk("./src/pages/x.vmz"), Some("pages/x".to_string()));
    assert_eq!(rel_path_to_chunk("src\\components\\Card.vmz"), Some("components/Card".to_string()));
    assert_eq!(rel_path_to_chunk("lib/a.vmz"), Some("lib/a".to_string()));
    assert_eq!(rel_path_to_chunk("src/.vmz"), None);
    assert_eq!(rel_path_to_chunk("src/../x.vmz"), None);
    assert_eq!(rel_path_to_chunk("src/pages/x.ts"), None);
}

fn edit(path: &str) -> TextEdit {
    TextEdit { path: path.into(), start: 0, end: 1, new_text: "x".into() }
}

#[test]
fn chunks_from_edits_sorted_unique() {
    let edits = vec![edit("src/pages/b.vmz"), edit("src/pages/a.vmz"), edit("README.md"), edit("./src/pages/b.vmz")];
    assert_eq!(chunks_from_edits(&edits), vec!["pages/a".to_string(), "pages/b".to_string()]);
    assert!(chunks_from_edits(&[]).is_empty());
}

#[test]
fn causal_chain_id_format() {
    assert_eq!(causal_chain_id("route_id", "home", "landing"), "rename:route_id:home->landing");
}

#[test]
fn explain_chain_links_rename_to_edits_chunks_and_tests() {
    let edits = vec![TextEdit { path: "src/pages/Index.vmz".to_string(), start: 12, end: 16, new_text: "landing".to_string() }];
    let chain = rename_explain_chain("route_id", "home", "landing", &edits, &["pages/Index".to_string()], &["a.test".to_string()]);
    assert_eq!(chain.len(), 4);
    assert_eq!(chain[0].from.kind, "route_id");
    assert_eq!(chain[0].from.id, "home");
    assert_eq!(chain[0].to.kind, "rename");
    assert_eq!(chain[0].to.id, "rename:route_id:home->landing");
    assert_eq!(chain[0].reason, "rename route_id `home` -> `landing`");
    assert_eq!(chain[0].precision.as_deref(), Some("exact"));
    assert_eq!(chain[1].to.kind, "text_edit");
    assert_eq!(chain[1].to.id, "src/pages/Index.vmz@12..16");
    assert_eq!(chain[1].reason, "workspace_edit");
    assert_eq!(chain[1].span.as_ref().map(|s| (s.start, s.end)), Some((12, 16)));
    assert_eq!(chain[2].to.kind, "chunk");
    assert_eq!(chain[2].reason, "affected_chunk");
    assert_eq!(chain[3].to.id, "a.test");
    assert_eq!(chain[3].reason, "graph_selected_test");
    assert!(chain[1..].iter().all(|e| e.from.kind == "rename" && e.from.id == "rename:route_id:home->landing"));
}
