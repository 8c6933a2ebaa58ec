use vmz_compiler::deployment_doc::deployment_units_from_text;
use vmz_compiler::diagnostic::Severity;
use vmz_compiler::reloc::declared_application_id_from_text;
use vmz_compiler::test_select::test_edge_from_text;
use vmz_compiler::token_file::{theme_meta_from_text, token_leaves_from_text};
use vmz_compiler::wechat_plan::{catalog_only_check, catalog_only_report, pack_report, pack_status, PackDiagnostic, WechatPackFile, PackCode, PackStatus, CATALOG_ONLY_CODE, CATALOG_ONLY_MESSAGE};

#[test]
fn theme_meta_of_invalid_json_is_an_error_with_defaults() {
    let m = theme_meta_from_text("designs/theme.json", "{bad");
    assert_eq!(m.default_id, "default");
    assert_eq!(m.activation_attr, "data-theme");
    assert!(m.prefers.is_empty());
    assert_eq!(m.diagnostics.len(), 1);
    assert_eq!(m.diagnostics[0].path, "designs/theme.json");
    assert_eq!(m.diagnostics[0].severity, Severity::Error);
    assert_eq!(m.diagnostics[0].message, "invalid theme.json");
}

#[test]
fn theme_meta_keeps_string_preferences_and_warns_on_others() {
    let text = r#"{"default": "light", "activationAttr": 7,
        "prefersColorScheme": {"dark": "night", "light": 3}}"#;
    let m = theme_meta_from_text("designs/theme.json", text);
    assert_eq!(m.default_id, "light");
    assert_eq!(m.activation_attr, "data-theme");
    assert_eq!(m.prefers, vec![("dark".to_string(), "night".to_string())]);
    assert_eq!(m.diagnostics.len(), 1);
    assert_eq!(m.diagnostics[0].severity, Severity::Warning);
    assert_eq!(m.diagnostics[0].message, "prefersColorScheme.light must be a theme id string");
}

#[test]
fn theme_meta_without_members_takes_defaults() {
    let m = theme_meta_from_text("t.json", "{}");
    assert_eq!(m.default_id, "default");
    assert_eq!(m.activation_attr, "data-theme");
    assert!(m.prefers.is_empty());
    assert!(m.diagnostics.is_empty());
}

#[test]
fn token_text_that_is_no_json_fails_with_json_prefix() {
    let e = token_leaves_from_text("x").unwrap_err();
    assert!(e.starts_with("json: "));
    assert!(e.len() > "json: ".len());
    assert_eq!(token_leaves_from_text("\"x\"").unwrap_err(), "expected object root");
    let leaves = token_leaves_from_text(r##"{"colors": {"action": "#fff"}}"##).unwrap();
    assert_eq!(leaves.len(), 1);
    assert_eq!(leaves[0].path, vec!["colors".to_string(), "action".to_string()]);
    assert_eq!(leaves[0].value, "#fff");
}

#[test]
fn deployment_units_keep_objects_with_a_chunk_id() {
    let text = r##"{"units": [
        1,
        {"kind": "page"},
        {"chunkId": "a", "dependsOn": ["b", 2], "serverModuleId": "#server/a",
         "clientCalls": [{"method": "m"}, {"x": 1}],
         "resumeEntries": [{"component": "c", "strategy": "s"}, {"component": "d"}]},
        {"chunkId": "z"}
    ]}"##;
    let units = deployment_units_from_text(text).expect("units");
    assert_eq!(units.len(), 2);
    assert_eq!(units[0].chunk_id, "a");
    assert_eq!(units[0].kind, "");
    assert_eq!(units[0].depends_on, vec!["b".to_string()]);
    assert!(units[0].capabilities.is_empty());
    assert_eq!(units[0].server_module_id.as_deref(), Some("#server/a"));
    assert_eq!(units[0].client_calls, vec!["m".to_string()]);
    assert_eq!(units[0].resume_entries, vec![("c".to_string(), "s".to_string())]);
    assert_eq!(units[1].chunk_id, "z");
    assert_eq!(units[1].server_module_id, None);
}

#[test]
fn deployment_units_need_a_units_array() {
    assert!(deployment_units_from_text("{\"units\": 3}").is_none());
    assert!(deployment_units_from_text("{}").is_none());
    assert!(deployment_units_from_text("nope").is_none());
    assert_eq!(deployment_units_from_text("{\"units\": []}").map(|u| u.len()), Some(0));
}

#[test]
fn declared_application_id_is_read_when_valid() {
    let ok = r#"{"vmz": {"application": {"id": "shop-app"}}}"#;
    assert_eq!(declared_application_id_from_text(ok).as_deref(), Some("shop-app"));
    assert_eq!(declared_application_id_from_text(r#"{"vmz": {"application": {"id": "bad id"}}}"#), None);
    assert_eq!(declared_application_id_from_text(r#"{"vmz": {"application": {"id": ""}}}"#), None);
    assert_eq!(declared_application_id_from_text(r#"{"vmz": {}}"#), None);
    assert_eq!(declared_application_id_from_text("x"), None);
}

#[test]
fn test_edges_come_from_program_chunk_ids() {
    let e = test_edge_from_text("t1", "tests/t1.json", r#"{"program": {"chunkId": "pages/a"}}"#);
    assert_eq!(e, Some(("pages/a".to_string(), "t1".to_string(), "tests/t1.json".to_string())));
    let e = test_edge_from_text("t1", "r", r#"{"id": "T", "program": {"chunkId": "c"}}"#);
    assert_eq!(e, Some(("c".to_string(), "T".to_string(), "r".to_string())));
    assert_eq!(test_edge_from_text("t1", "r", r#"{"id": "T"}"#), None);
    assert_eq!(test_edge_from_text("t1", "r", r#"{"program": {"chunkId": ""}}"#), None);
    assert_eq!(test_edge_from_text("t1", "r", "{"), None);
}

#[test]
fn no_program_documents_leave_the_pack_incomplete() {
    let d = catalog_only_check(0).expect("notice");
    assert_eq!(d.path, "");
    assert_eq!(d.severity, Severity::Advice);
    assert_eq!(d.message, CATALOG_ONLY_MESSAGE);
    assert_eq!(d.message, "no *.program.json \u{2014} build workspace before wechat packaging");
    assert_eq!(d.code, PackCode::CatalogOnly);
    assert_eq!(pack_status(&[d], 0), PackStatus::Incomplete);
    assert!(catalog_only_check(3).is_none());
}

#[test]
fn catalog_only_report_has_schema_root_and_printer() {
    let r = catalog_only_report();
    assert_eq!(r.schema, "vmz.target.mini_wechat_pack.v0");
    assert_eq!(r.pack_root, "dist/wechat");
    assert_eq!(r.printer, "vmz-generator");
    assert_eq!(r.status, PackStatus::Incomplete);
    assert!(r.pages.is_empty());
    assert_eq!(r.diagnostics.len(), 1);
    assert_eq!(r.diagnostics[0].severity, Severity::Advice);
    assert_eq!(r.diagnostics[0].code, PackCode::CatalogOnly);
    assert_eq!(CATALOG_ONLY_CODE, "vmz::target::mini_wechat_pack_catalog_only");
}

#[test]
fn pack_report_status_follows_errors_and_pages() {
    let page = WechatPackFile {
        chunk_id: "pages/home".to_string(),
        unit_name: "Home".to_string(),
        stem: "pages/home/home".to_string(),
        files: vec!["dist/wechat/pages/home/home.js".to_string()],
    };
    let ready = pack_report(vec![page.clone()], vec![]);
    assert_eq!(ready.status, PackStatus::Ready);
    assert_eq!(ready.schema, "vmz.target.mini_wechat_pack.v0");
    assert_eq!(ready.pack_root, "dist/wechat");
    assert_eq!(ready.printer, "vmz-generator");
    assert_eq!(ready.pages.len(), 1);
    let err = PackDiagnostic {
        path: "dist/wechat/app.json".to_string(),
        severity: Severity::Error,
        message: "write app.json failed: x".to_string(),
        code: PackCode::ArtifactInvalid,
    };
    assert_eq!(pack_report(vec![page], vec![err]).status, PackStatus::Failed);
    assert_eq!(pack_report(vec![], vec![]).status, PackStatus::Incomplete);
}
