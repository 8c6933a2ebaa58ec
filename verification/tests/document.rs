use std::collections::BTreeMap;

use vmz_compiler::document::{
    author_config_text, coerce_declaration_export_default, config_invalid_plan, config_missing_plan,
    normalize_document_config, CollectionWire, ConfigText, DocumentConfigFile, DocumentDiagCode, DocumentRoutePlan,
    LocaleLabelWire,
};
use vmz_compiler::json::JsonValue;

fn file_from(v: &serde_json::Value) -> DocumentConfigFile {
    let mut locales: BTreeMap<String, LocaleLabelWire> = BTreeMap::new();
    if let Some(m) = v.get("locales").and_then(|x| x.as_object()) {
        for (id, w) in m {
            let label = match w {
                serde_json::Value::String(s) => LocaleLabelWire::Label(s.clone()),
                other => LocaleLabelWire::Object { label: other.get("label").and_then(|l| l.as_str()).map(|s| s.to_string()) },
            };
            locales.insert(id.clone(), label);
        }
    }
    let mut collections: BTreeMap<String, CollectionWire> = BTreeMap::new();
    if let Some(m) = v.get("collections").and_then(|x| x.as_object()) {
        for (id, c) in m {
            collections.insert(
                id.clone(),
                CollectionWire {
                    source: c.get("source").and_then(|s| s.as_str()).map(|s| s.to_string()),
                    mount: c.get("mount").and_then(|s| s.as_str()).map(|s| s.to_string()),
                },
            );
        }
    }
    DocumentConfigFile {
        default_locale: v.get("defaultLocale").and_then(|s| s.as_str()).map(|s| s.to_string()),
        locales: locales.into_iter().collect(),
        collections: collections.into_iter().collect(),
        fallback: v.get("fallback").map(|f| match f {
            serde_json::Value::Bool(b) => JsonValue::Bool(*b),
            _ => JsonValue::Null,
        }),
    }
}

fn plan_from_source(source: &str, source_path: &str, file_name: &str) -> DocumentRoutePlan {
    let text = match author_config_text(source, file_name) {
        Ok(ConfigText::Json5(t)) | Ok(ConfigText::Declaration(t)) => t,
        Err(m) => return config_invalid_plan(source_path.to_string(), m),
    };
    let value: serde_json::Value = json5::from_str(&text).expect("json5");
    normalize_document_config(file_from(&value), source_path.to_string())
}

#[test]
fn loads_declaration_ts_source() {
    let src = r#"
/**
 * comment
 */
export default {
    defaultLocale: 'zh-hans',
    locales: {
        'zh-hans': { label: '简体中文' },
    },
    collections: {
        default: {
            source: '.',
            mount: '/d',
        },
    },
};
"#;
    let plan = plan_from_source(src, "documents/documents.config.ts", "documents.config.ts");
    assert!(!plan.has_errors(), "{:?}", plan.diagnostics);
    assert_eq!(plan.default_locale.as_deref(), Some("zh-hans"));
    assert_eq!(plan.mounts[0].route_base, "/d");
}

#[test]
fn declaration_body_drops_comments_and_semicolons() {
    let src = "// leading\n/* a */ export /* b */ default { a: 1 } ;;\n  // trailing\n";
    assert_eq!(coerce_declaration_export_default(src).unwrap(), "{ a: 1 }");
    let crlf = "export default {\r\n  b: 2 // kept\r\n};\r\n";
    assert_eq!(coerce_declaration_export_default(crlf).unwrap(), "{\n  b: 2 // kept\n}");
}

#[test]
fn declaration_refusals() {
    assert_eq!(coerce_declaration_export_default("/* open").unwrap_err(), "unclosed block comment in documents config");
    let expected = "expected `export default { \u{2026} }` (JSON-compatible declaration only)";
    assert_eq!(coerce_declaration_export_default("module.exports = {}").unwrap_err(), expected);
    assert_eq!(coerce_declaration_export_default("export const x = {}").unwrap_err(), expected);
    match author_config_text("{}", "documents.config.yaml") {
        Err(m) => assert_eq!(m, "unsupported documents config filename: documents.config.yaml"),
        Ok(_) => panic!("yaml accepted"),
    }
    assert!(matches!(author_config_text("{}", "x.json"), Ok(ConfigText::Json5(t)) if t == "{}"));
}

#[test]
fn defaults_and_modes_of_collections() {
    let plan = plan_from_source(
        "{ collections: { api: { mount: '/' }, guide: { source: 'guide', mount: '' } } }",
        "documents/documents.config.json5",
        "documents.config.json5",
    );
    assert_eq!(plan.collections.len(), 2);
    assert_eq!(plan.collections[0].id, "api");
    assert_eq!(plan.collections[0].source_root, ".");
    assert_eq!(plan.mounts[0].mode, "standalone");
    assert_eq!(plan.collections[1].route_base, "/docs");
    assert_eq!(plan.mounts[1].mode, "integrated");
    let empty = plan_from_source("{}", "documents/documents.config.json", "documents.config.json");
    assert_eq!(empty.collections.len(), 1);
    assert_eq!(empty.collections[0].id, "default");
    assert_eq!(empty.mounts[0].route_base, "/docs");
}

#[test]
fn default_locale_and_fallback_diagnostics() {
    let plan = plan_from_source(
        "{ defaultLocale: 'fr', locales: { en: 'English', de: {} }, fallback: true }",
        "documents/documents.config.json5",
        "documents.config.json5",
    );
    let codes: Vec<DocumentDiagCode> = plan.diagnostics.iter().map(|d| d.code).collect();
    assert_eq!(codes, vec![DocumentDiagCode::DefaultLocale, DocumentDiagCode::FallbackSilent]);
    assert_eq!(plan.diagnostics[0].detail, "defaultLocale fr missing from locales");
    assert!(plan.silent_fallback_requested);
    assert!(plan.has_errors());
    assert_eq!(plan.locale_labels, vec![("de".to_string(), "de".to_string()), ("en".to_string(), "English".to_string())]);
    let no_locales = plan_from_source("{ defaultLocale: 'fr' }", "p", "c.json5");
    assert!(no_locales.diagnostics.is_empty());
    assert_eq!(no_locales.default_locale.as_deref(), Some("fr"));
}

#[test]
fn missing_and_invalid_plans() {
    let missing = config_missing_plan();
    assert_eq!(missing.source_path.as_deref(), Some("documents/documents.config.json5"));
    assert_eq!(missing.diagnostics[0].severity, "warning");
    assert!(!missing.has_errors());
    assert_eq!(missing.collections.len(), 1);
    let invalid = config_invalid_plan("p".to_string(), "bad".to_string());
    assert!(invalid.has_errors());
    assert!(invalid.collections.is_empty());
}
