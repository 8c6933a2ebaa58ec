use vmz_compiler::locale::{
    author_json5_to_canonical_json, detect_fallback_cycle, normalize_locale_manifest, validate_locale_id, LocaleDiagCode, LocaleEntry,
    LocaleManifestFile, LocaleRoutingPolicy,
};

fn strings(v: &[&str]) -> Vec<String> {
    v.iter().map(|s| s.to_string()).collect()
}

fn chain(from: &str, to: &[&str]) -> (String, Vec<String>) {
    (from.to_string(), strings(to))
}

#[test]
fn locale_id_forms() {
    assert_eq!(validate_locale_id("en"), Ok(()));
    assert_eq!(validate_locale_id("zh-hans"), Ok(()));
    assert_eq!(validate_locale_id("zh-hans-cn"), Ok(()));
    assert_eq!(validate_locale_id("es-419"), Ok(()));
    assert_eq!(validate_locale_id(""), Err("empty LocaleId".to_string()));
    assert_eq!(validate_locale_id("zh_CN"), Err("LocaleId must use '-' not '_': \"zh_CN\"".to_string()));
    assert_eq!(validate_locale_id("zh-Hans"), Err("LocaleId must be lowercase ASCII (got \"zh-Hans\")".to_string()));
    assert_eq!(validate_locale_id("e"), Err("LocaleId is not lowercase BCP 47 form: \"e\"".to_string()));
    assert_eq!(validate_locale_id("engl"), Err("LocaleId is not lowercase BCP 47 form: \"engl\"".to_string()));
    assert_eq!(validate_locale_id("en-"), Err("LocaleId is not lowercase BCP 47 form: \"en-\"".to_string()));
    assert_eq!(validate_locale_id("en-x"), Err("LocaleId is not lowercase BCP 47 form: \"en-x\"".to_string()));
    assert_eq!(validate_locale_id("en-abcdefghi"), Err("LocaleId is not lowercase BCP 47 form: \"en-abcdefghi\"".to_string()));
    assert!(validate_locale_id("fr-ca\"").is_err());
}

#[test]
fn no_cycle_in_chains() {
    let fb = vec![chain("en", &["fr"]), chain("fr", &["de"]), chain("zh", &["en", "fr"])];
    assert_eq!(detect_fallback_cycle(&fb), None);
    assert_eq!(detect_fallback_cycle(&vec![]), None);
}

#[test]
fn cycle_reported_from_first_key() {
    let fb = vec![chain("de", &["en"]), chain("en", &["fr"]), chain("fr", &["en"])];
    assert_eq!(detect_fallback_cycle(&fb), Some(strings(&["de", "en", "fr", "en"])));
}

#[test]
fn self_loop_is_a_cycle() {
    let fb = vec![chain("en", &["en"])];
    assert_eq!(detect_fallback_cycle(&fb), Some(strings(&["en", "en"])));
}

fn entry(id: &str, dir: &str) -> LocaleEntry {
    LocaleEntry { id: id.into(), label: id.to_uppercase(), direction: dir.into() }
}

#[test]
fn normalize_keeps_valid_locales_and_defaults() {
    let file = LocaleManifestFile {
        locales: vec![entry("zh-hans", ""), entry("en", "ltr"), entry("ar", "rtl")],
        default_locale: "zh-hans".into(),
        fallback: vec![chain("en", &["zh-hans"])],
        routing: None,
        missing: "".into(),
    };
    let plan = normalize_locale_manifest(file, "locales/locales.json5".into());
    assert!(plan.diagnostics.is_empty(), "{:?}", plan.diagnostics);
    assert_eq!(plan.default_locale, "zh-hans");
    assert_eq!(plan.locales.len(), 3);
    assert_eq!(plan.locales[0].direction, "ltr");
    assert_eq!(plan.locales[2].direction, "rtl");
    assert_eq!(plan.routing.strategy, "prefix");
    assert_eq!(plan.routing.default_prefix, "include");
    assert_eq!(plan.missing, "error");
    assert_eq!(plan.source_path, Some("locales/locales.json5".to_string()));
}

#[test]
fn normalize_reports_each_problem_in_order() {
    let file = LocaleManifestFile {
        locales: vec![entry("en", ""), entry("en", ""), entry("EN_us", ""), entry("fr", "")],
        default_locale: "de".into(),
        fallback: vec![chain("de", &["en"]), chain("en", &["fr", "it"]), chain("fr", &["en"])],
        routing: Some(LocaleRoutingPolicy { strategy: "domain".into(), default_prefix: "omit".into() }),
        missing: "warn".into(),
    };
    let plan = normalize_locale_manifest(file, "locales.json".into());
    let codes: Vec<LocaleDiagCode> = plan.diagnostics.iter().map(|d| d.code).collect();
    assert_eq!(
        codes,
        vec![
            LocaleDiagCode::IdCollision,
            LocaleDiagCode::IdInvalid,
            LocaleDiagCode::DefaultMissing,
            LocaleDiagCode::FallbackUnknown,
            LocaleDiagCode::FallbackUnknown,
            LocaleDiagCode::FallbackCycle,
        ]
    );
    assert_eq!(plan.diagnostics[0].detail, "duplicate LocaleId en in locales[]");
    assert_eq!(plan.diagnostics[1].detail, "LocaleId must use '-' not '_': \"EN_us\"");
    assert_eq!(plan.diagnostics[2].detail, "defaultLocale \"de\" missing from locales[]");
    assert_eq!(plan.diagnostics[3].detail, "fallback key de is not a declared LocaleId");
    assert_eq!(plan.diagnostics[4].detail, "fallback en → unknown LocaleId it");
    assert_eq!(plan.diagnostics[5].detail, "fallback cycle: en → fr → en");
    assert!(plan.diagnostics.iter().all(|d| d.path == "locales.json"));
    assert_eq!(plan.fallback, vec![chain("en", &["fr"]), chain("fr", &["en"])]);
    assert_eq!(plan.routing.strategy, "domain");
    assert_eq!(plan.missing, "warn");
}

#[test]
fn empty_default_locale_is_missing() {
    let file = LocaleManifestFile {
        locales: vec![entry("en", "")],
        default_locale: "".into(),
        fallback: vec![],
        routing: None,
        missing: "error".into(),
    };
    let plan = normalize_locale_manifest(file, "l.json5".into());
    assert_eq!(plan.diagnostics.len(), 1);
    assert_eq!(plan.diagnostics[0].detail, "defaultLocale \"\" missing from locales[]");
}

#[test]
fn author_json5_roundtrip() {
    let json = author_json5_to_canonical_json("{ a: 1, b: 'x', }").unwrap();
    let v: serde_json::Value = serde_json::from_str(&json).unwrap();
    assert_eq!(v["a"], 1);
    assert_eq!(v["b"], "x");
}

#[test]
fn author_json5_is_written_compact_and_bad_text_is_refused() {
    assert_eq!(author_json5_to_canonical_json("{ b: [1, 'two'], a: null, // c\n }").unwrap(), "{\"a\":null,\"b\":[1,\"two\"]}");
    let e = author_json5_to_canonical_json("{ a: ").unwrap_err();
    assert!(e.starts_with("JSON5 parse error: "));
    assert!(e.len() > "JSON5 parse error: ".len());
}

#[test]
fn cycle_reported_from_first_key_that_reaches_one() {
    let fb = vec![chain("a", &["z"]), chain("b", &["c"]), chain("c", &["b"])];
    assert_eq!(detect_fallback_cycle(&fb), Some(strings(&["b", "c", "b"])));
}
