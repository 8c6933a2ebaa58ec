use vmz_compiler::json::JsonValue;
use vmz_compiler::multi_adapter::{
    shared_mini_contracts, validate_multi_adapter_manifest, MiniDiagCode, MiniDiagnostic, MiniProtocol,
    MINI_MULTI_ADAPTER_MANIFEST_SCHEMA, REQUIRED_MINI_ADAPTERS,
};

fn to_json(v: &serde_json::Value) -> JsonValue {
    match v {
        serde_json::Value::Null => JsonValue::Null,
        serde_json::Value::Bool(b) => JsonValue::Bool(*b),
        serde_json::Value::Number(n) => JsonValue::Number(n.to_string()),
        serde_json::Value::String(s) => JsonValue::Str(s.clone()),
        serde_json::Value::Array(a) => JsonValue::Array(a.iter().map(to_json).collect()),
        serde_json::Value::Object(m) => JsonValue::Object(m.iter().map(|(k, x)| (k.clone(), to_json(x))).collect()),
    }
}

fn proto() -> MiniProtocol {
    MiniProtocol { dialect: "vmz.mini.template_dialect.v0".to_string(), plan_schema: "vmz.plan.v0".to_string() }
}

fn adapter_contribution(adapter_id: &str, vendor: &str, dev_target: &str, request_api: &str, patch_api: &str) -> JsonValue {
    let text = format!(
        r##"{{
        "schema": "vmz.mini.adapter_contribution.v0",
        "adapterId": "{adapter_id}",
        "kind": "packaging-stub",
        "packagingOnly": true,
        "isSemanticTruthSource": false,
        "consumesNeutralPackage": true,
        "sharedSchema": "vmz.mini.multi_adapter_shared.v0",
        "capabilityProfile": {{ "family": "mini-program", "platformId": "mini-program", "adapterId": "{adapter_id}" }},
        "elementMapping": {{
            "markers": ["data-vmz-on", "data-vmz-route", "data-vmz-if", "data-vmz-each", "vmz-component"],
            "vendorTemplateEmitter": false
        }},
        "lifecycleMapping": {{ "onLoad": "activate", "onShow": "visible", "onHide": "hidden", "onUnload": "dispose" }},
        "transport": {{ "server": "{request_api}", "viewPatches": "{patch_api}", "scheme": "#server" }},
        "vendorTooling": {{
            "schema": "vmz.mini.vendor_tooling.v0",
            "adapter": "{vendor}",
            "role": "transport-conformance",
            "invokedInCi": false,
            "requiredForSupportClaim": true
        }},
        "devSession": {{
            "schema": "vmz.mini.dev_session.v0",
            "target": "{dev_target}",
            "orchestrationHost": "node",
            "incrementalBasis": "program-graph-affected",
            "previewDelegatesToVendor": true
        }}
    }}"##
    );
    to_json(&serde_json::from_str(&text).unwrap())
}

fn manifest(adapters: Vec<JsonValue>) -> JsonValue {
    JsonValue::Object(vec![
        ("schema".to_string(), JsonValue::Str(MINI_MULTI_ADAPTER_MANIFEST_SCHEMA.to_string())),
        ("family".to_string(), JsonValue::Str("mini-program".to_string())),
        ("allowsPlatformSemanticFork".to_string(), JsonValue::Bool(false)),
        ("packagePath".to_string(), JsonValue::Str("dist/_vmz/mini-deploy/package.json".to_string())),
        ("shared".to_string(), shared_mini_contracts(&proto())),
        ("adapters".to_string(), JsonValue::Array(adapters)),
    ])
}

fn wechat() -> JsonValue {
    adapter_contribution("wechat-miniprogram", "wechat-devtools", "mini-program-wechat", "wx.request", "setData")
}

fn alipay() -> JsonValue {
    adapter_contribution("alipay-miniprogram", "alipay-devtools", "mini-program-alipay", "my.request", "setData")
}

fn codes(diags: &[MiniDiagnostic]) -> Vec<MiniDiagCode> {
    diags.iter().map(|d| d.code).collect()
}

#[test]
fn rejects_single_adapter() {
    let mut diags = Vec::new();
    validate_multi_adapter_manifest(&manifest(vec![wechat()]), &proto(), &mut diags);
    assert!(diags.iter().any(|d| d.code == MiniDiagCode::MissingAdapter));
}

#[test]
fn accepts_canonical_dual_adapters() {
    let mut diags = Vec::new();
    validate_multi_adapter_manifest(&manifest(vec![wechat(), alipay()]), &proto(), &mut diags);
    assert!(diags.iter().all(|d| d.severity != "error"), "{diags:?}");
    assert!(diags.is_empty());
}

#[test]
fn single_adapter_names_the_missing_one_and_the_count() {
    let mut diags = Vec::new();
    validate_multi_adapter_manifest(&manifest(vec![wechat()]), &proto(), &mut diags);
    assert_eq!(diags.len(), 2);
    assert_eq!(diags[0].message, "missing required Mini adapter `alipay-miniprogram`");
    assert_eq!(diags[1].message, "MP6 requires \u{2265}2 Mini adapters sharing one neutral package");
    assert_eq!(diags[1].path, "adapters");
    assert_eq!(REQUIRED_MINI_ADAPTERS.len(), 2);
}

#[test]
fn shared_fork_and_private_schema_are_reported() {
    let mut m = manifest(vec![wechat(), alipay()]);
    if let JsonValue::Object(members) = &mut m {
        for (k, v) in members.iter_mut() {
            if k == "shared" {
                *v = JsonValue::Object(vec![
                    ("artifactSchema".to_string(), JsonValue::Str("wx.artifact.v1".to_string())),
                    ("deployPackageSchema".to_string(), JsonValue::Str("vmz.mini.deploy_package.v0".to_string())),
                    ("hostSchema".to_string(), JsonValue::Str("vmz.mini.host.v0".to_string())),
                    ("dialect".to_string(), JsonValue::Str("vmz.mini.template_dialect.v0".to_string())),
                    ("planSchema".to_string(), JsonValue::Str("vmz.plan.v0".to_string())),
                ]);
            }
            if k == "allowsPlatformSemanticFork" {
                *v = JsonValue::Bool(true);
            }
        }
    }
    let mut diags = Vec::new();
    validate_multi_adapter_manifest(&m, &proto(), &mut diags);
    assert_eq!(
        codes(&diags),
        vec![MiniDiagCode::SharedFork, MiniDiagCode::SharedFork, MiniDiagCode::PlatformPrivateSchema]
    );
    assert_eq!(
        diags[1].message,
        "shared artifactSchema must be `vmz.target.mini_program_artifact.v0`, got `wx.artifact.v1`"
    );
    assert_eq!(diags[2].path, "shared.artifactSchema");
}

#[test]
fn adapter_acting_as_semantic_core_is_reported() {
    let bad = to_json(
        &serde_json::from_str(
            r#"{"adapterId":"wechat-miniprogram","kind":"compiler","packagingOnly":false,"isSemanticTruthSource":true,
                "elementMapping":{"vendorTemplateEmitter":true},"vendorTooling":{"role":"build","invokedInCi":true}}"#,
        )
        .unwrap(),
    );
    let mut diags = Vec::new();
    validate_multi_adapter_manifest(&manifest(vec![bad, alipay()]), &proto(), &mut diags);
    let paths: Vec<&str> = diags.iter().map(|d| d.path.as_str()).collect();
    assert_eq!(
        paths,
        vec![
            "adapters.wechat-miniprogram",
            "adapters.wechat-miniprogram.kind",
            "adapters.wechat-miniprogram.packagingOnly",
            "adapters.wechat-miniprogram.isSemanticTruthSource",
            "adapters.wechat-miniprogram.consumesNeutralPackage",
            "adapters.wechat-miniprogram.elementMapping",
            "adapters.wechat-miniprogram.vendorTooling.role",
            "adapters.wechat-miniprogram.vendorTooling.invokedInCi",
        ]
    );
    assert_eq!(diags[0].code, MiniDiagCode::ArtifactInvalid);
    assert_eq!(diags[4].code, MiniDiagCode::SharedFork);
}

#[test]
fn missing_schema_and_adapters_give_every_error() {
    let mut diags = Vec::new();
    validate_multi_adapter_manifest(&JsonValue::Null, &proto(), &mut diags);
    assert_eq!(diags[0].path, "schema");
    assert_eq!(diags[0].message, "multi_adapter schema must be `vmz.mini.multi_adapter.v0`");
    assert_eq!(diags.len(), 1 + 5 + 3);
    let adapter_without_id = to_json(&serde_json::from_str(r#"{"schema":"x"}"#).unwrap());
    let mut diags = Vec::new();
    validate_multi_adapter_manifest(&manifest(vec![adapter_without_id, wechat(), alipay()]), &proto(), &mut diags);
    assert_eq!(diags[0].path, "adapters.?");
}
