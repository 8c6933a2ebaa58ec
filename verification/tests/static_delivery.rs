use serde_json::Value;
use vmz_compiler::deployment::ArtifactError;
use vmz_compiler::static_delivery::{
    validate_asset_plan, validate_content_addressed_assets, validate_static_delivery_manifest,
    validate_static_emit_plan, AssetPlan, ContentAddressedAssetsManifest, ContentAddressedLink,
    ContentAddressedObject, LocaleLinkPlan, LocaleLinkRow, StaticDeliveryManifest, StaticEmitPlan,
};

const EMIT_PLAN: &str = r#"{
  "schema": "vmz.static.emit_plan.v0",
  "applicationId": "demo",
  "deliveryProfile": "static",
  "origin": "https://example.test",
  "localeLinks": {
    "schema": "vmz.static.locale_link_plan.v0",
    "rows": [
      { "routeId": "AboutPage", "localeId": "en-us", "href": "/en-us/about" }
    ]
  },
  "assetPlanPath": "_vmz/asset-plan.json",
  "routes": []
}"#;

const ASSET_PLAN: &str = r#"{
  "schema": "vmz.asset.plan.v0",
  "layout": "assets/<sha256>.<ext>",
  "immutable": true,
  "candidates": ["entry-client.js", "vmz.css"]
}"#;

const CONTENT_MANIFEST: &str = r#"{
  "schema": "vmz.content_addressed_assets.v0",
  "layout": "assets/<sha256>.<ext>",
  "immutable": true,
  "objectCount": 1,
  "objects": [
    {
      "logicalPath": "entry-client.js",
      "assetPath": "assets/abc123.js",
      "digest": "abc123",
      "bytes": 10,
      "immutable": true
    }
  ],
  "rewrittenHtml": 0,
  "manifestDigest": "deadbeef"
}"#;

const DELIVERY_MANIFEST: &str = r#"{
  "schema": "vmz.static.delivery_manifest.v0",
  "applicationId": "demo",
  "deliveryProfile": "static",
  "origin": "https://example.test",
  "contentAddressedAssets": {
    "schema": "vmz.content_addressed_assets.v0",
    "manifestDigest": "deadbeef",
    "objectCount": 1,
    "layout": "assets/<sha256>.<ext>"
  }
}"#;

fn text(v: &Value, k: &str) -> String {
    v.get(k).and_then(|x| x.as_str()).unwrap_or("").to_string()
}

fn number(v: &Value, k: &str) -> u64 {
    v.get(k).and_then(|x| x.as_u64()).unwrap_or(0)
}

fn flag(v: &Value, k: &str) -> bool {
    v.get(k).and_then(|x| x.as_bool()).unwrap_or(false)
}

fn emit_plan(json: &str) -> StaticEmitPlan {
    let v: Value = serde_json::from_str(json).unwrap();
    let links = &v["localeLinks"];
    StaticEmitPlan {
        schema: text(&v, "schema"),
        application_id: text(&v, "applicationId"),
        delivery_profile: text(&v, "deliveryProfile"),
        origin: text(&v, "origin"),
        locale_links: LocaleLinkPlan {
            schema: text(links, "schema"),
            rows: links["rows"]
                .as_array()
                .unwrap()
                .iter()
                .map(|r| LocaleLinkRow { route_id: text(r, "routeId"), locale_id: text(r, "localeId"), href: text(r, "href") })
                .collect(),
        },
        asset_plan_path: text(&v, "assetPlanPath"),
    }
}

fn asset_plan(json: &str) -> AssetPlan {
    let v: Value = serde_json::from_str(json).unwrap();
    AssetPlan {
        schema: text(&v, "schema"),
        layout: text(&v, "layout"),
        immutable: flag(&v, "immutable"),
        candidates: v["candidates"].as_array().unwrap().iter().map(|c| c.as_str().unwrap().to_string()).collect(),
    }
}

fn content_manifest(json: &str) -> ContentAddressedAssetsManifest {
    let v: Value = serde_json::from_str(json).unwrap();
    ContentAddressedAssetsManifest {
        schema: text(&v, "schema"),
        layout: text(&v, "layout"),
        immutable: flag(&v, "immutable"),
        object_count: number(&v, "objectCount"),
        objects: v["objects"]
            .as_array()
            .unwrap()
            .iter()
            .map(|o| ContentAddressedObject {
                logical_path: text(o, "logicalPath"),
                asset_path: text(o, "assetPath"),
                digest: text(o, "digest"),
                bytes: number(o, "bytes"),
                immutable: flag(o, "immutable"),
            })
            .collect(),
        rewritten_html: number(&v, "rewrittenHtml"),
        manifest_digest: text(&v, "manifestDigest"),
    }
}

fn delivery_manifest(json: &str) -> StaticDeliveryManifest {
    let v: Value = serde_json::from_str(json).unwrap();
    StaticDeliveryManifest {
        schema: text(&v, "schema"),
        application_id: text(&v, "applicationId"),
        delivery_profile: text(&v, "deliveryProfile"),
        origin: text(&v, "origin"),
        content_addressed_assets: v.get("contentAddressedAssets").map(|l| ContentAddressedLink {
            schema: text(l, "schema"),
            manifest_digest: text(l, "manifestDigest"),
            object_count: number(l, "objectCount"),
            layout: text(l, "layout"),
        }),
    }
}

#[test]
fn static_emit_plan_fixture_parses() {
    validate_static_emit_plan(&emit_plan(EMIT_PLAN)).expect("emit plan");
}

#[test]
fn asset_plan_fixture_parses() {
    validate_asset_plan(&asset_plan(ASSET_PLAN)).expect("asset plan");
}

#[test]
fn content_addressed_fixture_parses() {
    validate_content_addressed_assets(&content_manifest(CONTENT_MANIFEST)).expect("content addressed");
}

#[test]
fn static_delivery_manifest_requires_asset_link() {
    validate_static_delivery_manifest(&delivery_manifest(DELIVERY_MANIFEST)).expect("delivery manifest");
    let bad = DELIVERY_MANIFEST.replace("\"manifestDigest\": \"deadbeef\"", "\"manifestDigest\": \"\"");
    assert!(validate_static_delivery_manifest(&delivery_manifest(&bad)).is_err());
}

#[test]
fn wrong_schemas_are_named_in_the_refusal() {
    let mut plan = emit_plan(EMIT_PLAN);
    plan.locale_links.schema = "vmz.static.locale_link_plan.v9".to_string();
    match validate_static_emit_plan(&plan) {
        Err(ArtifactError::Schema(s)) => assert_eq!(s, "vmz.static.locale_link_plan.v9"),
        other => panic!("unexpected {other:?}"),
    }
    plan.schema = "other".to_string();
    match validate_static_emit_plan(&plan) {
        Err(ArtifactError::Schema(s)) => assert_eq!(s, "other"),
        other => panic!("unexpected {other:?}"),
    }
    let mut assets = asset_plan(ASSET_PLAN);
    assets.schema = "vmz.asset.plan.v1".to_string();
    assert!(matches!(validate_asset_plan(&assets), Err(ArtifactError::Schema(_))));
    let mut content = content_manifest(CONTENT_MANIFEST);
    content.schema = String::new();
    assert!(matches!(validate_content_addressed_assets(&content), Err(ArtifactError::Schema(_))));
}

#[test]
fn delivery_manifest_link_errors() {
    let mut doc = delivery_manifest(DELIVERY_MANIFEST);
    doc.content_addressed_assets = None;
    match validate_static_delivery_manifest(&doc) {
        Err(ArtifactError::Message(m)) => assert_eq!(m, "StaticDeliveryManifest missing contentAddressedAssets link"),
        other => panic!("unexpected {other:?}"),
    }
    let mut doc = delivery_manifest(DELIVERY_MANIFEST);
    if let Some(link) = doc.content_addressed_assets.as_mut() {
        link.manifest_digest = String::new();
    }
    match validate_static_delivery_manifest(&doc) {
        Err(ArtifactError::Message(m)) => {
            assert_eq!(m, "StaticDeliveryManifest contentAddressedAssets.manifestDigest is empty")
        }
        other => panic!("unexpected {other:?}"),
    }
    let mut doc = delivery_manifest(DELIVERY_MANIFEST);
    if let Some(link) = doc.content_addressed_assets.as_mut() {
        link.schema = "x".to_string();
    }
    assert!(matches!(validate_static_delivery_manifest(&doc), Err(ArtifactError::Schema(s)) if s == "x"));
}
