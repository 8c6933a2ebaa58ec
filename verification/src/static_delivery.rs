//! Static delivery artifacts: the static emit plan, the asset plan, the
//! content-addressed asset manifest and the static delivery manifest, and the
//! checks of their schema ids and links.

use vstd::prelude::*;
use crate::deployment::ArtifactError;
use crate::text::{chars_eq, to_chars};

verus! {

/// Schema id of a static emit plan.
pub const STATIC_EMIT_PLAN_SCHEMA: &'static str = "vmz.static.emit_plan.v0";

/// Schema id of the locale link plan inside a static emit plan.
pub const LOCALE_LINK_PLAN_SCHEMA: &'static str = "vmz.static.locale_link_plan.v0";

/// Schema id of an asset plan.
pub const ASSET_PLAN_SCHEMA: &'static str = "vmz.asset.plan.v0";

/// Schema id of a content-addressed asset manifest.
pub const CONTENT_ADDRESSED_ASSETS_SCHEMA: &'static str = "vmz.content_addressed_assets.v0";

/// Schema id of a static delivery manifest.
pub const STATIC_DELIVERY_MANIFEST_SCHEMA: &'static str = "vmz.static.delivery_manifest.v0";

/// One localized link of a route.
#[derive(Debug, Clone)]
pub struct LocaleLinkRow {
    pub route_id: String,
    pub locale_id: String,
    pub href: String,
}

/// The localized links of a static site.
#[derive(Debug, Clone)]
pub struct LocaleLinkPlan {
    pub schema: String,
    pub rows: Vec<LocaleLinkRow>,
}

/// `_vmz/static-emit-plan.json`.
#[derive(Debug, Clone)]
pub struct StaticEmitPlan {
    pub schema: String,
    pub application_id: String,
    pub delivery_profile: String,
    pub origin: String,
    pub locale_links: LocaleLinkPlan,
    pub asset_plan_path: String,
}

/// `_vmz/asset-plan.json`.
#[derive(Debug, Clone)]
pub struct AssetPlan {
    pub schema: String,
    pub layout: String,
    pub immutable: bool,
    pub candidates: Vec<String>,
}

/// One content-addressed asset.
#[derive(Debug, Clone)]
pub struct ContentAddressedObject {
    pub logical_path: String,
    pub asset_path: String,
    pub digest: String,
    pub bytes: u64,
    pub immutable: bool,
}

/// `_vmz/content-addressed-assets.json`.
#[derive(Debug, Clone)]
pub struct ContentAddressedAssetsManifest {
    pub schema: String,
    pub layout: String,
    pub immutable: bool,
    pub object_count: u64,
    pub objects: Vec<ContentAddressedObject>,
    pub rewritten_html: u64,
    pub manifest_digest: String,
}

/// The link from a delivery manifest to its content-addressed manifest.
#[derive(Debug, Clone)]
pub struct ContentAddressedLink {
    pub schema: String,
    pub manifest_digest: String,
    pub object_count: u64,
    pub layout: String,
}

/// The static delivery manifest of a site.
#[derive(Debug, Clone)]
pub struct StaticDeliveryManifest {
    pub schema: String,
    pub application_id: String,
    pub delivery_profile: String,
    pub origin: String,
    pub content_addressed_assets: Option<ContentAddressedLink>,
}

fn same_text(a: &String, b: &str) -> (r: bool)
    ensures
        r == (a@ == b@),
{
    let x = to_chars(a.as_str());
    let y = to_chars(b);
    chars_eq(x.as_slice(), y.as_slice())
}

/// The refusal as plain values: the refused schema id, or another message.
pub open spec fn refusal(e: ArtifactError) -> (bool, Seq<char>) {
    match e {
        ArtifactError::Schema(s) => (true, s@),
        ArtifactError::Message(m) => (false, m@),
        ArtifactError::Json(m) => (false, m@),
    }
}

/// Check the schema id and the locale link plan's schema id.
pub fn validate_static_emit_plan(doc: &StaticEmitPlan) -> (r: Result<(), ArtifactError>)
    ensures
        r is Ok <==> doc.schema@ == STATIC_EMIT_PLAN_SCHEMA@ && doc.locale_links.schema@ == LOCALE_LINK_PLAN_SCHEMA@,
        doc.schema@ != STATIC_EMIT_PLAN_SCHEMA@ ==> (r matches Err(ArtifactError::Schema(s)) && s@ == doc.schema@),
        doc.schema@ == STATIC_EMIT_PLAN_SCHEMA@ && doc.locale_links.schema@ != LOCALE_LINK_PLAN_SCHEMA@ ==> (r matches Err(
            ArtifactError::Schema(s),
        ) && s@ == doc.locale_links.schema@),
{
    if !same_text(&doc.schema, STATIC_EMIT_PLAN_SCHEMA) {
        return Err(ArtifactError::Schema(doc.schema.clone()));
    }
    if !same_text(&doc.locale_links.schema, LOCALE_LINK_PLAN_SCHEMA) {
        return Err(ArtifactError::Schema(doc.locale_links.schema.clone()));
    }
    Ok(())
}

/// Check the schema id of an asset plan.
pub fn validate_asset_plan(doc: &AssetPlan) -> (r: Result<(), ArtifactError>)
    ensures
        r is Ok <==> doc.schema@ == ASSET_PLAN_SCHEMA@,
        r is Err ==> (r matches Err(ArtifactError::Schema(s)) && s@ == doc.schema@),
{
    if !same_text(&doc.schema, ASSET_PLAN_SCHEMA) {
        return Err(ArtifactError::Schema(doc.schema.clone()));
    }
    Ok(())
}

/// Check the schema id of a content-addressed asset manifest.
pub fn validate_content_addressed_assets(doc: &ContentAddressedAssetsManifest) -> (r: Result<(), ArtifactError>)
    ensures
        r is Ok <==> doc.schema@ == CONTENT_ADDRESSED_ASSETS_SCHEMA@,
        r is Err ==> (r matches Err(ArtifactError::Schema(s)) && s@ == doc.schema@),
{
    if !same_text(&doc.schema, CONTENT_ADDRESSED_ASSETS_SCHEMA) {
        return Err(ArtifactError::Schema(doc.schema.clone()));
    }
    Ok(())
}

/// The refusal of a delivery manifest, if any: its schema id, then the
/// presence of the content-addressed link, its schema id and its digest.
pub open spec fn delivery_refusal(doc: StaticDeliveryManifest) -> Option<(bool, Seq<char>)> {
    if doc.schema@ != STATIC_DELIVERY_MANIFEST_SCHEMA@ {
        Some((true, doc.schema@))
    } else {
        match doc.content_addressed_assets {
            None => Some((false, "StaticDeliveryManifest missing contentAddressedAssets link"@)),
            Some(link) => if link.schema@ != CONTENT_ADDRESSED_ASSETS_SCHEMA@ {
                Some((true, link.schema@))
            } else if link.manifest_digest@.len() == 0 {
                Some((false, "StaticDeliveryManifest contentAddressedAssets.manifestDigest is empty"@))
            } else {
                None
            },
        }
    }
}

/// Check a delivery manifest's schema id and its link to the
/// content-addressed manifest (present, of that schema, with a digest).
pub fn validate_static_delivery_manifest(doc: &StaticDeliveryManifest) -> (r: Result<(), ArtifactError>)
    ensures
        match delivery_refusal(*doc) {
            None => r is Ok,
            Some(e) => r matches Err(x) && refusal(x) == e,
        },
{
    if !same_text(&doc.schema, STATIC_DELIVERY_MANIFEST_SCHEMA) {
        return Err(ArtifactError::Schema(doc.schema.clone()));
    }
    match &doc.content_addressed_assets {
        None => Err(ArtifactError::Message(String::from_str("StaticDeliveryManifest missing contentAddressedAssets link"))),
        Some(link) => {
            if !same_text(&link.schema, CONTENT_ADDRESSED_ASSETS_SCHEMA) {
                return Err(ArtifactError::Schema(link.schema.clone()));
            }
            if link.manifest_digest.as_str().is_empty() {
                return Err(
                    ArtifactError::Message(
                        String::from_str("StaticDeliveryManifest contentAddressedAssets.manifestDigest is empty"),
                    ),
                );
            }
            Ok(())
        },
    }
}

} // verus!
