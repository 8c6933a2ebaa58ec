//! Mini-program multi-adapter conformance: two or more packaging adapters
//! (`wechat-miniprogram`, `alipay-miniprogram`) share one neutral deploy
//! package, host and artifact schema; an adapter is packaging and transport
//! only, never a second semantic core.

use vstd::prelude::*;
use crate::json::{json_obj, json_views, lemma_json_views, lemma_member_views, member, member_views, obj, Json, JsonValue};
use crate::text::{chars_eq, contains, contains_seq, from_chars, lower, lower_exec, push_str, to_chars};

verus! {

/// Schema id of a multi-adapter report.
pub const MINI_MULTI_ADAPTER_REPORT_SCHEMA: &'static str = "vmz.target.mini_multi_adapter.v0";

/// Schema id of a multi-adapter manifest.
pub const MINI_MULTI_ADAPTER_MANIFEST_SCHEMA: &'static str = "vmz.mini.multi_adapter.v0";

/// Schema id of the contracts every adapter shares.
pub const MINI_MULTI_ADAPTER_SHARED_SCHEMA: &'static str = "vmz.mini.multi_adapter_shared.v0";

/// Schema id of one adapter's contribution.
pub const MINI_ADAPTER_CONTRIBUTION_SCHEMA: &'static str = "vmz.mini.adapter_contribution.v0";

/// Schema id of a mini-program artifact.
pub const MINI_PROGRAM_ARTIFACT_SCHEMA: &'static str = "vmz.target.mini_program_artifact.v0";

/// Schema id of the neutral deploy package.
pub const MINI_DEPLOY_PACKAGE_SCHEMA: &'static str = "vmz.mini.deploy_package.v0";

/// Schema id of the mini host.
pub const MINI_HOST_SCHEMA: &'static str = "vmz.mini.host.v0";

/// The adapters a manifest must hold.
pub const REQUIRED_MINI_ADAPTERS: [&'static str; 2] = ["wechat-miniprogram", "alipay-miniprogram"];

/// Ids that the shared contracts pin and that come from the protocol and
/// the view generator: the template dialect and the plan schema.
#[derive(Debug, Clone)]
pub struct MiniProtocol {
    pub dialect: String,
    pub plan_schema: String,
}

/// What a multi-adapter diagnostic is about.
#[derive(Debug, Clone, Copy, PartialEq, Eq, Structural)]
pub enum MiniDiagCode {
    /// The artifact is not what its schema says.
    ArtifactInvalid,
    /// A required adapter is missing, or fewer than two are declared.
    MissingAdapter,
    /// An adapter acts as a semantic core.
    AdapterSemanticCore,
    /// A shared schema is platform-private.
    PlatformPrivateSchema,
    /// Adapters fork the shared contracts.
    SharedFork,
}

/// One multi-adapter diagnostic.
#[derive(Debug, Clone)]
pub struct MiniDiagnostic {
    pub path: String,
    /// `error`
    pub severity: String,
    pub message: String,
    pub code: MiniDiagCode,
}

/// A diagnostic as plain values: (path, severity, message, code).
pub open spec fn mini_diag_view(d: MiniDiagnostic) -> (Seq<char>, Seq<char>, Seq<char>, MiniDiagCode) {
    (d.path@, d.severity@, d.message@, d.code)
}

/// Diagnostics as plain values.
pub open spec fn mini_diags_view(ds: Seq<MiniDiagnostic>) -> Seq<(Seq<char>, Seq<char>, Seq<char>, MiniDiagCode)> {
    ds.map_values(|d: MiniDiagnostic| mini_diag_view(d))
}

/// An error at `path`.
pub open spec fn err(path: Seq<char>, message: Seq<char>, code: MiniDiagCode) -> (Seq<char>, Seq<char>, Seq<char>, MiniDiagCode) {
    (path, "error"@, message, code)
}

/// The error when `bad` holds.
pub open spec fn err_if(bad: bool, path: Seq<char>, message: Seq<char>, code: MiniDiagCode) -> Seq<
    (Seq<char>, Seq<char>, Seq<char>, MiniDiagCode),
> {
    if bad {
        seq![err(path, message, code)]
    } else {
        Seq::empty()
    }
}

/// A schema id of a platform's private namespace (compared ASCII
/// case-insensitively).
pub open spec fn mini_platform_private(schema: Seq<char>) -> bool {
    let s = lower(schema);
    ||| contains_seq(s, "wx."@)
    ||| contains_seq(s, "wxml"@)
    ||| contains_seq(s, "wxss"@)
    ||| contains_seq(s, "my."@)
    ||| contains_seq(s, "tt."@)
    ||| contains_seq(s, "swan."@)
    ||| contains_seq(s, "com.tencent."@)
    ||| contains_seq(s, "com.alipay."@)
}

fn mini_platform_private_exec(schema: &[char]) -> (r: bool)
    ensures
        r == mini_platform_private(schema@),
{
    let s = lower_exec(schema);
    let a = to_chars("wx.");
    let b = to_chars("wxml");
    let c = to_chars("wxss");
    let d = to_chars("my.");
    let e = to_chars("tt.");
    let f = to_chars("swan.");
    let g = to_chars("com.tencent.");
    let h = to_chars("com.alipay.");
    contains(s.as_slice(), a.as_slice()) || contains(s.as_slice(), b.as_slice()) || contains(s.as_slice(), c.as_slice())
        || contains(s.as_slice(), d.as_slice()) || contains(s.as_slice(), e.as_slice()) || contains(s.as_slice(), f.as_slice())
        || contains(s.as_slice(), g.as_slice()) || contains(s.as_slice(), h.as_slice())
}

/// The contracts every mini adapter shares.
pub open spec fn shared_contracts(dialect: Seq<char>, plan_schema: Seq<char>) -> Json {
    obj(
        seq![
            ("schema"@, Json::Str(MINI_MULTI_ADAPTER_SHARED_SCHEMA@)),
            ("family"@, Json::Str("mini-program"@)),
            ("artifactSchema"@, Json::Str(MINI_PROGRAM_ARTIFACT_SCHEMA@)),
            ("deployPackageSchema"@, Json::Str(MINI_DEPLOY_PACKAGE_SCHEMA@)),
            ("hostSchema"@, Json::Str(MINI_HOST_SCHEMA@)),
            ("dialect"@, Json::Str(dialect)),
            ("planSchema"@, Json::Str(plan_schema)),
            ("allowsPlatformSemanticFork"@, Json::Bool(false)),
            (
                "forbids"@,
                Json::Array(
                    seq![
                        Json::Str("wxmlEmitter"@),
                        Json::Str("wxssEmitter"@),
                        Json::Str("miniIr"@),
                        Json::Str("vpgMutation"@),
                        Json::Str("sourceRescan"@),
                        Json::Str("secondRuntime"@),
                        Json::Str("serverImplInMiniPackage"@),
                        Json::Str("independentBackend"@),
                    ],
                ),
            ),
        ],
    )
}

fn text(s: &str) -> (r: JsonValue)
    ensures
        r@ == Json::Str(s@),
{
    JsonValue::Str(String::from_str(s))
}

fn key(s: &str) -> (r: String)
    ensures
        r@ == s@,
{
    String::from_str(s)
}

/// The canonical shared contracts (the same for every adapter).
pub fn shared_mini_contracts(proto: &MiniProtocol) -> (r: JsonValue)
    ensures
        r@ == shared_contracts(proto.dialect@, proto.plan_schema@),
{
    let forbids = vec![
        text("wxmlEmitter"),
        text("wxssEmitter"),
        text("miniIr"),
        text("vpgMutation"),
        text("sourceRescan"),
        text("secondRuntime"),
        text("serverImplInMiniPackage"),
        text("independentBackend"),
    ];
    proof {
        lemma_json_views(forbids@);
        assert(json_views(forbids@) =~= seq![
            Json::Str("wxmlEmitter"@),
            Json::Str("wxssEmitter"@),
            Json::Str("miniIr"@),
            Json::Str("vpgMutation"@),
            Json::Str("sourceRescan"@),
            Json::Str("secondRuntime"@),
            Json::Str("serverImplInMiniPackage"@),
            Json::Str("independentBackend"@),
        ]);
    }
    let ghost fv = json_views(forbids@);
    let entries = vec![
        (key("schema"), text(MINI_MULTI_ADAPTER_SHARED_SCHEMA)),
        (key("family"), text("mini-program")),
        (key("artifactSchema"), text(MINI_PROGRAM_ARTIFACT_SCHEMA)),
        (key("deployPackageSchema"), text(MINI_DEPLOY_PACKAGE_SCHEMA)),
        (key("hostSchema"), text(MINI_HOST_SCHEMA)),
        (key("dialect"), JsonValue::Str(proto.dialect.clone())),
        (key("planSchema"), JsonValue::Str(proto.plan_schema.clone())),
        (key("allowsPlatformSemanticFork"), JsonValue::Bool(false)),
        (key("forbids"), JsonValue::Array(forbids)),
    ];
    proof {
        lemma_member_views(entries@);
        assert(member_views(entries@) =~= seq![
            ("schema"@, Json::Str(MINI_MULTI_ADAPTER_SHARED_SCHEMA@)),
            ("family"@, Json::Str("mini-program"@)),
            ("artifactSchema"@, Json::Str(MINI_PROGRAM_ARTIFACT_SCHEMA@)),
            ("deployPackageSchema"@, Json::Str(MINI_DEPLOY_PACKAGE_SCHEMA@)),
            ("hostSchema"@, Json::Str(MINI_HOST_SCHEMA@)),
            ("dialect"@, Json::Str(proto.dialect@)),
            ("planSchema"@, Json::Str(proto.plan_schema@)),
            ("allowsPlatformSemanticFork"@, Json::Bool(false)),
            ("forbids"@, Json::Array(fv)),
        ]);
    }
    json_obj(entries)
}

/// The text of an optional value, or `default` unless it is a string.
pub open spec fn text_or(v: Option<Json>, default: Seq<char>) -> Seq<char> {
    match v {
        Some(Json::Str(s)) => s,
        _ => default,
    }
}

/// Member `b` of member `a` (`/a/b`).
pub open spec fn at(v: Json, a: Seq<char>, b: Seq<char>) -> Option<Json> {
    match member(v, a) {
        Some(x) => member(x, b),
        None => None,
    }
}

/// The schema id and semantic-fork checks.
#[verifier::opaque]
pub open spec fn head_diags(m: Json) -> Seq<(Seq<char>, Seq<char>, Seq<char>, MiniDiagCode)> {
    err_if(
        text_or(member(m, "schema"@), ""@) != MINI_MULTI_ADAPTER_MANIFEST_SCHEMA@,
        "schema"@,
        "multi_adapter schema must be `"@ + MINI_MULTI_ADAPTER_MANIFEST_SCHEMA@ + "`"@,
        MiniDiagCode::ArtifactInvalid,
    ) + err_if(
        member(m, "allowsPlatformSemanticFork"@) == Some(Json::Bool(true)),
        "allowsPlatformSemanticFork"@,
        "platform semantic fork is forbidden \u{2014} adapters share one Mini family contract"@,
        MiniDiagCode::SharedFork,
    )
}

/// The checks of one shared key: its value must be `want` and must not be
/// platform-private.
#[verifier::opaque]
pub open spec fn shared_key_diags(m: Json, k: Seq<char>, want: Seq<char>) -> Seq<
    (Seq<char>, Seq<char>, Seq<char>, MiniDiagCode),
> {
    let got = text_or(at(m, "shared"@, k), ""@);
    err_if(
        got != want,
        "shared."@ + k,
        "shared "@ + k + " must be `"@ + want + "`, got `"@ + got + "`"@,
        MiniDiagCode::SharedFork,
    ) + err_if(
        mini_platform_private(got),
        "shared."@ + k,
        "platform-private schema forbidden in shared: `"@ + got + "`"@,
        MiniDiagCode::PlatformPrivateSchema,
    )
}

/// The checks of the shared contracts, key by key.
pub open spec fn shared_diags(m: Json, dialect: Seq<char>, plan_schema: Seq<char>) -> Seq<
    (Seq<char>, Seq<char>, Seq<char>, MiniDiagCode),
> {
    shared_key_diags(m, "artifactSchema"@, MINI_PROGRAM_ARTIFACT_SCHEMA@) + shared_key_diags(
        m,
        "deployPackageSchema"@,
        MINI_DEPLOY_PACKAGE_SCHEMA@,
    ) + shared_key_diags(m, "hostSchema"@, MINI_HOST_SCHEMA@) + shared_key_diags(m, "dialect"@, dialect)
        + shared_key_diags(m, "planSchema"@, plan_schema)
}

/// The adapters a manifest declares (none unless `adapters` is an array).
pub open spec fn declared_adapters(m: Json) -> Seq<Json> {
    match member(m, "adapters"@) {
        Some(Json::Array(a)) => a,
        _ => Seq::empty(),
    }
}

/// Some adapter has the id `id`.
pub open spec fn has_adapter(adapters: Seq<Json>, id: Seq<char>) -> bool {
    exists|i: int| 0 <= i < adapters.len() && member(#[trigger] adapters[i], "adapterId"@) == Some(Json::Str(id))
}

/// The required adapters that are missing, then too few adapters.
#[verifier::opaque]
pub open spec fn count_diags(adapters: Seq<Json>) -> Seq<(Seq<char>, Seq<char>, Seq<char>, MiniDiagCode)> {
    err_if(
        !has_adapter(adapters, "wechat-miniprogram"@),
        "adapters"@,
        "missing required Mini adapter `"@ + "wechat-miniprogram"@ + "`"@,
        MiniDiagCode::MissingAdapter,
    ) + err_if(
        !has_adapter(adapters, "alipay-miniprogram"@),
        "adapters"@,
        "missing required Mini adapter `"@ + "alipay-miniprogram"@ + "`"@,
        MiniDiagCode::MissingAdapter,
    ) + err_if(
        adapters.len() < 2,
        "adapters"@,
        "MP6 requires \u{2265}2 Mini adapters sharing one neutral package"@,
        MiniDiagCode::MissingAdapter,
    )
}

/// The checks of one adapter: a packaging stub of the contribution schema
/// that consumes the neutral package, with no template emitter and vendor
/// tooling kept to transport conformance, outside CI.
#[verifier::opaque]
pub open spec fn adapter_diags(a: Json) -> Seq<(Seq<char>, Seq<char>, Seq<char>, MiniDiagCode)> {
    adapter_shape_diags(a) + adapter_tooling_diags(a)
}

/// The schema, kind, packaging and semantic-truth checks of an adapter.
#[verifier::opaque]
pub open spec fn adapter_shape_diags(a: Json) -> Seq<(Seq<char>, Seq<char>, Seq<char>, MiniDiagCode)> {
    let path = "adapters."@ + text_or(member(a, "adapterId"@), "?"@);
    err_if(
        member(a, "schema"@) != Some(Json::Str(MINI_ADAPTER_CONTRIBUTION_SCHEMA@)),
        path,
        "adapter schema must be `"@ + MINI_ADAPTER_CONTRIBUTION_SCHEMA@ + "`"@,
        MiniDiagCode::ArtifactInvalid,
    ) + err_if(
        member(a, "kind"@) != Some(Json::Str("packaging-stub"@)),
        path + ".kind"@,
        "Mini adapter kind must be `packaging-stub` (vendor packaging later)"@,
        MiniDiagCode::AdapterSemanticCore,
    ) + err_if(
        member(a, "packagingOnly"@) != Some(Json::Bool(true)),
        path + ".packagingOnly"@,
        "Mini adapter must be packaging-only"@,
        MiniDiagCode::AdapterSemanticCore,
    ) + err_if(
        member(a, "isSemanticTruthSource"@) == Some(Json::Bool(true)),
        path + ".isSemanticTruthSource"@,
        "adapter must not become semantic truth \u{2014} VPG/Plan remain sole IR"@,
        MiniDiagCode::AdapterSemanticCore,
    )
}

/// The neutral-package, template-emitter and vendor-tooling checks of an adapter.
#[verifier::opaque]
pub open spec fn adapter_tooling_diags(a: Json) -> Seq<(Seq<char>, Seq<char>, Seq<char>, MiniDiagCode)> {
    let path = "adapters."@ + text_or(member(a, "adapterId"@), "?"@);
    err_if(
        member(a, "consumesNeutralPackage"@) != Some(Json::Bool(true)),
        path + ".consumesNeutralPackage"@,
        "adapter must consume the shared neutral deploy package"@,
        MiniDiagCode::SharedFork,
    ) + err_if(
        at(a, "elementMapping"@, "vendorTemplateEmitter"@) == Some(Json::Bool(true)),
        path + ".elementMapping"@,
        "vendor template emitter forbidden (no WXML/AXML as truth)"@,
        MiniDiagCode::AdapterSemanticCore,
    ) + err_if(
        text_or(at(a, "vendorTooling"@, "role"@), ""@) != "transport-conformance"@,
        path + ".vendorTooling.role"@,
        "vendor tooling must stay transport-conformance"@,
        MiniDiagCode::AdapterSemanticCore,
    ) + err_if(
        at(a, "vendorTooling"@, "invokedInCi"@) != Some(Json::Bool(false)),
        path + ".vendorTooling.invokedInCi"@,
        "vendor tooling must not be invoked in CI gate"@,
        MiniDiagCode::AdapterSemanticCore,
    )
}

/// The checks of each adapter in turn.
pub open spec fn adapters_diags(adapters: Seq<Json>) -> Seq<(Seq<char>, Seq<char>, Seq<char>, MiniDiagCode)>
    decreases adapters.len(),
{
    if adapters.len() == 0 {
        Seq::empty()
    } else {
        adapters_diags(adapters.drop_last()) + adapter_diags(adapters.last())
    }
}

/// Every diagnostic of a multi-adapter manifest, in order.
pub open spec fn manifest_diags(m: Json, dialect: Seq<char>, plan_schema: Seq<char>) -> Seq<
    (Seq<char>, Seq<char>, Seq<char>, MiniDiagCode),
> {
    head_diags(m) + shared_diags(m, dialect, plan_schema) + count_diags(declared_adapters(m)) + adapters_diags(
        declared_adapters(m),
    )
}

/// An optional member as an optional model.
pub open spec fn view_opt(o: Option<&JsonValue>) -> Option<Json> {
    match o {
        Some(x) => Some(x@),
        None => None,
    }
}

fn push_err(out: &mut Vec<MiniDiagnostic>, path: String, message: String, code: MiniDiagCode)
    ensures
        mini_diags_view(final(out)@) == mini_diags_view(old(out)@).push(err(path@, message@, code)),
{
    let d = MiniDiagnostic { path, severity: String::from_str("error"), message, code };
    out.push(d);
    proof {
        assert(mini_diags_view(out@) =~= mini_diags_view(old(out)@).push(mini_diag_view(d)));
    }
}

fn text_or_exec(v: Option<&JsonValue>, default: &str) -> (r: String)
    ensures
        r@ == text_or(view_opt(v), default@),
{
    match v {
        Some(JsonValue::Str(s)) => s.clone(),
        _ => String::from_str(default),
    }
}

fn at_exec<'a>(v: &'a JsonValue, a: &str, b: &str) -> (r: Option<&'a JsonValue>)
    ensures
        view_opt(r) == at(v@, a@, b@),
{
    match v.get(a) {
        Some(x) => x.get(b),
        None => None,
    }
}

fn is_bool(v: Option<&JsonValue>, b: bool) -> (r: bool)
    ensures
        r == (view_opt(v) == Some(Json::Bool(b))),
{
    match v {
        Some(JsonValue::Bool(x)) => *x == b,
        _ => false,
    }
}

fn is_text(v: Option<&JsonValue>, t: &str) -> (r: bool)
    ensures
        r == (view_opt(v) == Some(Json::Str(t@))),
{
    match v {
        Some(JsonValue::Str(s)) => {
            let a = to_chars(s.as_str());
            let b = to_chars(t);
            chars_eq(a.as_slice(), b.as_slice())
        },
        _ => false,
    }
}

fn same(a: &String, b: &str) -> (r: bool)
    ensures
        r == (a@ == b@),
{
    let x = to_chars(a.as_str());
    let y = to_chars(b);
    chars_eq(x.as_slice(), y.as_slice())
}

fn cat(parts: &[&str]) -> (r: String)
    ensures
        r@ == parts@.fold_left(Seq::<char>::empty(), |acc: Seq<char>, p: &str| acc + p@),
{
    let mut out: Vec<char> = Vec::new();
    let mut i: usize = 0;
    while i < parts.len()
        invariant
            i <= parts.len(),
            out@ == parts@.take(i as int).fold_left(Seq::<char>::empty(), |acc: Seq<char>, p: &str| acc + p@),
        decreases parts.len() - i,
    {
        push_str(&mut out, parts[i]);
        proof {
            assert(parts@.take(i + 1).drop_last() =~= parts@.take(i as int));
        }
        i = i + 1;
    }
    proof {
        assert(parts@.take(parts@.len() as int) =~= parts@);
    }
    from_chars(out.as_slice())
}

fn cat2(a: &str, b: &str) -> (r: String)
    ensures
        r@ == a@ + b@,
{
    let mut v = to_chars(a);
    push_str(&mut v, b);
    from_chars(v.as_slice())
}

fn cat3(a: &str, b: &str, c: &str) -> (r: String)
    ensures
        r@ == a@ + b@ + c@,
{
    let mut v = to_chars(a);
    push_str(&mut v, b);
    push_str(&mut v, c);
    from_chars(v.as_slice())
}

fn head_checks(m: &JsonValue, out: &mut Vec<MiniDiagnostic>)
    ensures
        mini_diags_view(final(out)@) == mini_diags_view(old(out)@) + head_diags(m@),
{
    let ghost start = mini_diags_view(out@);
    let schema = text_or_exec(m.get("schema"), "");
    if !same(&schema, MINI_MULTI_ADAPTER_MANIFEST_SCHEMA) {
        let msg = cat3("multi_adapter schema must be `", MINI_MULTI_ADAPTER_MANIFEST_SCHEMA, "`");
        push_err(out, key("schema"), msg, MiniDiagCode::ArtifactInvalid);
    }
    let ghost mid = mini_diags_view(out@);
    if is_bool(m.get("allowsPlatformSemanticFork"), true) {
        push_err(
            out,
            key("allowsPlatformSemanticFork"),
            key("platform semantic fork is forbidden \u{2014} adapters share one Mini family contract"),
            MiniDiagCode::SharedFork,
        );
    }
    proof {
        reveal(head_diags);
        assert(mini_diags_view(out@) =~= start + head_diags(m@));
    }
}

fn shared_key_checks(m: &JsonValue, k: &str, want: &str, out: &mut Vec<MiniDiagnostic>)
    ensures
        mini_diags_view(final(out)@) == mini_diags_view(old(out)@) + shared_key_diags(m@, k@, want@),
{
    let ghost start = mini_diags_view(out@);
    let got = text_or_exec(at_exec(m, "shared", k), "");
    let path = cat2("shared.", k);
    if !same(&got, want) {
        let msg = cat(&["shared ", k, " must be `", want, "`, got `", got.as_str(), "`"]);
        proof {
            reveal_with_fuel(Seq::fold_left, 8);
        }
        push_err(out, path.clone(), msg, MiniDiagCode::SharedFork);
    }
    let gc = to_chars(got.as_str());
    if mini_platform_private_exec(gc.as_slice()) {
        let msg = cat3("platform-private schema forbidden in shared: `", got.as_str(), "`");
        push_err(out, path, msg, MiniDiagCode::PlatformPrivateSchema);
    }
    proof {
        reveal(shared_key_diags);
        assert(mini_diags_view(out@) =~= start + shared_key_diags(m@, k@, want@));
    }
}

fn has_adapter_exec(adapters: &Vec<JsonValue>, id: &str) -> (r: bool)
    ensures
        r == has_adapter(json_views(adapters@), id@),
{
    proof {
        lemma_json_views(adapters@);
    }
    let mut i: usize = 0;
    while i < adapters.len()
        invariant
            i <= adapters.len(),
            json_views(adapters@).len() == adapters@.len(),
            forall|k: int| 0 <= k < adapters@.len() ==> #[trigger] json_views(adapters@)[k] == adapters@[k]@,
            forall|k: int| 0 <= k < i ==> member(#[trigger] json_views(adapters@)[k], "adapterId"@) != Some(Json::Str(id@)),
        decreases adapters.len() - i,
    {
        if is_text(adapters[i].get("adapterId"), id) {
            proof {
                assert(member(json_views(adapters@)[i as int], "adapterId"@) == Some(Json::Str(id@)));
            }
            return true;
        }
        proof {
            assert(json_views(adapters@)[i as int] == adapters@[i as int]@);
        }
        i = i + 1;
    }
    false
}

fn count_checks(adapters: &Vec<JsonValue>, out: &mut Vec<MiniDiagnostic>)
    ensures
        mini_diags_view(final(out)@) == mini_diags_view(old(out)@) + count_diags(json_views(adapters@)),
{
    let ghost start = mini_diags_view(out@);
    proof {
        lemma_json_views(adapters@);
    }
    if !has_adapter_exec(adapters, "wechat-miniprogram") {
        let msg = cat3("missing required Mini adapter `", "wechat-miniprogram", "`");
        push_err(out, key("adapters"), msg, MiniDiagCode::MissingAdapter);
    }
    if !has_adapter_exec(adapters, "alipay-miniprogram") {
        let msg = cat3("missing required Mini adapter `", "alipay-miniprogram", "`");
        push_err(out, key("adapters"), msg, MiniDiagCode::MissingAdapter);
    }
    if adapters.len() < 2 {
        push_err(
            out,
            key("adapters"),
            key("MP6 requires \u{2265}2 Mini adapters sharing one neutral package"),
            MiniDiagCode::MissingAdapter,
        );
    }
    proof {
        reveal(count_diags);
        assert(mini_diags_view(out@) =~= start + count_diags(json_views(adapters@)));
    }
}

fn report_if(out: &mut Vec<MiniDiagnostic>, bad: bool, path: String, message: String, code: MiniDiagCode)
    ensures
        mini_diags_view(final(out)@) == mini_diags_view(old(out)@) + err_if(bad, path@, message@, code),
{
    if bad {
        push_err(out, path, message, code);
    } else {
        proof {
            assert(mini_diags_view(out@) =~= mini_diags_view(out@) + err_if(bad, path@, message@, code));
        }
    }
}

fn adapter_path(a: &JsonValue) -> (r: String)
    ensures
        r@ == "adapters."@ + text_or(member(a@, "adapterId"@), "?"@),
{
    let id = text_or_exec(a.get("adapterId"), "?");
    cat2("adapters.", id.as_str())
}

fn adapter_shape_checks(a: &JsonValue, out: &mut Vec<MiniDiagnostic>)
    ensures
        mini_diags_view(final(out)@) == mini_diags_view(old(out)@) + adapter_shape_diags(a@),
{
    let ghost start = mini_diags_view(out@);
    let path = adapter_path(a);
    let e1 = !is_text(a.get("schema"), MINI_ADAPTER_CONTRIBUTION_SCHEMA);
    let m1 = cat3("adapter schema must be `", MINI_ADAPTER_CONTRIBUTION_SCHEMA, "`");
    report_if(out, e1, path.clone(), m1, MiniDiagCode::ArtifactInvalid);
    let e2 = !is_text(a.get("kind"), "packaging-stub");
    report_if(
        out,
        e2,
        cat2(path.as_str(), ".kind"),
        key("Mini adapter kind must be `packaging-stub` (vendor packaging later)"),
        MiniDiagCode::AdapterSemanticCore,
    );
    let e3 = !is_bool(a.get("packagingOnly"), true);
    report_if(
        out,
        e3,
        cat2(path.as_str(), ".packagingOnly"),
        key("Mini adapter must be packaging-only"),
        MiniDiagCode::AdapterSemanticCore,
    );
    let e4 = is_bool(a.get("isSemanticTruthSource"), true);
    report_if(
        out,
        e4,
        cat2(path.as_str(), ".isSemanticTruthSource"),
        key("adapter must not become semantic truth \u{2014} VPG/Plan remain sole IR"),
        MiniDiagCode::AdapterSemanticCore,
    );
    proof {
        reveal(adapter_shape_diags);
        assert(mini_diags_view(out@) =~= start + adapter_shape_diags(a@));
    }
}

fn adapter_tooling_checks(a: &JsonValue, out: &mut Vec<MiniDiagnostic>)
    ensures
        mini_diags_view(final(out)@) == mini_diags_view(old(out)@) + adapter_tooling_diags(a@),
{
    let ghost start = mini_diags_view(out@);
    let path = adapter_path(a);
    let e5 = !is_bool(a.get("consumesNeutralPackage"), true);
    report_if(
        out,
        e5,
        cat2(path.as_str(), ".consumesNeutralPackage"),
        key("adapter must consume the shared neutral deploy package"),
        MiniDiagCode::SharedFork,
    );
    let e6 = is_bool(at_exec(a, "elementMapping", "vendorTemplateEmitter"), true);
    report_if(
        out,
        e6,
        cat2(path.as_str(), ".elementMapping"),
        key("vendor template emitter forbidden (no WXML/AXML as truth)"),
        MiniDiagCode::AdapterSemanticCore,
    );
    let role = text_or_exec(at_exec(a, "vendorTooling", "role"), "");
    let e7 = !same(&role, "transport-conformance");
    report_if(
        out,
        e7,
        cat2(path.as_str(), ".vendorTooling.role"),
        key("vendor tooling must stay transport-conformance"),
        MiniDiagCode::AdapterSemanticCore,
    );
    let e8 = !is_bool(at_exec(a, "vendorTooling", "invokedInCi"), false);
    report_if(
        out,
        e8,
        cat2(path.as_str(), ".vendorTooling.invokedInCi"),
        key("vendor tooling must not be invoked in CI gate"),
        MiniDiagCode::AdapterSemanticCore,
    );
    proof {
        reveal(adapter_tooling_diags);
        assert(mini_diags_view(out@) =~= start + adapter_tooling_diags(a@));
    }
}

fn adapter_checks(a: &JsonValue, out: &mut Vec<MiniDiagnostic>)
    ensures
        mini_diags_view(final(out)@) == mini_diags_view(old(out)@) + adapter_diags(a@),
{
    let ghost start = mini_diags_view(out@);
    adapter_shape_checks(a, out);
    adapter_tooling_checks(a, out);
    proof {
        reveal(adapter_diags);
        assert(mini_diags_view(out@) =~= start + adapter_diags(a@));
    }
}

fn shared_checks(manifest: &JsonValue, proto: &MiniProtocol, out: &mut Vec<MiniDiagnostic>)
    ensures
        mini_diags_view(final(out)@) == mini_diags_view(old(out)@) + shared_diags(manifest@, proto.dialect@, proto.plan_schema@),
{
    let ghost start = mini_diags_view(out@);
    shared_key_checks(manifest, "artifactSchema", MINI_PROGRAM_ARTIFACT_SCHEMA, out);
    shared_key_checks(manifest, "deployPackageSchema", MINI_DEPLOY_PACKAGE_SCHEMA, out);
    shared_key_checks(manifest, "hostSchema", MINI_HOST_SCHEMA, out);
    shared_key_checks(manifest, "dialect", proto.dialect.as_str(), out);
    shared_key_checks(manifest, "planSchema", proto.plan_schema.as_str(), out);
    proof {
        assert(mini_diags_view(out@) =~= start + shared_diags(manifest@, proto.dialect@, proto.plan_schema@));
    }
}

/// Check a multi-adapter manifest: its schema id, no semantic fork, the
/// shared contracts (each pinned id, none platform-private), the two
/// required adapters and at least two in all, then each adapter. Appends
/// one error per failed check, in that order.
pub fn validate_multi_adapter_manifest(manifest: &JsonValue, proto: &MiniProtocol, out: &mut Vec<MiniDiagnostic>)
    ensures
        mini_diags_view(final(out)@) == mini_diags_view(old(out)@) + manifest_diags(
            manifest@,
            proto.dialect@,
            proto.plan_schema@,
        ),
{
    let ghost start = mini_diags_view(out@);
    head_checks(manifest, out);
    shared_checks(manifest, proto, out);
    let ghost after_shared = mini_diags_view(out@);
    proof {
        assert(after_shared =~= start + head_diags(manifest@) + shared_diags(manifest@, proto.dialect@, proto.plan_schema@));
    }
    let empty: Vec<JsonValue> = Vec::new();
    let adapters: &Vec<JsonValue> = match manifest.get("adapters") {
        Some(JsonValue::Array(a)) => a,
        _ => &empty,
    };
    proof {
        assert(json_views(empty@) =~= Seq::<Json>::empty());
        assert(json_views(adapters@) == declared_adapters(manifest@));
        lemma_json_views(adapters@);
    }
    count_checks(adapters, out);
    let ghost after_count = mini_diags_view(out@);
    let mut i: usize = 0;
    while i < adapters.len()
        invariant
            i <= adapters.len(),
            json_views(adapters@) == declared_adapters(manifest@),
            json_views(adapters@).len() == adapters@.len(),
            forall|k: int| 0 <= k < adapters@.len() ==> #[trigger] json_views(adapters@)[k] == adapters@[k]@,
            mini_diags_view(out@) == after_count + adapters_diags(json_views(adapters@).take(i as int)),
        decreases adapters.len() - i,
    {
        adapter_checks(&adapters[i], out);
        proof {
            let t = json_views(adapters@).take(i + 1);
            assert(t.drop_last() =~= json_views(adapters@).take(i as int));
            assert(t.last() == adapters@[i as int]@);
        }
        i = i + 1;
    }
    proof {
        assert(json_views(adapters@).take(adapters@.len() as int) =~= json_views(adapters@));
        assert(mini_diags_view(out@) =~= start + manifest_diags(manifest@, proto.dialect@, proto.plan_schema@));
    }
}

} // verus!
