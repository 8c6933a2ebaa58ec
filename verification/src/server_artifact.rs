//! The server artifact document: public routes and internal capabilities,
//! the route decision tree, the HTTP contract and artifact digests, and the
//! documents projected for each server runtime adapter.

use vstd::prelude::*;
use crate::deployment::ArtifactError;
use crate::digest::{hex, sha256_hex, sha256_of_text};
use crate::json::{
    canonical, compact, to_json_text, with_member, member_lt, canonical_json, insert_member, items, json_copy, json_obj, json_view, json_views,
    lemma_json_views, lemma_member_views, member, member_views, obj, str_field, Json, JsonValue,
};
use crate::text::{chars_eq, from_chars, push_all, push_str, to_chars, trim, trim_chars};
use crate::wechat_pack::{decimal, decimal_exec};

verus! {

/// Schema id of a server artifact.
pub const SERVER_ARTIFACT_SCHEMA: &'static str = "vmz.server.artifact.v0";

/// Schema id of the HTTP contract whose digest an artifact carries.
pub const HTTP_CONTRACT_SCHEMA: &'static str = "vmz.http.contract.v0";

/// Schema id of a runtime adapter document.
pub const SERVER_RUNTIME_ADAPTER_SCHEMA: &'static str = "vmz.server.runtime_adapter.v0";

/// Path of the RPC transport.
pub const DEFAULT_RPC_PATH: &'static str = "/__vmz/rpc";

/// The server runtimes an artifact can select.
pub const SERVER_RUNTIMES: [&'static str; 5] = ["node", "worker", "deno", "bun", "rust-host"];

/// `id` is one of [`SERVER_RUNTIMES`].
pub open spec fn server_runtime(id: Seq<char>) -> bool {
    id == "node"@ || id == "worker"@ || id == "deno"@ || id == "bun"@ || id == "rust-host"@
}

/// Optional fields of a server artifact.
#[derive(Debug, Clone)]
pub struct ServerArtifactOpts {
    /// Delivery profile id.
    pub profile_id: Option<String>,
    /// Assembly id under the profile.
    pub assembly: Option<String>,
    /// Selected server runtime (`node`, `worker`, ...).
    pub server_runtime: Option<String>,
    /// Pack digest from release packing.
    pub pack_digest: Option<String>,
}

impl Default for ServerArtifactOpts {
    fn default() -> (r: Self)
        ensures
            r.profile_id is None,
            r.assembly is None,
            r.server_runtime is None,
            r.pack_digest is None,
    {
        ServerArtifactOpts { profile_id: None, assembly: None, server_runtime: None, pack_digest: None }
    }
}

/// A typed public-route row of an artifact.
#[derive(Debug, Clone, PartialEq, Eq)]
pub struct PublicRouteWire {
    /// HTTP verb.
    pub verb: String,
    /// Route path.
    pub path: String,
    /// Server module id.
    pub module_id: String,
    /// Method name.
    pub method: String,
    /// Class name, when known.
    pub class_name: Option<String>,
    /// Always `public`.
    pub visibility: String,
    /// Always `server-route`.
    pub kind: String,
}

/// An optional text as plain values.
pub open spec fn opt_view(o: Option<String>) -> Option<Seq<char>> {
    match o {
        Some(s) => Some(s@),
        None => None,
    }
}

/// `s` in upper case, as `str::to_uppercase` gives it.
pub uninterp spec fn upper_of(s: Seq<char>) -> Seq<char>;

/// Every character is ASCII.
pub open spec fn ascii_text(s: Seq<char>) -> bool {
    forall|i: int| 0 <= i < s.len() ==> #[trigger] s[i] <= '\u{7f}'
}

/// ASCII lower-case letters raised, other characters kept.
pub open spec fn ascii_upper(s: Seq<char>) -> Seq<char> {
    s.map_values(|c: char| if 'a' <= c && c <= 'z' { (c as int - 32) as char } else { c })
}

/// `str::to_uppercase`. The contract names its result and states the ASCII
/// case: a text of ASCII characters has its letters `a`..`z` raised and the
/// rest kept; the Unicode case mappings of other characters are not stated.
#[verifier::external_body]
fn to_upper(s: &str) -> (r: String)
    ensures
        r@ == upper_of(s@),
        ascii_text(s@) ==> r@ == ascii_upper(s@),
{
    s.to_uppercase()
}

/// `s` in upper case: ASCII letters raised when `s` is ASCII, else the
/// named `str::to_uppercase` result.
pub open spec fn upper_text(s: Seq<char>) -> Seq<char> {
    if ascii_text(s) {
        ascii_upper(s)
    } else {
        upper_of(s)
    }
}

/// The runtime an artifact selects: the trimmed option when it names a
/// known runtime, else `node`.
pub open spec fn runtime_of(raw: Option<Seq<char>>) -> Seq<char> {
    let v = trim(
        match raw {
            Some(s) => s,
            None => "node"@,
        },
    );
    if server_runtime(v) {
        v
    } else {
        "node"@
    }
}

fn is_server_runtime(v: &[char]) -> (r: bool)
    ensures
        r == server_runtime(v@),
{
    let a = to_chars("node");
    let b = to_chars("worker");
    let c = to_chars("deno");
    let d = to_chars("bun");
    let e = to_chars("rust-host");
    chars_eq(v, a.as_slice()) || chars_eq(v, b.as_slice()) || chars_eq(v, c.as_slice()) || chars_eq(v, d.as_slice())
        || chars_eq(v, e.as_slice())
}

fn normalize_runtime(raw: &Option<String>) -> (r: String)
    ensures
        r@ == runtime_of(opt_view(*raw)),
{
    let v = match raw {
        Some(s) => to_chars(s.as_str()),
        None => to_chars("node"),
    };
    let t = trim_chars(v.as_slice());
    if is_server_runtime(t.as_slice()) {
        from_chars(t.as_slice())
    } else {
        String::from_str("node")
    }
}

/// A non-empty text as a string value, else `null`.
pub open spec fn opt_text(v: Option<Seq<char>>) -> Json {
    match v {
        Some(s) => if s.len() > 0 {
            Json::Str(s)
        } else {
            Json::Null
        },
        None => Json::Null,
    }
}

fn opt_string_or_null(v: &Option<String>) -> (r: JsonValue)
    ensures
        r@ == opt_text(opt_view(*v)),
{
    match v {
        Some(s) => if s.as_str().is_empty() {
            JsonValue::Null
        } else {
            JsonValue::Str(s.clone())
        },
        None => JsonValue::Null,
    }
}

fn str_field_exec(v: &JsonValue, key: &str, default: &str) -> (r: String)
    ensures
        r@ == str_field(v@, key@, default@),
{
    match v.get(key) {
        Some(JsonValue::Str(s)) => s.clone(),
        _ => String::from_str(default),
    }
}

/// The class name of a route row: `null` when missing or null, the text of
/// a string, else the empty text.
pub open spec fn class_name_of(r: Json) -> Json {
    match member(r, "className"@) {
        Some(Json::Str(s)) => Json::Str(s),
        Some(Json::Null) => Json::Null,
        None => Json::Null,
        Some(_) => Json::Str(Seq::empty()),
    }
}

/// A route row as read: (verb in upper case, path, module id, method, class name).
pub open spec fn route_row(r: Json) -> (Seq<char>, Seq<char>, Seq<char>, Seq<char>, Json) {
    (
        upper_text(str_field(r, "verb"@, "GET"@)),
        str_field(r, "path"@, ""@),
        str_field(r, "moduleId"@, ""@),
        str_field(r, "method"@, ""@),
        class_name_of(r),
    )
}

/// The rows of a routes document (an array; any other value has none).
pub open spec fn route_rows(routes: Json) -> Seq<(Seq<char>, Seq<char>, Seq<char>, Seq<char>, Json)> {
    items(routes).map_values(|r: Json| route_row(r))
}

struct RouteRow {
    verb: String,
    path: String,
    module_id: String,
    method: String,
    class_name: JsonValue,
}

spec fn row_view(r: RouteRow) -> (Seq<char>, Seq<char>, Seq<char>, Seq<char>, Json) {
    (r.verb@, r.path@, r.module_id@, r.method@, r.class_name@)
}

fn read_route(r: &JsonValue) -> (row: RouteRow)
    ensures
        row_view(row) == route_row(r@),
{
    let verb = str_field_exec(r, "verb", "GET");
    let class_name = match r.get("className") {
        Some(JsonValue::Str(s)) => JsonValue::Str(s.clone()),
        Some(JsonValue::Null) => JsonValue::Null,
        None => JsonValue::Null,
        Some(_) => JsonValue::Str(String::new()),
    };
    RouteRow {
        verb: to_upper(verb.as_str()),
        path: str_field_exec(r, "path", ""),
        module_id: str_field_exec(r, "moduleId", ""),
        method: str_field_exec(r, "method", ""),
        class_name,
    }
}

fn read_routes(routes: &JsonValue) -> (rows: Vec<RouteRow>)
    ensures
        rows@.map_values(|r: RouteRow| row_view(r)) == route_rows(routes@),
{
    let mut rows: Vec<RouteRow> = Vec::new();
    match routes {
        JsonValue::Array(a) => {
            proof {
                lemma_json_views(a@);
            }
            let mut i: usize = 0;
            while i < a.len()
                invariant
                    i <= a.len(),
                    routes@ == Json::Array(json_views(a@)),
                    json_views(a@).len() == a@.len(),
                    forall|k: int| 0 <= k < a@.len() ==> #[trigger] json_views(a@)[k] == json_view(a@[k]),
                    rows@.len() == i,
                    forall|k: int| 0 <= k < i ==> row_view(#[trigger] rows@[k]) == route_row(json_view(a@[k])),
                decreases a.len() - i,
            {
                let row = read_route(&a[i]);
                rows.push(row);
                i = i + 1;
            }
            proof {
                assert(rows@.map_values(|r: RouteRow| row_view(r)) =~= route_rows(routes@));
            }
        },
        _ => {
            proof {
                assert(rows@.map_values(|r: RouteRow| row_view(r)) =~= route_rows(routes@));
            }
        },
    }
    rows
}

/// The public-route value of a row.
pub open spec fn public_route(row: (Seq<char>, Seq<char>, Seq<char>, Seq<char>, Json)) -> Json {
    obj(
        seq![
            ("verb"@, Json::Str(row.0)),
            ("path"@, Json::Str(row.1)),
            ("moduleId"@, Json::Str(row.2)),
            ("method"@, Json::Str(row.3)),
            ("className"@, row.4),
            ("visibility"@, Json::Str("public"@)),
            ("kind"@, Json::Str("server-route"@)),
        ],
    )
}

/// The key under which a module's method is known: `module::method`.
pub open spec fn route_key(module: Seq<char>, method: Seq<char>) -> Seq<char> {
    module + "::"@ + method
}

/// The keys of the public routes.
pub open spec fn public_keys(rows: Seq<(Seq<char>, Seq<char>, Seq<char>, Seq<char>, Json)>) -> Set<Seq<char>> {
    Set::new(|k: Seq<char>| exists|i: int| 0 <= i < rows.len() && route_key(rows[i].2, rows[i].3) == k)
}

fn text(s: &str) -> (r: JsonValue)
    ensures
        r@ == Json::Str(s@),
{
    JsonValue::Str(String::from_str(s))
}

fn key(s: &str) -> (r: String)
    ensures
        r@ == s@,
{
    String::from_str(s)
}

fn public_route_value(row: &RouteRow) -> (r: JsonValue)
    ensures
        r@ == public_route(row_view(*row)),
{
    let entries = vec![
        (key("verb"), JsonValue::Str(row.verb.clone())),
        (key("path"), JsonValue::Str(row.path.clone())),
        (key("moduleId"), JsonValue::Str(row.module_id.clone())),
        (key("method"), JsonValue::Str(row.method.clone())),
        (key("className"), json_copy(&row.class_name)),
        (key("visibility"), text("public")),
        (key("kind"), text("server-route")),
    ];
    proof {
        lemma_member_views(entries@);
        let rv = row_view(*row);
        assert(member_views(entries@) =~= seq![
            ("verb"@, Json::Str(rv.0)),
            ("path"@, Json::Str(rv.1)),
            ("moduleId"@, Json::Str(rv.2)),
            ("method"@, Json::Str(rv.3)),
            ("className"@, rv.4),
            ("visibility"@, Json::Str("public"@)),
            ("kind"@, Json::Str("server-route"@)),
        ]);
    }
    json_obj(entries)
}

fn route_key_exec(module: &String, method: &String) -> (r: Vec<char>)
    ensures
        r@ == route_key(module@, method@),
{
    let mut k = to_chars(module.as_str());
    push_str(&mut k, "::");
    push_str(&mut k, method.as_str());
    k
}

fn is_public_key(rows: &Vec<RouteRow>, k: &[char]) -> (r: bool)
    ensures
        r == public_keys(rows@.map_values(|x: RouteRow| row_view(x))).contains(k@),
{
    let ghost rv = rows@.map_values(|x: RouteRow| row_view(x));
    let mut i: usize = 0;
    while i < rows.len()
        invariant
            i <= rows.len(),
            rv == rows@.map_values(|x: RouteRow| row_view(x)),
            forall|j: int| 0 <= j < i ==> route_key(rv[j].2, rv[j].3) != k@,
        decreases rows.len() - i,
    {
        let c = route_key_exec(&rows[i].module_id, &rows[i].method);
        if chars_eq(c.as_slice(), k) {
            proof {
                assert(route_key(rv[i as int].2, rv[i as int].3) == k@);
            }
            return true;
        }
        i = i + 1;
    }
    false
}

/// The server module of a deployment unit (empty when missing or not a string).
pub open spec fn unit_module(u: Json) -> Seq<char> {
    match member(u, "serverModuleId"@) {
        Some(Json::Str(s)) => s,
        _ => Seq::empty(),
    }
}

/// A capability name (the empty text for a value that is not a string).
pub open spec fn cap_name(c: Json) -> Seq<char> {
    match c {
        Json::Str(s) => s,
        _ => Seq::empty(),
    }
}

/// The capabilities a deployment unit declares.
pub open spec fn unit_caps(u: Json) -> Seq<Seq<char>> {
    match member(u, "capabilities"@) {
        Some(Json::Array(a)) => a.map_values(|c: Json| cap_name(c)),
        _ => Seq::empty(),
    }
}

/// The internal-capability value of one method.
pub open spec fn capability(chunk: Seq<char>, module: Seq<char>, method: Seq<char>) -> Json {
    obj(
        seq![
            ("chunkId"@, Json::Str(chunk)),
            ("moduleId"@, Json::Str(module)),
            ("method"@, Json::Str(method)),
            ("visibility"@, Json::Str("internal"@)),
            ("kind"@, Json::Str("capability"@)),
        ],
    )
}

/// The capabilities among `caps` that no public route serves, in order.
pub open spec fn unit_capabilities(
    chunk: Seq<char>,
    module: Seq<char>,
    caps: Seq<Seq<char>>,
    keys: Set<Seq<char>>,
) -> Seq<Json>
    decreases caps.len(),
{
    if caps.len() == 0 {
        Seq::empty()
    } else {
        let rest = unit_capabilities(chunk, module, caps.drop_last(), keys);
        if keys.contains(route_key(module, caps.last())) {
            rest
        } else {
            rest.push(capability(chunk, module, caps.last()))
        }
    }
}

/// The internal capabilities of the units that name a server module, unit by
/// unit.
pub open spec fn internal_capabilities(units: Seq<Json>, keys: Set<Seq<char>>) -> Seq<Json>
    decreases units.len(),
{
    if units.len() == 0 {
        Seq::empty()
    } else {
        let u = units.last();
        let rest = internal_capabilities(units.drop_last(), keys);
        if unit_module(u).len() == 0 {
            rest
        } else {
            rest + unit_capabilities(str_field(u, "chunkId"@, ""@), unit_module(u), unit_caps(u), keys)
        }
    }
}

fn capability_value(chunk: &String, module: &String, method: &String) -> (r: JsonValue)
    ensures
        r@ == capability(chunk@, module@, method@),
{
    let entries = vec![
        (key("chunkId"), JsonValue::Str(chunk.clone())),
        (key("moduleId"), JsonValue::Str(module.clone())),
        (key("method"), JsonValue::Str(method.clone())),
        (key("visibility"), text("internal")),
        (key("kind"), text("capability")),
    ];
    proof {
        lemma_member_views(entries@);
        assert(member_views(entries@) =~= seq![
            ("chunkId"@, Json::Str(chunk@)),
            ("moduleId"@, Json::Str(module@)),
            ("method"@, Json::Str(method@)),
            ("visibility"@, Json::Str("internal"@)),
            ("kind"@, Json::Str("capability"@)),
        ]);
    }
    json_obj(entries)
}

proof fn lemma_views_push(s: Seq<JsonValue>, x: JsonValue)
    ensures
        json_views(s.push(x)) == json_views(s).push(json_view(x)),
{
    assert(s.push(x).drop_last() =~= s);
}

fn unit_internal(u: &JsonValue, rows: &Vec<RouteRow>, out: &mut Vec<JsonValue>)
    requires
        unit_module(u@).len() > 0,
    ensures
        json_views(final(out)@) == json_views(old(out)@) + unit_capabilities(
            str_field(u@, "chunkId"@, ""@),
            unit_module(u@),
            unit_caps(u@),
            public_keys(rows@.map_values(|x: RouteRow| row_view(x))),
        ),
{
    let ghost keys = public_keys(rows@.map_values(|x: RouteRow| row_view(x)));
    let ghost start = json_views(out@);
    let module = match u.get("serverModuleId") {
        Some(JsonValue::Str(s)) => s.clone(),
        _ => String::new(),
    };
    let chunk = str_field_exec(u, "chunkId", "");
    match u.get("capabilities") {
        Some(JsonValue::Array(a)) => {
            let ghost caps = a@.map_values(|c: JsonValue| cap_name(json_view(c)));
            proof {
                lemma_json_views(a@);
                assert(unit_caps(u@) =~= caps);
                assert(caps.take(0) =~= Seq::<Seq<char>>::empty());
                assert(json_views(out@) =~= start + unit_capabilities(chunk@, module@, caps.take(0), keys));
            }
            let mut j: usize = 0;
            while j < a.len()
                invariant
                    j <= a.len(),
                    caps == a@.map_values(|c: JsonValue| cap_name(json_view(c))),
                    keys == public_keys(rows@.map_values(|x: RouteRow| row_view(x))),
                    json_views(out@) == start + unit_capabilities(chunk@, module@, caps.take(j as int), keys),
                decreases a.len() - j,
            {
                let m = match &a[j] {
                    JsonValue::Str(s) => s.clone(),
                    _ => String::new(),
                };
                let k = route_key_exec(&module, &m);
                proof {
                    assert(caps.take(j + 1).drop_last() =~= caps.take(j as int));
                    assert(caps.take(j + 1).last() == m@);
                }
                if !is_public_key(rows, k.as_slice()) {
                    let c = capability_value(&chunk, &module, &m);
                    proof {
                        lemma_views_push(out@, c);
                    }
                    out.push(c);
                }
                j = j + 1;
            }
            proof {
                assert(caps.take(a@.len() as int) =~= caps);
            }
        },
        _ => {
            proof {
                assert(unit_caps(u@) =~= Seq::<Seq<char>>::empty());
                assert(json_views(out@) =~= start + unit_capabilities(chunk@, module@, unit_caps(u@), keys));
            }
        },
    }
}

fn collect_internal(units: &Vec<JsonValue>, rows: &Vec<RouteRow>) -> (r: Vec<JsonValue>)
    ensures
        json_views(r@) == internal_capabilities(json_views(units@), public_keys(rows@.map_values(|x: RouteRow| row_view(x)))),
{
    let ghost keys = public_keys(rows@.map_values(|x: RouteRow| row_view(x)));
    let ghost uv = json_views(units@);
    proof {
        lemma_json_views(units@);
    }
    let mut out: Vec<JsonValue> = Vec::new();
    let mut i: usize = 0;
    proof {
        assert(uv.take(0) =~= Seq::<Json>::empty());
        assert(json_views(out@) =~= Seq::<Json>::empty());
    }
    while i < units.len()
        invariant
            i <= units.len(),
            uv == json_views(units@),
            uv.len() == units@.len(),
            forall|k: int| 0 <= k < units@.len() ==> #[trigger] uv[k] == json_view(units@[k]),
            keys == public_keys(rows@.map_values(|x: RouteRow| row_view(x))),
            json_views(out@) == internal_capabilities(uv.take(i as int), keys),
        decreases units.len() - i,
    {
        let u = &units[i];
        proof {
            assert(uv.take(i + 1).drop_last() =~= uv.take(i as int));
            assert(uv.take(i + 1).last() == json_view(*u));
        }
        let has_module = match u.get("serverModuleId") {
            Some(JsonValue::Str(s)) => !s.as_str().is_empty(),
            _ => false,
        };
        if has_module {
            unit_internal(u, rows, &mut out);
        } else {
            proof {
                assert(unit_module(u@).len() == 0);
            }
        }
        i = i + 1;
    }
    proof {
        assert(uv.take(units@.len() as int) =~= uv);
    }
    out
}

/// The decision-tree node of the RPC transport.
pub open spec fn rpc_node() -> Json {
    obj(
        seq![
            ("id"@, Json::Str("rpc"@)),
            ("match"@, obj(seq![("method"@, Json::Str("POST"@)), ("path"@, Json::Str(DEFAULT_RPC_PATH@))])),
            ("action"@, Json::Str("invoke-rpc"@)),
            ("visibility"@, Json::Str("internal-transport"@)),
        ],
    )
}

/// The decision-tree node of public route `i`.
pub open spec fn route_node(i: nat, row: (Seq<char>, Seq<char>, Seq<char>, Seq<char>, Json)) -> Json {
    obj(
        seq![
            ("id"@, Json::Str("public-route-"@ + decimal(i))),
            ("match"@, obj(seq![("method"@, Json::Str(row.0)), ("path"@, Json::Str(row.1))])),
            ("action"@, Json::Str("invoke-server-route"@)),
            ("target"@, obj(seq![("moduleId"@, Json::Str(row.2)), ("method"@, Json::Str(row.3))])),
            ("visibility"@, Json::Str("public"@)),
        ],
    )
}

/// The route decision tree: the RPC node, then one node per public route.
pub open spec fn decision_tree(rows: Seq<(Seq<char>, Seq<char>, Seq<char>, Seq<char>, Json)>) -> Seq<Json> {
    seq![rpc_node()] + Seq::new(rows.len(), |i: int| route_node(i as nat, rows[i]))
}

/// A public route as the HTTP contract lists it.
pub open spec fn http_route(row: (Seq<char>, Seq<char>, Seq<char>, Seq<char>, Json)) -> Json {
    obj(
        seq![
            ("verb"@, Json::Str(row.0)),
            ("path"@, Json::Str(row.1)),
            ("moduleId"@, Json::Str(row.2)),
            ("method"@, Json::Str(row.3)),
        ],
    )
}

/// The HTTP contract whose digest an artifact carries.
pub open spec fn http_contract_body(
    rows: Seq<(Seq<char>, Seq<char>, Seq<char>, Seq<char>, Json)>,
    internal_count: nat,
) -> Json {
    obj(
        seq![
            ("schema"@, Json::Str(HTTP_CONTRACT_SCHEMA@)),
            ("rpcPath"@, Json::Str(DEFAULT_RPC_PATH@)),
            ("publicRoutes"@, Json::Array(rows.map_values(|r: (Seq<char>, Seq<char>, Seq<char>, Seq<char>, Json)| http_route(r)))),
            ("internalCapabilityCount"@, Json::Number(decimal(internal_count))),
            ("entry"@, Json::Str("fetch"@)),
        ],
    )
}

/// The digest of a value: SHA-256 of its canonical text, in hex.
pub open spec fn digest_of(v: Json) -> Seq<char> {
    hex(sha256_of_text(canonical(v)))
}

fn digest_value(v: &JsonValue) -> (r: String)
    ensures
        r@ == digest_of(v@),
        crate::digest::sha256_hex_text(r@),
{
    let t = canonical_json(v);
    sha256_hex(t.as_str())
}

fn rpc_node_value() -> (r: JsonValue)
    ensures
        r@ == rpc_node(),
{
    let m = vec![(key("method"), text("POST")), (key("path"), text(DEFAULT_RPC_PATH))];
    proof {
        lemma_member_views(m@);
        assert(member_views(m@) =~= seq![("method"@, Json::Str("POST"@)), ("path"@, Json::Str(DEFAULT_RPC_PATH@))]);
    }
    let entries = vec![
        (key("id"), text("rpc")),
        (key("match"), json_obj(m)),
        (key("action"), text("invoke-rpc")),
        (key("visibility"), text("internal-transport")),
    ];
    proof {
        lemma_member_views(entries@);
        assert(member_views(entries@) =~= seq![
            ("id"@, Json::Str("rpc"@)),
            ("match"@, obj(seq![("method"@, Json::Str("POST"@)), ("path"@, Json::Str(DEFAULT_RPC_PATH@))])),
            ("action"@, Json::Str("invoke-rpc"@)),
            ("visibility"@, Json::Str("internal-transport"@)),
        ]);
    }
    json_obj(entries)
}

fn route_node_value(i: usize, row: &RouteRow) -> (r: JsonValue)
    ensures
        r@ == route_node(i as nat, row_view(*row)),
{
    let mut id = to_chars("public-route-");
    let d = decimal_exec(i as u64);
    push_all(&mut id, d.as_slice());
    let m = vec![(key("method"), JsonValue::Str(row.verb.clone())), (key("path"), JsonValue::Str(row.path.clone()))];
    let t = vec![
        (key("moduleId"), JsonValue::Str(row.module_id.clone())),
        (key("method"), JsonValue::Str(row.method.clone())),
    ];
    proof {
        lemma_member_views(m@);
        lemma_member_views(t@);
        assert(member_views(m@) =~= seq![("method"@, Json::Str(row.verb@)), ("path"@, Json::Str(row.path@))]);
        assert(member_views(t@) =~= seq![("moduleId"@, Json::Str(row.module_id@)), ("method"@, Json::Str(row.method@))]);
    }
    let entries = vec![
        (key("id"), JsonValue::Str(from_chars(id.as_slice()))),
        (key("match"), json_obj(m)),
        (key("action"), text("invoke-server-route")),
        (key("target"), json_obj(t)),
        (key("visibility"), text("public")),
    ];
    proof {
        lemma_member_views(entries@);
        assert(member_views(entries@) =~= seq![
            ("id"@, Json::Str("public-route-"@ + decimal(i as nat))),
            ("match"@, obj(seq![("method"@, Json::Str(row.verb@)), ("path"@, Json::Str(row.path@))])),
            ("action"@, Json::Str("invoke-server-route"@)),
            ("target"@, obj(seq![("moduleId"@, Json::Str(row.module_id@)), ("method"@, Json::Str(row.method@))])),
            ("visibility"@, Json::Str("public"@)),
        ]);
    }
    json_obj(entries)
}

fn http_route_value(row: &RouteRow) -> (r: JsonValue)
    ensures
        r@ == http_route(row_view(*row)),
{
    let entries = vec![
        (key("verb"), JsonValue::Str(row.verb.clone())),
        (key("path"), JsonValue::Str(row.path.clone())),
        (key("moduleId"), JsonValue::Str(row.module_id.clone())),
        (key("method"), JsonValue::Str(row.method.clone())),
    ];
    proof {
        lemma_member_views(entries@);
        assert(member_views(entries@) =~= seq![
            ("verb"@, Json::Str(row.verb@)),
            ("path"@, Json::Str(row.path@)),
            ("moduleId"@, Json::Str(row.module_id@)),
            ("method"@, Json::Str(row.method@)),
        ]);
    }
    json_obj(entries)
}

/// The public routes, the route decision tree and the HTTP contract's route
/// list of the rows.
fn route_values(rows: &Vec<RouteRow>) -> (r: (Vec<JsonValue>, Vec<JsonValue>, Vec<JsonValue>))
    ensures
        json_views(r.0@) == rows@.map_values(|x: RouteRow| row_view(x)).map_values(
            |x: (Seq<char>, Seq<char>, Seq<char>, Seq<char>, Json)| public_route(x),
        ),
        json_views(r.1@) == decision_tree(rows@.map_values(|x: RouteRow| row_view(x))),
        json_views(r.2@) == rows@.map_values(|x: RouteRow| row_view(x)).map_values(
            |x: (Seq<char>, Seq<char>, Seq<char>, Seq<char>, Json)| http_route(x),
        ),
{
    let ghost rv = rows@.map_values(|x: RouteRow| row_view(x));
    let mut public: Vec<JsonValue> = Vec::new();
    let mut tree: Vec<JsonValue> = Vec::new();
    let mut http: Vec<JsonValue> = Vec::new();
    tree.push(rpc_node_value());
    let mut i: usize = 0;
    while i < rows.len()
        invariant
            i <= rows.len(),
            rv == rows@.map_values(|x: RouteRow| row_view(x)),
            public@.len() == i,
            tree@.len() == i + 1,
            http@.len() == i,
            json_view(tree@[0]) == rpc_node(),
            forall|k: int| 0 <= k < i ==> json_view(#[trigger] public@[k]) == public_route(rv[k]),
            forall|k: int| 0 <= k < i ==> json_view(#[trigger] tree@[k + 1]) == route_node(k as nat, rv[k]),
            forall|k: int| 0 <= k < i ==> json_view(#[trigger] http@[k]) == http_route(rv[k]),
        decreases rows.len() - i,
    {
        let p = public_route_value(&rows[i]);
        public.push(p);
        let n = route_node_value(i, &rows[i]);
        tree.push(n);
        let h = http_route_value(&rows[i]);
        http.push(h);
        proof {
            assert(json_view(tree@[i + 1]) == route_node(i as nat, rv[i as int]));
        }
        i = i + 1;
    }
    proof {
        lemma_json_views(public@);
        lemma_json_views(tree@);
        lemma_json_views(http@);
        assert(json_views(public@) =~= rv.map_values(|x: (Seq<char>, Seq<char>, Seq<char>, Seq<char>, Json)| public_route(x)));
        assert forall|k: int| 0 <= k < tree@.len() implies #[trigger] json_views(tree@)[k] == decision_tree(rv)[k] by {
            if k > 0 {
                assert(json_view(tree@[(k - 1) + 1]) == route_node((k - 1) as nat, rv[k - 1]));
            }
        }
        assert(json_views(tree@) =~= decision_tree(rv));
        assert(json_views(http@) =~= rv.map_values(|x: (Seq<char>, Seq<char>, Seq<char>, Seq<char>, Json)| http_route(x)));
    }
    (public, tree, http)
}

/// An adapter entry of an artifact.
pub open spec fn adapter(kind: Seq<char>, status: Seq<char>, entry: Seq<char>) -> Json {
    obj(seq![("kind"@, Json::Str(kind)), ("status"@, Json::Str(status)), ("entry"@, Json::Str(entry))])
}

/// The adapters of an artifact, one per server runtime.
pub open spec fn adapters() -> Json {
    obj(
        seq![
            ("node"@, adapter("node-http"@, "runtime"@, "handleNodeRequest"@)),
            ("worker"@, adapter("fetch"@, "runtime"@, "handleFetchRequest"@)),
            ("deno"@, adapter("fetch"@, "projected"@, "handleFetchRequest"@)),
            ("bun"@, adapter("fetch"@, "projected"@, "handleFetchRequest"@)),
            ("rust-host"@, adapter("contract-projection"@, "projected"@, "fetch"@)),
        ],
    )
}

/// The fetch entry of an artifact.
pub open spec fn entry_json() -> Json {
    obj(
        seq![
            ("kind"@, Json::Str("fetch"@)),
            (
                "standards"@,
                Json::Array(
                    seq![
                        Json::Str("Request"@),
                        Json::Str("Response"@),
                        Json::Str("Streams"@),
                        Json::Str("AbortSignal"@),
                    ],
                ),
            ),
            ("rpcPath"@, Json::Str(DEFAULT_RPC_PATH@)),
        ],
    )
}

fn adapter_value(kind: &str, status: &str, entry: &str) -> (r: JsonValue)
    ensures
        r@ == adapter(kind@, status@, entry@),
{
    let entries = vec![(key("kind"), text(kind)), (key("status"), text(status)), (key("entry"), text(entry))];
    proof {
        lemma_member_views(entries@);
        assert(member_views(entries@) =~= seq![
            ("kind"@, Json::Str(kind@)),
            ("status"@, Json::Str(status@)),
            ("entry"@, Json::Str(entry@)),
        ]);
    }
    json_obj(entries)
}

fn adapters_value() -> (r: JsonValue)
    ensures
        r@ == adapters(),
{
    let entries = vec![
        (key("node"), adapter_value("node-http", "runtime", "handleNodeRequest")),
        (key("worker"), adapter_value("fetch", "runtime", "handleFetchRequest")),
        (key("deno"), adapter_value("fetch", "projected", "handleFetchRequest")),
        (key("bun"), adapter_value("fetch", "projected", "handleFetchRequest")),
        (key("rust-host"), adapter_value("contract-projection", "projected", "fetch")),
    ];
    proof {
        lemma_member_views(entries@);
        assert(member_views(entries@) =~= seq![
            ("node"@, adapter("node-http"@, "runtime"@, "handleNodeRequest"@)),
            ("worker"@, adapter("fetch"@, "runtime"@, "handleFetchRequest"@)),
            ("deno"@, adapter("fetch"@, "projected"@, "handleFetchRequest"@)),
            ("bun"@, adapter("fetch"@, "projected"@, "handleFetchRequest"@)),
            ("rust-host"@, adapter("contract-projection"@, "projected"@, "fetch"@)),
        ]);
    }
    json_obj(entries)
}

fn entry_value() -> (r: JsonValue)
    ensures
        r@ == entry_json(),
{
    let standards = vec![text("Request"), text("Response"), text("Streams"), text("AbortSignal")];
    proof {
        lemma_json_views(standards@);
        assert(json_views(standards@) =~= seq![
            Json::Str("Request"@),
            Json::Str("Response"@),
            Json::Str("Streams"@),
            Json::Str("AbortSignal"@),
        ]);
    }
    let entries = vec![
        (key("kind"), text("fetch")),
        (key("standards"), JsonValue::Array(standards)),
        (key("rpcPath"), text(DEFAULT_RPC_PATH)),
    ];
    proof {
        lemma_member_views(entries@);
        assert(member_views(entries@) =~= seq![
            ("kind"@, Json::Str("fetch"@)),
            (
                "standards"@,
                Json::Array(
                    seq![
                        Json::Str("Request"@),
                        Json::Str("Response"@),
                        Json::Str("Streams"@),
                        Json::Str("AbortSignal"@),
                    ],
                ),
            ),
            ("rpcPath"@, Json::Str(DEFAULT_RPC_PATH@)),
        ]);
    }
    json_obj(entries)
}

fn http_contract_value(http: Vec<JsonValue>, internal_count: usize) -> (r: JsonValue)
    ensures
        r@ == obj(
            seq![
                ("schema"@, Json::Str(HTTP_CONTRACT_SCHEMA@)),
                ("rpcPath"@, Json::Str(DEFAULT_RPC_PATH@)),
                ("publicRoutes"@, Json::Array(json_views(http@))),
                ("internalCapabilityCount"@, Json::Number(decimal(internal_count as nat))),
                ("entry"@, Json::Str("fetch"@)),
            ],
        ),
{
    let ghost hv = json_views(http@);
    let n = decimal_exec(internal_count as u64);
    let entries = vec![
        (key("schema"), text(HTTP_CONTRACT_SCHEMA)),
        (key("rpcPath"), text(DEFAULT_RPC_PATH)),
        (key("publicRoutes"), JsonValue::Array(http)),
        (key("internalCapabilityCount"), JsonValue::Number(from_chars(n.as_slice()))),
        (key("entry"), text("fetch")),
    ];
    proof {
        lemma_member_views(entries@);
        assert(member_views(entries@) =~= seq![
            ("schema"@, Json::Str(HTTP_CONTRACT_SCHEMA@)),
            ("rpcPath"@, Json::Str(DEFAULT_RPC_PATH@)),
            ("publicRoutes"@, Json::Array(hv)),
            ("internalCapabilityCount"@, Json::Number(decimal(internal_count as nat))),
            ("entry"@, Json::Str("fetch"@)),
        ]);
    }
    json_obj(entries)
}

/// The optional fields as plain values.
pub open spec fn opts_view(o: ServerArtifactOpts) -> (
    Option<Seq<char>>,
    Option<Seq<char>>,
    Option<Seq<char>>,
    Option<Seq<char>>,
) {
    (opt_view(o.profile_id), opt_view(o.assembly), opt_view(o.server_runtime), opt_view(o.pack_digest))
}

/// A document read, or `default` when there was none.
pub open spec fn doc_or(o: Option<&JsonValue>, default: Json) -> Json {
    match o {
        Some(v) => v@,
        None => default,
    }
}

/// The units of a deployment document (none unless `units` is an array).
pub open spec fn deployment_units(d: Json) -> Seq<Json> {
    match member(d, "units"@) {
        Some(Json::Array(a)) => a,
        _ => Seq::empty(),
    }
}

/// The schema of a deployment document, as it stands (`null` when missing).
pub open spec fn deployment_schema(d: Json) -> Json {
    match member(d, "schema"@) {
        Some(v) => v,
        None => Json::Null,
    }
}

/// The members of an artifact before its own digest.
pub open spec fn artifact_members(
    d: Json,
    routes: Json,
    opts: (Option<Seq<char>>, Option<Seq<char>>, Option<Seq<char>>, Option<Seq<char>>),
) -> Seq<(Seq<char>, Json)> {
    let rows = route_rows(routes);
    let internals = internal_capabilities(deployment_units(d), public_keys(rows));
    let contract = http_contract_body(rows, internals.len());
    seq![
        ("schema"@, Json::Str(SERVER_ARTIFACT_SCHEMA@)),
        ("profileId"@, opt_text(opts.0)),
        ("assembly"@, opt_text(opts.1)),
        ("selectedRuntime"@, Json::Str(runtime_of(opts.2))),
        ("entry"@, entry_json()),
        ("httpContract"@, obj(seq![("schema"@, Json::Str(HTTP_CONTRACT_SCHEMA@)), ("digest"@, Json::Str(digest_of(contract)))])),
        ("publicRoutes"@, Json::Array(rows.map_values(|r: (Seq<char>, Seq<char>, Seq<char>, Seq<char>, Json)| public_route(r)))),
        ("internalCapabilities"@, Json::Array(internals)),
        ("middlewareUnits"@, Json::Array(Seq::empty())),
        ("routeDecisionTree"@, Json::Array(decision_tree(rows))),
        ("deploymentSchema"@, deployment_schema(d)),
        ("packDigest"@, opt_text(opts.3)),
        ("adapters"@, adapters()),
    ]
}

/// The server artifact of a deployment and a routes document: its members,
/// plus `artifactDigest`, the digest of the artifact without it (64
/// lowercase hex digits, as the functions that build it state).
pub open spec fn server_artifact(
    d: Json,
    routes: Json,
    opts: (Option<Seq<char>>, Option<Seq<char>>, Option<Seq<char>>, Option<Seq<char>>),
) -> Json {
    let m = artifact_members(d, routes, opts);
    obj(m.push(("artifactDigest"@, Json::Str(digest_of(obj(m))))))
}

/// The server artifact of a deployment document and a routes document.
/// `None` stands for a text that was blank or not JSON: the deployment is
/// then `null` and the routes an empty array.
pub fn normalize_server_artifact(
    deployment: Option<&JsonValue>,
    routes: Option<&JsonValue>,
    opts: &ServerArtifactOpts,
) -> (r: Result<JsonValue, ArtifactError>)
    ensures
        r matches Ok(v) && v@ == server_artifact(
            doc_or(deployment, Json::Null),
            doc_or(routes, Json::Array(Seq::empty())),
            opts_view(*opts),
        ),
        crate::digest::sha256_hex_text(
            digest_of(
                obj(artifact_members(doc_or(deployment, Json::Null), doc_or(routes, Json::Array(Seq::empty())), opts_view(*opts))),
            ),
        ),
{
    let ghost dv = doc_or(deployment, Json::Null);
    let ghost rtv = doc_or(routes, Json::Array(Seq::empty()));
    let rows = match routes {
        Some(r) => read_routes(r),
        None => {
            let v: Vec<RouteRow> = Vec::new();
            proof {
                assert(v@.map_values(|x: RouteRow| row_view(x)) =~= route_rows(rtv));
            }
            v
        },
    };
    let ghost rv = rows@.map_values(|x: RouteRow| row_view(x));
    let empty_units: Vec<JsonValue> = Vec::new();
    let units: &Vec<JsonValue> = match deployment {
        Some(d) => match d.get("units") {
            Some(JsonValue::Array(a)) => a,
            _ => &empty_units,
        },
        None => &empty_units,
    };
    proof {
        assert(json_views(empty_units@) =~= Seq::<Json>::empty());
        assert(json_views(units@) == deployment_units(dv));
    }
    let internals = collect_internal(units, &rows);
    let ghost iv = json_views(internals@);
    proof {
        lemma_json_views(internals@);
    }
    let (public, tree, http) = route_values(&rows);
    let body = http_contract_value(http, internals.len());
    let http_digest = digest_value(&body);
    let hc_entries = vec![(key("schema"), text(HTTP_CONTRACT_SCHEMA)), (key("digest"), JsonValue::Str(http_digest))];
    proof {
        lemma_member_views(hc_entries@);
        assert(rv.map_values(|r: (Seq<char>, Seq<char>, Seq<char>, Seq<char>, Json)| http_route(r)).len() == rv.len());
        assert(body@ == http_contract_body(rv, iv.len()));
        assert(member_views(hc_entries@) =~= seq![
            ("schema"@, Json::Str(HTTP_CONTRACT_SCHEMA@)),
            ("digest"@, Json::Str(digest_of(http_contract_body(rv, iv.len())))),
        ]);
    }
    let schema = match deployment {
        Some(d) => match d.get("schema") {
            Some(v) => json_copy(v),
            None => JsonValue::Null,
        },
        None => JsonValue::Null,
    };
    let no_units: Vec<JsonValue> = Vec::new();
    proof {
        assert(json_views(no_units@) =~= Seq::<Json>::empty());
    }
    let entries = vec![
        (key("schema"), text(SERVER_ARTIFACT_SCHEMA)),
        (key("profileId"), opt_string_or_null(&opts.profile_id)),
        (key("assembly"), opt_string_or_null(&opts.assembly)),
        (key("selectedRuntime"), JsonValue::Str(normalize_runtime(&opts.server_runtime))),
        (key("entry"), entry_value()),
        (key("httpContract"), json_obj(hc_entries)),
        (key("publicRoutes"), JsonValue::Array(public)),
        (key("internalCapabilities"), JsonValue::Array(internals)),
        (key("middlewareUnits"), JsonValue::Array(no_units)),
        (key("routeDecisionTree"), JsonValue::Array(tree)),
        (key("deploymentSchema"), schema),
        (key("packDigest"), opt_string_or_null(&opts.pack_digest)),
        (key("adapters"), adapters_value()),
    ];
    let ghost am = artifact_members(dv, rtv, opts_view(*opts));
    proof {
        lemma_member_views(entries@);
        assert(member_views(entries@) =~= am);
    }
    let artifact = json_obj(entries);
    let digest = digest_value(&artifact);
    proof {
        crate::order::lemma_stable_sort_push(am, ("artifactDigest"@, Json::Str(digest@)), member_lt());
    }
    Ok(with_member(artifact, key("artifactDigest"), JsonValue::Str(digest)))
}

/// The server artifact as compact JSON text.
pub fn normalize_server_artifact_json(
    deployment: Option<&JsonValue>,
    routes: Option<&JsonValue>,
    opts: &ServerArtifactOpts,
) -> (r: Result<String, ArtifactError>)
    ensures
        r matches Ok(t) && t@ == compact(
            server_artifact(doc_or(deployment, Json::Null), doc_or(routes, Json::Array(Seq::empty())), opts_view(*opts)),
        ),
{
    match normalize_server_artifact(deployment, routes, opts) {
        Ok(v) => Ok(to_json_text(&v)),
        Err(e) => Err(e),
    }
}

/// A member of `v`, or `null` when missing.
pub open spec fn member_or_null(v: Json, k: Seq<char>) -> Json {
    match member(v, k) {
        Some(x) => x,
        None => Json::Null,
    }
}

/// The number of elements of member `k` when it is an array, else 0.
pub open spec fn array_count(v: Json, k: Seq<char>) -> nat {
    match member(v, k) {
        Some(Json::Array(a)) => a.len(),
        _ => 0,
    }
}

/// The members every adapter document has.
pub open spec fn adapter_base(artifact: Json, id: Seq<char>) -> Seq<(Seq<char>, Json)> {
    seq![
        ("schema"@, Json::Str(SERVER_RUNTIME_ADAPTER_SCHEMA@)),
        ("adapterId"@, Json::Str(id)),
        ("artifactDigest"@, member_or_null(artifact, "artifactDigest"@)),
        ("httpContractDigest"@, member_or_null(member_or_null(artifact, "httpContract"@), "digest"@)),
        ("spaFallback"@, Json::Bool(false)),
        ("entry"@, member_or_null(artifact, "entry"@)),
        ("publicRouteCount"@, Json::Number(decimal(array_count(artifact, "publicRoutes"@)))),
        ("internalCapabilityCount"@, Json::Number(decimal(array_count(artifact, "internalCapabilities"@)))),
    ]
}

/// The members particular to an adapter.
pub open spec fn adapter_extra(id: Seq<char>) -> Seq<(Seq<char>, Json)> {
    if id == "node"@ {
        seq![
            ("host"@, Json::Str("node:http"@)),
            ("invoke"@, Json::Str("handleNodeRequest"@)),
            ("status"@, Json::Str("runtime"@)),
        ]
    } else if id == "worker"@ {
        seq![
            ("host"@, Json::Str("fetch"@)),
            ("invoke"@, Json::Str("handleFetchRequest"@)),
            ("status"@, Json::Str("runtime"@)),
            ("note"@, Json::Str("Fetch entry; live thin gated via worker-shaped subprocess host"@)),
        ]
    } else if id == "deno"@ || id == "bun"@ {
        seq![
            ("host"@, Json::Str("fetch"@)),
            ("invoke"@, Json::Str("handleFetchRequest"@)),
            ("status"@, Json::Str("projected"@)),
            ("note"@, Json::Str("Fetch contract projection; live runtime not gated"@)),
        ]
    } else {
        seq![
            ("host"@, Json::Str("rust-fetch-consumer"@)),
            ("invoke"@, Json::Str("fetch"@)),
            ("status"@, Json::Str("projected"@)),
            ("note"@, Json::Str("contract projection only \u{2014} live Rust host binary parity not gated"@)),
            (
                "consumes"@,
                Json::Array(
                    seq![
                        Json::Str("server-artifact.json"@),
                        Json::Str("vmz-routes.json"@),
                        Json::Str("vmz-deployment.json"@),
                    ],
                ),
            ),
        ]
    }
}

fn member_or_null_exec(v: &JsonValue, k: &str) -> (r: JsonValue)
    ensures
        r@ == member_or_null(v@, k@),
{
    match v.get(k) {
        Some(x) => json_copy(x),
        None => JsonValue::Null,
    }
}

fn array_count_exec(v: &JsonValue, k: &str) -> (r: usize)
    ensures
        r == array_count(v@, k@),
{
    match v.get(k) {
        Some(JsonValue::Array(a)) => {
            proof {
                lemma_json_views(a@);
            }
            a.len()
        },
        _ => 0,
    }
}

fn count_value(n: usize) -> (r: JsonValue)
    ensures
        r@ == Json::Number(decimal(n as nat)),
{
    let d = decimal_exec(n as u64);
    JsonValue::Number(from_chars(d.as_slice()))
}

fn adapter_extra_values(id: &[char], out: &mut Vec<(String, JsonValue)>)
    ensures
        member_views(final(out)@) == member_views(old(out)@) + adapter_extra(id@),
{
    let ghost start = old(out)@;
    let node = to_chars("node");
    let worker = to_chars("worker");
    let deno = to_chars("deno");
    let bun = to_chars("bun");
    if chars_eq(id, node.as_slice()) {
        out.push((key("host"), text("node:http")));
        out.push((key("invoke"), text("handleNodeRequest")));
        out.push((key("status"), text("runtime")));
    } else if chars_eq(id, worker.as_slice()) {
        out.push((key("host"), text("fetch")));
        out.push((key("invoke"), text("handleFetchRequest")));
        out.push((key("status"), text("runtime")));
        out.push((key("note"), text("Fetch entry; live thin gated via worker-shaped subprocess host")));
    } else if chars_eq(id, deno.as_slice()) || chars_eq(id, bun.as_slice()) {
        out.push((key("host"), text("fetch")));
        out.push((key("invoke"), text("handleFetchRequest")));
        out.push((key("status"), text("projected")));
        out.push((key("note"), text("Fetch contract projection; live runtime not gated")));
    } else {
        let consumes = vec![text("server-artifact.json"), text("vmz-routes.json"), text("vmz-deployment.json")];
        proof {
            lemma_json_views(consumes@);
            assert(json_views(consumes@) =~= seq![
                Json::Str("server-artifact.json"@),
                Json::Str("vmz-routes.json"@),
                Json::Str("vmz-deployment.json"@),
            ]);
        }
        out.push((key("host"), text("rust-fetch-consumer")));
        out.push((key("invoke"), text("fetch")));
        out.push((key("status"), text("projected")));
        out.push((key("note"), text("contract projection only \u{2014} live Rust host binary parity not gated")));
        out.push((key("consumes"), JsonValue::Array(consumes)));
    }
    proof {
        lemma_member_views(start);
        lemma_member_views(out@);
        assert(member_views(out@) =~= member_views(start) + adapter_extra(id@));
    }
}

/// The adapter document of `adapter_id` (trimmed), or the refusal of an
/// unknown adapter.
pub open spec fn adapter_projection(artifact: Json, adapter_id: Seq<char>) -> Result<Json, Seq<char>> {
    let id = trim(adapter_id);
    if server_runtime(id) {
        Ok(obj(adapter_base(artifact, id) + adapter_extra(id)))
    } else {
        Err("projectServerRuntimeAdapter: unknown adapter "@ + id)
    }
}

/// Project the document of one runtime adapter from an artifact.
pub fn project_server_runtime_adapter(artifact: &JsonValue, adapter_id: &str) -> (r: Result<JsonValue, ArtifactError>)
    ensures
        match r {
            Ok(v) => adapter_projection(artifact@, adapter_id@) == Ok::<Json, Seq<char>>(v@),
            Err(ArtifactError::Message(m)) => adapter_projection(artifact@, adapter_id@) == Err::<Json, Seq<char>>(m@),
            Err(_) => false,
        },
{
    let raw = to_chars(adapter_id);
    let id = trim_chars(raw.as_slice());
    if !is_server_runtime(id.as_slice()) {
        let mut m = to_chars("projectServerRuntimeAdapter: unknown adapter ");
        push_all(&mut m, id.as_slice());
        return Err(ArtifactError::Message(from_chars(m.as_slice())));
    }
    let http = member_or_null_exec(artifact, "httpContract");
    let mut entries = vec![
        (key("schema"), text(SERVER_RUNTIME_ADAPTER_SCHEMA)),
        (key("adapterId"), JsonValue::Str(from_chars(id.as_slice()))),
        (key("artifactDigest"), member_or_null_exec(artifact, "artifactDigest")),
        (key("httpContractDigest"), member_or_null_exec(&http, "digest")),
        (key("spaFallback"), JsonValue::Bool(false)),
        (key("entry"), member_or_null_exec(artifact, "entry")),
        (key("publicRouteCount"), count_value(array_count_exec(artifact, "publicRoutes"))),
        (key("internalCapabilityCount"), count_value(array_count_exec(artifact, "internalCapabilities"))),
    ];
    proof {
        lemma_member_views(entries@);
        assert(member_views(entries@) =~= adapter_base(artifact@, id@));
    }
    adapter_extra_values(id.as_slice(), &mut entries);
    Ok(json_obj(entries))
}

/// Normalize deployment and routes JSON texts into a server artifact: a
/// text that is blank or no JSON counts as no document (`null` deployment,
/// empty routes).
pub fn normalize_server_artifact_text(deployment_json: &str, routes_json: &str, opts: &ServerArtifactOpts) -> (r: Result<JsonValue, ArtifactError>)
    ensures
        r matches Ok(v) && v@ == server_artifact(
            crate::json::text_doc(deployment_json@, Json::Null),
            crate::json::text_doc(routes_json@, Json::Array(Seq::empty())),
            opts_view(*opts),
        ),
        crate::digest::sha256_hex_text(
            digest_of(
                obj(
                    artifact_members(
                        crate::json::text_doc(deployment_json@, Json::Null),
                        crate::json::text_doc(routes_json@, Json::Array(Seq::empty())),
                        opts_view(*opts),
                    ),
                ),
            ),
        ),
{
    let deployment = crate::json::parse_json_text(deployment_json);
    let routes = crate::json::parse_json_text(routes_json);
    let d = match &deployment {
        Ok(v) => Some(v),
        Err(_) => None,
    };
    let rt = match &routes {
        Ok(v) => Some(v),
        Err(_) => None,
    };
    normalize_server_artifact(d, rt, opts)
}


/// Project the document of one runtime adapter from artifact JSON text, as
/// compact JSON text; a text that is no JSON is refused with the parser's
/// message.
pub fn project_server_runtime_adapter_json(artifact_json: &str, adapter_id: &str) -> (r: Result<String, ArtifactError>)
    ensures
        match r {
            Ok(s) => crate::json::json_of_text(artifact_json@) is Some && adapter_projection(
                crate::json::json_of_text(artifact_json@)->0,
                adapter_id@,
            ) is Ok && s@ == crate::json::compact(
                adapter_projection(crate::json::json_of_text(artifact_json@)->0, adapter_id@)->Ok_0,
            ),
            Err(ArtifactError::Json(m)) => crate::json::json_of_text(artifact_json@) is None && m@ == crate::json::json_error_of(
                artifact_json@,
            ),
            Err(ArtifactError::Message(m)) => crate::json::json_of_text(artifact_json@) is Some && adapter_projection(
                crate::json::json_of_text(artifact_json@)->0,
                adapter_id@,
            ) == Err::<Json, Seq<char>>(m@),
            Err(_) => false,
        },
{
    let artifact = match crate::json::parse_json_text(artifact_json) {
        Ok(v) => v,
        Err(e) => {
            return Err(ArtifactError::Json(e));
        },
    };
    match project_server_runtime_adapter(&artifact, adapter_id) {
        Ok(p) => Ok(crate::json::to_json_text(&p)),
        Err(e) => Err(e),
    }
}


/// Runtime law: the selected runtime is the trimmed requested runtime when
/// that is one of `node`, `worker`, `deno`, `bun`, `rust-host`, and `node`
/// otherwise.
pub proof fn lemma_selected_runtime(raw: Seq<char>)
    ensures
        ({
            let t = trim(raw);
            let known = t == "node"@ || t == "worker"@ || t == "deno"@ || t == "bun"@ || t == "rust-host"@;
            &&& known ==> runtime_of(Some(raw)) == t
            &&& !known ==> runtime_of(Some(raw)) == "node"@
        }),
{
}

} // verus!
