use vmz_compiler::deployment::ArtifactError;
use vmz_compiler::json::{canonical_json, sort_keys, to_json_text, JsonValue};
use vmz_compiler::server_artifact::{
    normalize_server_artifact, normalize_server_artifact_json, normalize_server_artifact_text, project_server_runtime_adapter, project_server_runtime_adapter_json, ServerArtifactOpts,
    SERVER_ARTIFACT_SCHEMA, SERVER_RUNTIMES, SERVER_RUNTIME_ADAPTER_SCHEMA,
};

use sha2::{Digest, Sha256};

fn to_json(v: &serde_json::Value) -> JsonValue {
    match v {
        serde_json::Value::Null => JsonValue::Null,
        serde_json::Value::Bool(b) => JsonValue::Bool(*b),
        serde_json::Value::Number(n) => JsonValue::Number(n.to_string()),
        serde_json::Value::String(s) => JsonValue::Str(s.clone()),
        serde_json::Value::Array(a) => JsonValue::Array(a.iter().map(to_json).collect()),
        serde_json::Value::Object(m) => JsonValue::Object(m.iter().map(|(k, x)| (k.clone(), to_json(x))).collect()),
    }
}

fn from_json(v: &JsonValue) -> serde_json::Value {
    match v {
        JsonValue::Null => serde_json::Value::Null,
        JsonValue::Bool(b) => serde_json::Value::Bool(*b),
        JsonValue::Number(t) => serde_json::from_str(t).unwrap(),
        JsonValue::Str(s) => serde_json::Value::String(s.clone()),
        JsonValue::Array(a) => serde_json::Value::Array(a.iter().map(from_json).collect()),
        JsonValue::Object(m) => {
            let mut out = serde_json::Map::new();
            for (k, x) in m {
                out.insert(k.clone(), from_json(x));
            }
            serde_json::Value::Object(out)
        }
    }
}

fn parse(text: &str) -> Option<JsonValue> {
    if text.trim().is_empty() {
        return None;
    }
    serde_json::from_str::<serde_json::Value>(text).ok().map(|v| to_json(&v))
}

fn artifact(deployment: &str, routes: &str, opts: &ServerArtifactOpts) -> JsonValue {
    normalize_server_artifact_text(deployment, routes, opts).expect("ok")
}

fn str_at<'a>(v: &'a JsonValue, k: &str) -> &'a str {
    v.get(k).and_then(|x| x.as_str()).expect("string member")
}

fn array_at<'a>(v: &'a JsonValue, k: &str) -> &'a Vec<JsonValue> {
    v.get(k).and_then(|x| x.as_array()).expect("array member")
}

fn hex_sha256(text: &str) -> String {
    Sha256::digest(text.as_bytes()).iter().map(|b| format!("{b:02x}")).collect()
}

#[test]
fn empty_inputs_produce_artifact_digest() {
    let art = artifact("{}", "[]", &ServerArtifactOpts::default());
    assert_eq!(str_at(&art, "schema"), SERVER_ARTIFACT_SCHEMA);
    assert_eq!(str_at(&art, "selectedRuntime"), "node");
    assert!(str_at(&art, "artifactDigest").len() == 64);
    assert_eq!(array_at(&art, "routeDecisionTree").len(), 1);
}

#[test]
fn public_and_internal_split() {
    let deployment = r##"{
          "schema": "vmz.deployment.v0",
          "units": [{
            "chunkId": "pages/x",
            "kind": "page",
            "serverModuleId": "#server/pages/x",
            "capabilities": ["publicFn", "secretFn"]
          }]
        }"##;
    let routes = r##"[{
          "verb": "get",
          "path": "/api/x",
          "moduleId": "#server/pages/x",
          "method": "publicFn"
        }]"##;
    let art = artifact(deployment, routes, &ServerArtifactOpts::default());
    assert_eq!(array_at(&art, "publicRoutes").len(), 1);
    let internals = array_at(&art, "internalCapabilities");
    assert_eq!(internals.len(), 1);
    assert_eq!(str_at(&internals[0], "method"), "secretFn");
}

#[test]
fn adapter_projection_worker() {
    let art = artifact("{}", "[]", &ServerArtifactOpts::default());
    let proj = project_server_runtime_adapter(&art, "worker").expect("proj");
    assert_eq!(str_at(&proj, "schema"), SERVER_RUNTIME_ADAPTER_SCHEMA);
    assert_eq!(str_at(&proj, "host"), "fetch");
    assert_eq!(str_at(&proj, "status"), "runtime");
}

#[test]
fn artifact_digest_is_sha256_of_canonical_text_without_it() {
    let routes = r##"[{"verb":"post","path":"/api/save","moduleId":"#server/a","method":"save","className":"A"}]"##;
    let art = artifact(r#"{"schema":"vmz.deployment.v0","units":[]}"#, routes, &ServerArtifactOpts::default());
    let mut plain = from_json(&art);
    let digest = plain.as_object_mut().unwrap().remove("artifactDigest").unwrap();
    let text = serde_json::to_string(&plain).unwrap();
    assert_eq!(digest.as_str().unwrap(), hex_sha256(&text));
    assert_eq!(canonical_json(&to_json(&plain)), text);
}

#[test]
fn http_contract_digest_matches_contract_body() {
    let routes = r#"[{"verb":"get","path":"/p","moduleId":"m","method":"f"}]"#;
    let art = artifact(r#"{"units":[{"chunkId":"c","serverModuleId":"m","capabilities":["f","g"]}]}"#, routes, &ServerArtifactOpts::default());
    let body = r#"{"entry":"fetch","internalCapabilityCount":1,"publicRoutes":[{"method":"f","moduleId":"m","path":"/p","verb":"GET"}],"rpcPath":"/__vmz/rpc","schema":"vmz.http.contract.v0"}"#;
    let contract = art.get("httpContract").unwrap();
    assert_eq!(str_at(contract, "digest"), hex_sha256(body));
    assert_eq!(str_at(contract, "schema"), "vmz.http.contract.v0");
}

#[test]
fn routes_are_upper_cased_and_numbered_in_the_tree() {
    let routes = r#"[{"verb":"get","path":"/a","moduleId":"m","method":"a"},{"path":"/b","moduleId":"m","method":"b"}]"#;
    let art = artifact("", routes, &ServerArtifactOpts::default());
    let public = array_at(&art, "publicRoutes");
    assert_eq!(str_at(&public[0], "verb"), "GET");
    assert_eq!(str_at(&public[1], "verb"), "GET");
    assert_eq!(public[0].get("className"), Some(&JsonValue::Null));
    let tree = array_at(&art, "routeDecisionTree");
    assert_eq!(tree.len(), 3);
    assert_eq!(str_at(&tree[0], "id"), "rpc");
    assert_eq!(str_at(&tree[1], "id"), "public-route-0");
    assert_eq!(str_at(&tree[2], "id"), "public-route-1");
    assert_eq!(art.get("deploymentSchema"), Some(&JsonValue::Null));
}

#[test]
fn options_select_runtime_and_fill_profile() {
    let opts = ServerArtifactOpts {
        profile_id: Some("edge".to_string()),
        assembly: Some(String::new()),
        server_runtime: Some("  deno ".to_string()),
        pack_digest: None,
    };
    let art = artifact("{}", "[]", &opts);
    assert_eq!(str_at(&art, "selectedRuntime"), "deno");
    assert_eq!(str_at(&art, "profileId"), "edge");
    assert_eq!(art.get("assembly"), Some(&JsonValue::Null));
    assert_eq!(art.get("packDigest"), Some(&JsonValue::Null));
    let other = ServerArtifactOpts { server_runtime: Some("lambda".to_string()), ..ServerArtifactOpts::default() };
    assert_eq!(str_at(&artifact("{}", "[]", &other), "selectedRuntime"), "node");
}

#[test]
fn unreadable_inputs_fall_back_to_empty_documents() {
    let art = artifact("not json", "{\"x\":1}", &ServerArtifactOpts::default());
    assert_eq!(array_at(&art, "publicRoutes").len(), 0);
    assert_eq!(array_at(&art, "internalCapabilities").len(), 0);
    assert_eq!(art.get("deploymentSchema"), Some(&JsonValue::Null));
    let same = artifact("", "", &ServerArtifactOpts::default());
    assert_eq!(str_at(&art, "artifactDigest"), str_at(&same, "artifactDigest"));
}

#[test]
fn units_without_server_module_give_no_capabilities() {
    let deployment = r#"{"units":[{"chunkId":"a","capabilities":["x"]},{"chunkId":"b","serverModuleId":"","capabilities":["y"]},{"chunkId":"c","serverModuleId":"m","capabilities":[1,"z"]}]}"#;
    let art = artifact(deployment, "[]", &ServerArtifactOpts::default());
    let internals = array_at(&art, "internalCapabilities");
    assert_eq!(internals.len(), 2);
    assert_eq!(str_at(&internals[0], "method"), "");
    assert_eq!(str_at(&internals[1], "method"), "z");
    assert_eq!(str_at(&internals[1], "chunkId"), "c");
    assert_eq!(str_at(&internals[1], "kind"), "capability");
}

#[test]
fn artifact_json_text_is_compact_and_sorted() {
    let art = artifact("{}", "[]", &ServerArtifactOpts::default());
    let text = normalize_server_artifact_json(parse("{}").as_ref(), parse("[]").as_ref(), &ServerArtifactOpts::default())
        .expect("ok");
    assert_eq!(text, serde_json::to_string(&from_json(&art)).unwrap());
    assert!(text.starts_with("{\"adapters\":{\"bun\":"));
}

#[test]
fn adapter_projection_node_and_rust_host() {
    let art = artifact("{}", "[{\"path\":\"/x\"}]", &ServerArtifactOpts::default());
    let node = project_server_runtime_adapter(&art, " node ").expect("node");
    assert_eq!(str_at(&node, "adapterId"), "node");
    assert_eq!(str_at(&node, "host"), "node:http");
    assert_eq!(node.get("publicRouteCount"), Some(&JsonValue::Number("1".to_string())));
    assert_eq!(node.get("spaFallback"), Some(&JsonValue::Bool(false)));
    assert_eq!(str_at(&node, "artifactDigest"), str_at(&art, "artifactDigest"));
    let host = project_server_runtime_adapter(&art, "rust-host").expect("rust-host");
    assert_eq!(array_at(&host, "consumes").len(), 3);
    assert_eq!(str_at(&host, "status"), "projected");
    let bun = project_server_runtime_adapter(&art, "bun").expect("bun");
    assert_eq!(str_at(&bun, "note"), "Fetch contract projection; live runtime not gated");
}

#[test]
fn unknown_adapter_is_refused() {
    let art = artifact("{}", "[]", &ServerArtifactOpts::default());
    match project_server_runtime_adapter(&art, " lambda ") {
        Err(ArtifactError::Message(m)) => assert_eq!(m, "projectServerRuntimeAdapter: unknown adapter lambda"),
        other => panic!("unexpected {other:?}"),
    }
    assert_eq!(SERVER_RUNTIMES.len(), 5);
}

#[test]
fn canonical_json_sorts_keys_at_every_depth() {
    let v = JsonValue::Object(vec![
        ("b".to_string(), JsonValue::Array(vec![JsonValue::Object(vec![
            ("z".to_string(), JsonValue::Null),
            ("a".to_string(), JsonValue::Bool(true)),
        ])])),
        ("a".to_string(), JsonValue::Str("q\"x".to_string())),
    ]);
    assert_eq!(canonical_json(&v), "{\"a\":\"q\\\"x\",\"b\":[{\"a\":true,\"z\":null}]}");
    assert_eq!(to_json_text(&v), "{\"b\":[{\"z\":null,\"a\":true}],\"a\":\"q\\\"x\"}");
    let sorted = sort_keys(&v);
    assert_eq!(sort_keys(&sorted), sorted);
    assert_eq!(to_json_text(&sorted), canonical_json(&v));
}

#[test]
fn empty_inputs_digest_is_lowercase_hex_of_the_rest() {
    let art = artifact("{}", "[]", &ServerArtifactOpts::default());
    let digest = str_at(&art, "artifactDigest").to_string();
    assert_eq!(digest.len(), 64);
    assert!(digest.chars().all(|c| c.is_ascii_digit() || ('a'..='f').contains(&c)));
    assert!(array_at(&art, "publicRoutes").is_empty());
    assert!(array_at(&art, "internalCapabilities").is_empty());
    let node = &array_at(&art, "routeDecisionTree")[0];
    assert_eq!(str_at(node, "id"), "rpc");
    assert_eq!(str_at(node, "action"), "invoke-rpc");
    assert_eq!(str_at(node, "visibility"), "internal-transport");
    let m = node.get("match").expect("match");
    assert_eq!(str_at(m, "method"), "POST");
    assert_eq!(str_at(m, "path"), "/__vmz/rpc");
}

#[test]
fn blank_and_invalid_texts_count_as_no_document() {
    let a = artifact("", "  ", &ServerArtifactOpts::default());
    let b = artifact("not json", "{oops", &ServerArtifactOpts::default());
    let c = normalize_server_artifact(None, None, &ServerArtifactOpts::default()).expect("ok");
    assert_eq!(to_json_text(&a), to_json_text(&c));
    assert_eq!(to_json_text(&b), to_json_text(&c));
}

#[test]
fn adapter_projection_from_text_refuses_bad_json_and_unknown_adapters() {
    let art = artifact("{}", "[]", &ServerArtifactOpts::default());
    let text = to_json_text(&art);
    let out = project_server_runtime_adapter_json(&text, "worker").expect("worker");
    let direct = project_server_runtime_adapter(&art, "worker").expect("direct");
    assert_eq!(out, to_json_text(&direct));
    assert!(matches!(project_server_runtime_adapter_json("{", "worker"), Err(ArtifactError::Json(_))));
    match project_server_runtime_adapter_json(&text, "nope") {
        Err(ArtifactError::Message(m)) => assert_eq!(m, "projectServerRuntimeAdapter: unknown adapter nope"),
        other => panic!("unexpected {other:?}"),
    }
}
