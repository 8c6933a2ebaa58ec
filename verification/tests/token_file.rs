use vmz_compiler::json::JsonValue;
use vmz_compiler::token_file::{overlay_collision, token_leaves};

fn st(s: &str) -> JsonValue {
    JsonValue::Str(s.to_string())
}

fn ob(m: Vec<(&str, JsonValue)>) -> JsonValue {
    JsonValue::Object(m.into_iter().map(|(k, v)| (k.to_string(), v)).collect())
}

#[test]
fn flat_tokens_become_leaves() {
    let doc = ob(vec![
        ("colors", ob(vec![("action", st("#fff")), ("gap", JsonValue::Number("4".to_string()))])),
        ("meta", st("skipped")),
    ]);
    let leaves = token_leaves(&doc).unwrap();
    assert_eq!(leaves.len(), 2);
    assert_eq!(leaves[0].path, vec!["colors".to_string(), "action".to_string()]);
    assert_eq!(leaves[0].value, "#fff");
    assert_eq!(leaves[1].value, "4");
}

#[test]
fn flat_token_without_css_fails() {
    let doc = ob(vec![("colors", ob(vec![("x", JsonValue::Bool(true))]))]);
    assert_eq!(token_leaves(&doc).unwrap_err(), "unsupported value for `colors.x`");
    assert_eq!(token_leaves(&st("x")).unwrap_err(), "expected object root");
}

#[test]
fn native_entries_become_leaves() {
    let entry = |path: Vec<&str>, value: JsonValue| {
        ob(vec![
            ("key", ob(vec![("path", JsonValue::Array(path.into_iter().map(st).collect()))])),
            ("value", value),
        ])
    };
    let doc = ob(vec![(
        "entries",
        JsonValue::Array(vec![
            entry(vec!["color", "bg"], st("#000")),
            entry(vec![], st("ignored")),
            entry(vec!["space", "s"], ob(vec![("data", ob(vec![("css", st("4px"))]))])),
            entry(vec!["font"], ob(vec![("data", st("serif"))])),
        ]),
    )]);
    let leaves = token_leaves(&doc).unwrap();
    assert_eq!(leaves.len(), 3);
    assert_eq!(leaves[1].path, vec!["space".to_string(), "s".to_string()]);
    assert_eq!(leaves[1].value, "4px");
    assert_eq!(leaves[2].value, "serif");
    let bad = ob(vec![("entries", JsonValue::Array(vec![entry(vec!["a", "b"], JsonValue::Null)]))]);
    assert_eq!(token_leaves(&bad).unwrap_err(), "unsupported native theme value for a.b");
}

#[test]
fn overlay_with_default_id_warns() {
    let d = overlay_collision("designs/themes/light.json", "light", "light").unwrap();
    assert_eq!(d.message, "theme id `light` collides with default theme id; overlay still applied");
    assert!(overlay_collision("p", "dark", "light").is_none());
}
