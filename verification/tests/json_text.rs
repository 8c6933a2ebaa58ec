use vmz_compiler::json::{to_json_text, JsonValue};

#[test]
fn strings_are_escaped_as_serde_json_writes_them() {
    let v = JsonValue::Str("a\"b\\c\n\t\u{1}\u{7f}é".to_string());
    assert_eq!(to_json_text(&v), "\"a\\\"b\\\\c\\n\\t\\u0001\u{7f}é\"");
}
