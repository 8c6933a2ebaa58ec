use vmz_compiler::json::JsonValue;
use vmz_compiler::plan_scan::{scan_plan_value_for_dom_leaks, PlanCode, PlanDiagnostic};

fn to_json(v: &serde_json::Value) -> JsonValue {
    match v {
        serde_json::Value::Null => JsonValue::Null,
        serde_json::Value::Bool(b) => JsonValue::Bool(*b),
        serde_json::Value::Number(n) => JsonValue::Number(n.to_string()),
        serde_json::Value::String(s) => JsonValue::Str(s.clone()),
        serde_json::Value::Array(a) => JsonValue::Array(a.iter().map(to_json).collect()),
        serde_json::Value::Object(m) => JsonValue::Object(m.iter().map(|(k, x)| (k.clone(), to_json(x))).collect()),
    }
}

fn scan(text: &str) -> Vec<PlanDiagnostic> {
    let v = to_json(&serde_json::from_str::<serde_json::Value>(text).expect("json"));
    let mut out = Vec::new();
    scan_plan_value_for_dom_leaks("dist/a.program.json", &v, &mut out);
    out
}

#[test]
fn bare_plan_leaks_and_unknown_kinds_are_errors() {
    let out = scan(r#"{"nodes": [{"kind": "element"}, {"kind": "pending"}, {"kind": ""}, {"kind": "div"}, {"x": 1}],
        "op": "document.createElement('a')"}"#);
    let got: Vec<(&str, PlanCode)> = out.iter().map(|d| (d.message.as_str(), d.code)).collect();
    assert_eq!(
        got,
        vec![
            (
                "Execution Plan must not contain `document.createElement` (target-neutral View Ops only; DOM belongs in Browser lowering)",
                PlanCode::DomLeakInPlan
            ),
            ("Execution Plan must not contain `document.` (target-neutral View Ops only; DOM belongs in Browser lowering)", PlanCode::DomLeakInPlan),
            (
                "Execution Plan must not contain `createElement(` (target-neutral View Ops only; DOM belongs in Browser lowering)",
                PlanCode::DomLeakInPlan
            ),
            ("unknown PlanNode kind `div` at nodes[3] (not in View Op mapping)", PlanCode::UnknownViewOp),
        ]
    );
    assert!(out.iter().all(|d| d.path == "dist/a.program.json"));
}

#[test]
fn unit_plans_are_scanned_in_order() {
    let out = scan(r#"{"units": [{"plan": {"nodes": [{"kind": "text"}]}}, {"id": 1}, {"plan": {"nodes": [{"kind": "wx.view"}]}}]}"#);
    let messages: Vec<&str> = out.iter().map(|d| d.message.as_str()).collect();
    assert_eq!(
        messages,
        vec![
            "Execution Plan must not contain `wx.` (target-neutral View Ops only; DOM belongs in Browser lowering)",
            "unknown PlanNode kind `wx.view` at nodes[0] (not in View Op mapping)",
        ]
    );
}

#[test]
fn documents_without_plans_pass() {
    assert!(scan(r#"{"kind": "x"}"#).is_empty());
    assert!(scan(r#"{"plan": {"nodes": 3}}"#).is_empty());
    assert!(scan(r#"{"units": [], "plan": {"nodes": [{"kind": "bad"}]}}"#).is_empty());
}
