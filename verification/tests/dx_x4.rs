use vmz_compiler::dx_x4::{
    check_dx_x4, plan_boundary_validators, plan_capability_targets, plan_dead_graph, plan_leakage, DepUnit,
    DEAD_GRAPH_SCHEMA, X4_CHECK_SCHEMA,
};

fn strings(v: &[&str]) -> Vec<String> {
    v.iter().map(|s| s.to_string()).collect()
}

fn unit(chunk: &str, kind: &str, deps: &[&str], caps: &[&str], server: Option<&str>, calls: &[&str]) -> DepUnit {
    DepUnit {
        chunk_id: chunk.into(),
        kind: kind.into(),
        depends_on: strings(deps),
        capabilities: strings(caps),
        server_module_id: server.map(|s| s.to_string()),
        client_calls: strings(calls),
        resume_entries: vec![],
    }
}

fn dead_fixture() -> Vec<DepUnit> {
    vec![
        unit("pages/index", "page", &["components/Card"], &[], None, &[]),
        unit("components/Card", "component", &[], &["load"], Some("CardServer"), &["load"]),
        unit("components/Orphan", "component", &[], &[], None, &[]),
    ]
}

#[test]
fn empty_without_deployment() {
    let report = check_dx_x4(None);
    assert_eq!(report.status, "empty");
    assert_eq!(report.schema, X4_CHECK_SCHEMA);
}

#[test]
fn dead_chunk_via_depends_on() {
    let units = dead_fixture();
    let dead = plan_dead_graph(Some(&units));
    assert!(dead.dead_chunks.contains(&"components/Orphan".into()));
    assert!(!dead.dead_chunks.contains(&"components/Card".into()));
    let boundary = plan_boundary_validators(Some(&units));
    assert!(boundary.validators.iter().any(|v| v.kind == "route" && v.id == "pages/index"));
    let leak = plan_leakage(Some(&units));
    assert_eq!(leak.status, "ready");
    let report = check_dx_x4(Some(&units));
    assert_eq!(report.status, "ready");
}

#[test]
fn ghost_rpc_fails_leakage() {
    let units = vec![unit("pages/index", "page", &[], &[], None, &["ghostRpc"])];
    let leak = plan_leakage(Some(&units));
    assert_eq!(leak.status, "failed");
    assert!(leak.findings.iter().any(|f| f.kind == "unknown_client_call"));
    assert_eq!(check_dx_x4(Some(&units)).status, "failed");
}

#[test]
fn dead_graph_roots_reachable_and_unreferenced() {
    let units = vec![
        unit("pages/b", "page", &["components/A"], &[], None, &[]),
        unit("app", "app", &["layouts/Main"], &[], None, &[]),
        unit("components/A", "component", &["components/Missing"], &[], None, &[]),
        unit("components/Z", "component", &[], &["save", "load", "save"], None, &[]),
        unit("components/Y", "component", &["components/Z"], &["ping"], None, &[]),
        unit("pages/b", "page", &[], &[], None, &[]),
    ];
    let dead = plan_dead_graph(Some(&units));
    assert_eq!(dead.schema, DEAD_GRAPH_SCHEMA);
    assert_eq!(dead.roots, strings(&["app", "pages/b"]));
    // the later `pages/b` unit (no dependencies) is the one that counts
    assert_eq!(dead.reachable, strings(&["app", "layouts/Main", "pages/b"]));
    assert_eq!(dead.dead_chunks, strings(&["components/A", "components/Y", "components/Z"]));
    assert_eq!(
        dead.unreferenced_capabilities,
        strings(&["components/Y:ping", "components/Z:load", "components/Z:save"])
    );
    assert_eq!(dead.status, "ready");
}

#[test]
fn dead_graph_empty_units_and_missing_deployment() {
    let none = plan_dead_graph(None);
    assert_eq!(none.status, "empty");
    assert!(none.roots.is_empty() && none.reachable.is_empty() && none.dead_chunks.is_empty());
    let empty: Vec<DepUnit> = vec![];
    let doc = plan_dead_graph(Some(&empty));
    assert_eq!(doc.status, "empty");
    // an empty deployment has no leakage finding: leakage is `ready`
    let report = check_dx_x4(Some(&empty));
    assert_eq!(report.leakage.status, "ready");
    assert_eq!(report.status, "ready");
}

#[test]
fn dead_graph_keeps_duplicate_dead_ids() {
    let units = vec![
        unit("components/Q", "component", &[], &[], None, &[]),
        unit("components/P", "component", &[], &[], None, &[]),
        unit("components/Q", "component", &[], &[], None, &[]),
    ];
    let dead = plan_dead_graph(Some(&units));
    assert_eq!(dead.dead_chunks, strings(&["components/P", "components/Q", "components/Q"]));
    assert!(dead.roots.is_empty());
    assert!(dead.reachable.is_empty());
}

#[test]
fn capability_conflict_fails_report() {
    let units = vec![
        unit("pages/index", "page", &["components/A", "components/B"], &[], None, &[]),
        unit("components/A", "component", &[], &["load"], Some("AServer"), &[]),
        unit("components/B", "component", &[], &["load"], None, &[]),
    ];
    let targets = plan_capability_targets(Some(&units));
    assert_eq!(targets.status, "failed");
    assert_eq!(targets.conflicts.len(), 1);
    assert_eq!(targets.conflicts[0].targets, strings(&["node", "unbound"]));
    assert_eq!(check_dx_x4(Some(&units)).status, "failed");
}
