use vmz_compiler::deployment::{
    collect_depends_on_closure, component_entries, validate_deployment, ArtifactError,
    DeploymentDocument, DeploymentUnit, VmzModuleKind,
};

fn unit(chunk: &str, kind: VmzModuleKind, entry: &str, source: &str, deps: &[&str]) -> DeploymentUnit {
    DeploymentUnit {
        chunk_id: chunk.into(),
        kind,
        client_entry: entry.into(),
        source: source.into(),
        depends_on: deps.iter().map(|s| s.to_string()).collect(),
    }
}

fn fixture() -> DeploymentDocument {
    DeploymentDocument {
        schema: "vmz.deployment.v0".into(),
        units: vec![
            unit("pages/index", VmzModuleKind::Page, "", "", &["components/Button", "layouts/App"]),
            unit(
                "components/Button",
                VmzModuleKind::Component,
                "components/Button.client.js",
                "src/components/Button.vmz",
                &["components/Icon"],
            ),
            unit("components/Icon", VmzModuleKind::Component, "components/Icon.client.js", "src/components/Icon.vmz", &[]),
            unit("layouts/App", VmzModuleKind::Component, "layouts/App.client.js", "src/layouts/App.vmz", &[]),
        ],
    }
}

#[test]
fn closure_matches_depends_on_graph() {
    let doc = fixture();
    assert!(validate_deployment(&doc).is_ok());
    let closure = collect_depends_on_closure(&doc, &["pages/index".to_string()]);
    assert!(closure.contains(&"pages/index".to_string()));
    assert!(closure.contains(&"components/Button".to_string()));
    assert!(closure.contains(&"components/Icon".to_string()));
    assert!(closure.contains(&"layouts/App".to_string()));
    assert_eq!(closure.len(), 4);
}

#[test]
fn closure_normalises_and_skips_empty_roots() {
    let doc = fixture();
    let closure = collect_depends_on_closure(&doc, &["components\\Button".to_string(), "".to_string()]);
    assert_eq!(closure, vec!["components/Button".to_string(), "components/Icon".to_string()]);
}

#[test]
fn component_entries_sorted() {
    let doc = fixture();
    let entries = component_entries(&doc);
    assert_eq!(entries.len(), 3);
    assert_eq!(entries[0].name, "Button");
    assert_eq!(entries[1].name, "Icon");
    assert_eq!(entries[2].chunk_id, "layouts/App");
}

#[test]
fn component_entry_defaults_client_entry() {
    let doc = DeploymentDocument {
        schema: "vmz.deployment.v0".into(),
        units: vec![unit("ui\\Card", VmzModuleKind::Component, "", "src/ui/Card.vmz", &[])],
    };
    let entries = component_entries(&doc);
    assert_eq!(entries[0].chunk_id, "ui/Card");
    assert_eq!(entries[0].name, "Card");
    assert_eq!(entries[0].entry, "ui/Card.client.js");
}

#[test]
fn rejects_wrong_schema() {
    let mut doc = fixture();
    doc.schema = "vmz.deployment.v99".into();
    let err = validate_deployment(&doc).unwrap_err();
    assert!(matches!(err, ArtifactError::Schema(_)));
}
