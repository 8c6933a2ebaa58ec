use vmz_compiler::affected::{build_test_selection, plan_affected, AffectedPlan, AffectedReason, AffectedUnit};
use vmz_compiler::isolation::ArtifactIdentity;

fn art(id: &str, root: Option<&str>) -> ArtifactIdentity {
    ArtifactIdentity {
        application_id: id.to_string(),
        executable_module_id: format!("exec:{id}"),
        package_root: root.map(|r| r.to_string()),
    }
}

fn children() -> Vec<ArtifactIdentity> {
    vec![art("shop", Some("/w/apps/shop/")), art("blog", Some("/w/apps/blog"))]
}

fn units(p: &vmz_compiler::affected::AffectedPlan) -> Vec<(String, AffectedReason)> {
    p.units.iter().map(|u| (u.application_id.clone(), u.reason)).collect()
}

#[test]
fn child_source_rebuilds_only_that_child() {
    let p = plan_affected("/w", "host", &children(), &["/w/apps/shop/src/a.ts".to_string()]);
    assert_eq!(units(&p), vec![("shop".to_string(), AffectedReason::ChildSource)]);
    assert_eq!(p.not_rebuilt, vec!["blog".to_string(), "host".to_string()]);
    assert!(p.diagnostics.is_empty());
    assert_eq!(p.dirty, vec!["/w/apps/shop/src/a.ts".to_string()]);
}

#[test]
fn descriptor_change_rebuilds_child_and_host() {
    let p = plan_affected("/w", "host", &children(), &["/w/apps/shop/package.json".to_string()]);
    assert_eq!(
        units(&p),
        vec![("host".to_string(), AffectedReason::Descriptor), ("shop".to_string(), AffectedReason::Descriptor)]
    );
    assert_eq!(p.not_rebuilt, vec!["blog".to_string()]);
}

#[test]
fn mount_config_rebuilds_host() {
    let p = plan_affected("/w/", "host", &children(), &["/w/applications.config.json5".to_string()]);
    assert_eq!(units(&p), vec![("host".to_string(), AffectedReason::MountConfig)]);
}

#[test]
fn host_file_rebuilds_collection_ui() {
    let p = plan_affected("/w", "host", &children(), &["/w/src/ui.ts".to_string()]);
    assert_eq!(units(&p), vec![("host".to_string(), AffectedReason::CollectionUi)]);
    assert_eq!(p.not_rebuilt, vec!["blog".to_string(), "shop".to_string()]);
}

#[test]
fn shared_package_rebuilds_everything_once() {
    let dirty = vec!["/other/lib.ts".to_string(), "/other/more.ts".to_string()];
    let p = plan_affected("/w", "host", &children(), &dirty);
    assert_eq!(
        units(&p),
        vec![
            ("blog".to_string(), AffectedReason::SharedPackage),
            ("host".to_string(), AffectedReason::SharedPackage),
            ("shop".to_string(), AffectedReason::SharedPackage),
        ]
    );
    assert!(p.not_rebuilt.is_empty());
}

#[test]
fn longest_package_root_wins() {
    let arts = vec![art("outer", Some("/w/apps")), art("inner", Some("/w/apps/inner"))];
    let p = plan_affected("/w", "host", &arts, &["/w/apps/inner/x.ts".to_string()]);
    assert_eq!(units(&p), vec![("inner".to_string(), AffectedReason::ChildSource)]);
    assert_eq!(p.diagnostics.len(), 1);
    assert_eq!(p.diagnostics[0].path, "/w/apps/inner/x.ts");
    assert_eq!(p.diagnostics[0].message, "child_source change under `outer` leaked rebuild to sibling applications");
}

#[test]
fn root_needs_a_separator_boundary() {
    let arts = vec![art("shop", Some("/w/apps/shop"))];
    let p = plan_affected("/w", "host", &arts, &["/w/apps/shop2/a.ts".to_string()]);
    assert_eq!(units(&p), vec![("host".to_string(), AffectedReason::CollectionUi)]);
}

#[test]
fn test_modes_select_sample_host_and_affected_ids() {
    let plan = AffectedPlan {
        dirty: vec![],
        units: vec![
            AffectedUnit { application_id: "shop".to_string(), reason: AffectedReason::ChildSource },
            AffectedUnit { application_id: "host".to_string(), reason: AffectedReason::Descriptor },
            AffectedUnit { application_id: "shop".to_string(), reason: AffectedReason::Descriptor },
        ],
        not_rebuilt: vec![],
        diagnostics: vec![],
    };
    let sel = build_test_selection("host", &[art("shop", Some("/w/shop")), art("blog", None)], &plan);
    assert_eq!(sel.application.id, "shop");
    assert_eq!(sel.application.test_scope.as_deref(), Some("standalone"));
    assert!(sel.application.contracts.is_empty());
    assert_eq!(sel.application.selected_application_ids, vec!["shop".to_string()]);
    assert_eq!(sel.mounted.test_scope, None);
    assert_eq!(sel.mounted.contracts, vec!["relocation".to_string(), "host_boundary".to_string()]);
    assert_eq!(sel.mounted.selected_application_ids, vec!["shop".to_string(), "host".to_string()]);
    assert_eq!(sel.affected.id, "*");
    assert_eq!(sel.affected.test_scope.as_deref(), Some("affected"));
    assert_eq!(sel.affected.selected_application_ids, vec!["host".to_string(), "shop".to_string()]);
    let none = build_test_selection("host", &[], &plan);
    assert_eq!(none.application.id, "host");
}
