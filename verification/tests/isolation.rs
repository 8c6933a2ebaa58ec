use vmz_compiler::isolation::{
    build_failure_containment, build_namespaces, isolation_report, scoped_namespace, validate_failure_containment,
    validate_namespace_prefixes, validate_namespace_uniqueness, validate_no_cross_executable, ApplicationDiagnostic,
    ArtifactIdentity, FailureContainmentProof, IsolationDiagCode, MountEntry, MountUnavailablePolicy,
};

fn art(id: &str, exec: &str, root: Option<&str>) -> ArtifactIdentity {
    ArtifactIdentity {
        application_id: id.to_string(),
        executable_module_id: exec.to_string(),
        package_root: root.map(|r| r.to_string()),
    }
}

fn mount(id: &str, base: &str) -> MountEntry {
    MountEntry { application_id: id.to_string(), route_base: base.to_string() }
}

fn messages(ds: &[ApplicationDiagnostic]) -> Vec<String> {
    ds.iter().map(|d| d.message.clone()).collect()
}

#[test]
fn namespaces_are_scoped_and_sorted_by_application_id() {
    let arts = vec![art("shop", "exec:shop:1", Some("/p/shop")), art("blog", "exec:blog:2", Some("/p/blog"))];
    let mut diags = Vec::new();
    let ns = build_namespaces(&arts, &mut diags);
    assert!(diags.is_empty());
    assert_eq!(ns.len(), 2);
    assert_eq!(ns[0].application_id, "blog");
    assert_eq!(ns[0].runtime, "vmz:runtime:blog:exec:blog:2");
    assert_eq!(ns[0].style, "vmz:style:blog");
    assert_eq!(ns[0].inspector_regions, "vmz:inspector:blog");
    assert_eq!(ns[1].application_id, "shop");
    assert_eq!(ns[1].trace, "vmz:trace:shop");
}

#[test]
fn unknown_application_id_gets_no_namespace() {
    let arts = vec![art("unknown", "exec:x", Some("/p/x")), art("", "exec:y", None), art("ok", "exec:z", None)];
    let mut diags = Vec::new();
    let ns = build_namespaces(&arts, &mut diags);
    assert_eq!(ns.len(), 1);
    assert_eq!(ns[0].application_id, "ok");
    assert_eq!(diags.len(), 2);
    assert_eq!(diags[0].path, "/p/x");
    assert_eq!(diags[0].message, "isolation requires an explicit ApplicationId");
    assert_eq!(diags[0].code, IsolationDiagCode::IsolationUnproven);
    assert_eq!(diags[1].path, "");
}

#[test]
fn shared_namespace_is_reported() {
    let a = scoped_namespace(&"a".to_string(), &"e1".to_string());
    let mut b = scoped_namespace(&"b".to_string(), &"e2".to_string());
    b.style = "vmz:style:a".to_string();
    let mut diags = Vec::new();
    validate_namespace_uniqueness(&[a.clone(), b.clone()], &mut diags);
    assert_eq!(
        messages(&diags),
        vec!["style namespace `vmz:style:a` shared by `a` and `b` (runtime semantics must not be shared)".to_string()]
    );
    assert_eq!(diags[0].path, "b");
    let mut diags = Vec::new();
    validate_namespace_prefixes(&[a, b], &mut diags);
    assert_eq!(
        messages(&diags),
        vec!["style namespace `vmz:style:a` is not ApplicationId-scoped (want `vmz:style:b`)".to_string()]
    );
}

#[test]
fn same_application_twice_is_not_shared() {
    let a = scoped_namespace(&"a".to_string(), &"e1".to_string());
    let mut diags = Vec::new();
    validate_namespace_uniqueness(&[a.clone(), a], &mut diags);
    assert!(diags.is_empty());
}

#[test]
fn runtime_namespace_needs_application_prefix() {
    let mut a = scoped_namespace(&"a".to_string(), &"e1".to_string());
    a.runtime = "vmz:runtime:b:e1".to_string();
    let mut diags = Vec::new();
    validate_namespace_prefixes(&[a], &mut diags);
    assert_eq!(
        messages(&diags),
        vec!["runtime namespace `vmz:runtime:b:e1` is not ApplicationId-scoped (want `vmz:runtime:a:`)".to_string()]
    );
}

#[test]
fn executable_shared_by_two_applications() {
    let arts = vec![art("a", "exec:1", Some("/a")), art("b", "exec:1", Some("/b")), art("a", "exec:1", None)];
    let mut diags = Vec::new();
    validate_no_cross_executable(&arts, &mut diags);
    assert_eq!(diags.len(), 2);
    assert_eq!(diags[0].path, "/b");
    assert_eq!(diags[0].message, "executable `exec:1` appears in both `a` and `b`");
    assert_eq!(diags[0].code, IsolationDiagCode::CrossRuntimeReference);
    assert_eq!(diags[1].message, "executable `exec:1` appears in both `b` and `a`");
}

#[test]
fn containment_proof_per_mounted_application() {
    let arts = vec![art("host", "e0", None), art("shop", "e1", None), art("blog", "e2", None)];
    let mounts = vec![mount("shop", "/old"), mount("shop", "/shop"), mount("blog", "/blog")];
    let mut diags = Vec::new();
    let proofs = build_failure_containment(&arts, &mounts, &mut diags);
    assert!(diags.is_empty());
    assert_eq!(proofs.len(), 2);
    assert_eq!(proofs[0].failed_application_id, "shop");
    assert!(proofs[0].host_survives);
    assert_eq!(proofs[0].siblings_survive, vec!["host".to_string(), "blog".to_string()]);
    assert_eq!(proofs[0].unavailable.route_base, "/shop");
    assert_eq!(proofs[0].unavailable.status, 503);
    assert_eq!(proofs[0].unavailable.reason, "application_unavailable");
    assert_eq!(proofs[1].failed_application_id, "blog");
    let mut diags = Vec::new();
    validate_failure_containment(&proofs, &arts, &mut diags);
    assert!(diags.is_empty());
}

#[test]
fn mounts_without_artifacts_are_reported() {
    let arts = vec![art("host", "e0", None)];
    let mounts = vec![mount("shop", "/shop")];
    let mut diags = Vec::new();
    let proofs = build_failure_containment(&arts, &mounts, &mut diags);
    assert!(proofs.is_empty());
    assert_eq!(diags.len(), 1);
    assert_eq!(diags[0].path, "ApplicationMountTable");
    assert_eq!(diags[0].code, IsolationDiagCode::FailureContainment);
}

#[test]
fn broken_containment_proof_is_reported() {
    let arts = vec![art("a", "e0", None), art("b", "e1", None), art("c", "e2", None)];
    let proof = FailureContainmentProof {
        failed_application_id: "a".to_string(),
        host_survives: false,
        siblings_survive: vec!["a".to_string(), "b".to_string()],
        unavailable: MountUnavailablePolicy {
            application_id: "a".to_string(),
            route_base: "/a".to_string(),
            status: 500,
            reason: "application_unavailable".to_string(),
        },
    };
    let mut diags = Vec::new();
    validate_failure_containment(&[proof], &arts, &mut diags);
    assert_eq!(
        messages(&diags),
        vec![
            "host must survive failure of `a`".to_string(),
            "failed mount must return structured unavailable (503 application_unavailable)".to_string(),
            "failed application listed as surviving sibling".to_string(),
            "sibling `c` must survive failure of `a`".to_string(),
        ]
    );
    assert!(diags.iter().all(|d| d.path == "a" && d.code == IsolationDiagCode::FailureContainment));
}

#[test]
fn isolation_report_of_two_mounted_applications() {
    let arts = vec![art("shop", "exec:shop", Some("/p/shop")), art("blog", "exec:blog", Some("/p/blog"))];
    let mounts = vec![mount("shop", "/shop"), mount("blog", "/blog")];
    let boundary = vec![ApplicationDiagnostic {
        path: "x".to_string(),
        message: "from the boundary".to_string(),
        code: IsolationDiagCode::IsolationUnproven,
    }];
    let r = isolation_report(&arts, &mounts, boundary);
    assert_eq!(r.namespaces.len(), 2);
    assert_eq!(r.namespaces[0].application_id, "blog");
    assert_eq!(r.failure_containment.len(), 2);
    assert_eq!(r.surfaces, vec!["runtime", "style", "state", "server", "session", "storage", "trace", "failure"]);
    assert_eq!(messages(&r.diagnostics), vec!["from the boundary".to_string()]);
}
