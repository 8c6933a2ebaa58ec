use vmz_compiler::contract::{
    build_catalog, config_from_text, descriptor_from_package_text, index_descriptors, validate_collection_refs, validate_mounts, ApplicationCollection, ApplicationDescriptor, ApplicationGroup, ApplicationMount,
};
use vmz_compiler::reloc::{ApplicationCode, ApplicationDiagnostic, SourceSpan};

fn m(app: &str, base: &str) -> ApplicationMount {
    ApplicationMount { application: app.to_string(), route_base: base.to_string(), deployment_ref: None }
}

fn span(source: &str, needle: &str) -> Option<SourceSpan> {
    source.find(needle).map(|a| SourceSpan { start: a as u32, end: (a + needle.len()) as u32 })
}

#[test]
fn mounts_are_checked_one_by_one_then_for_overlaps() {
    let source = r#"{ mounts: [ {application: "shop", routeBase: "/shop"}, {application: "ghost", routeBase: "/ghost"},
        {application: "blog", routeBase: "blog"}, {application: "shop", routeBase: "/shop/deep"} ] }"#;
    let mounts = vec![m("shop", "/shop"), m("ghost", "/ghost"), m("blog", "blog"), m("shop", "/shop/deep")];
    let known = vec!["shop".to_string(), "blog".to_string()];
    let mut diags: Vec<ApplicationDiagnostic> = Vec::new();
    validate_mounts(&mounts, &known, "host/applications.config.json5", source, &mut diags);
    let got: Vec<(ApplicationCode, &str, Option<SourceSpan>)> = diags.iter().map(|d| (d.code, d.message.as_str(), d.span)).collect();
    assert_eq!(
        got,
        vec![
            (
                ApplicationCode::UnknownReference,
                "mount references unknown ApplicationId `ghost` (no package.json#vmz.application with this id)",
                span(source, "ghost"),
            ),
            (ApplicationCode::InvalidRouteBase, "mounts[2] (blog): routeBase must start with `/`, got `blog`", span(source, "blog")),
            (
                ApplicationCode::DuplicateMount,
                "ApplicationId `shop` has multiple mounts (`/shop` and `/shop/deep`); one ApplicationId may have only one canonical mount base per deployment profile",
                span(source, "shop"),
            ),
            (
                ApplicationCode::MountCollision,
                "mount routeBase collision: mounts[0] `shop` \u{2192} `/shop` overlaps mounts[3] `shop` \u{2192} `/shop/deep`",
                span(source, "/shop/deep"),
            ),
        ]
    );
    assert!(diags.iter().all(|d| d.path == "host/applications.config.json5"));
}

#[test]
fn separate_mounts_pass_and_root_collides_with_all() {
    let known = vec!["a".to_string(), "b".to_string(), "c".to_string()];
    let mut diags: Vec<ApplicationDiagnostic> = Vec::new();
    validate_mounts(&[m("a", "/a/"), m("b", "/ab")], &known, "c.json5", "", &mut diags);
    assert!(diags.is_empty());
    validate_mounts(&[m("a", "/a"), m("b", "/b"), m("c", "/")], &known, "c.json5", "", &mut diags);
    let messages: Vec<&str> = diags.iter().map(|d| d.message.as_str()).collect();
    assert_eq!(
        messages,
        vec![
            "mount routeBase collision: mounts[0] `a` \u{2192} `/a` overlaps mounts[2] `c` \u{2192} `/`",
            "mount routeBase collision: mounts[1] `b` \u{2192} `/b` overlaps mounts[2] `c` \u{2192} `/`",
        ]
    );
    assert!(diags.iter().all(|d| d.span.is_none()));
}

#[test]
fn package_descriptor_is_read_from_vmz_application() {
    let text = r#"{"name": "@x/shop", "vmz": {"application": {"schema": "vmz.application.v0", "id": "shop",
        "entryRoute": "shop.home", "title": "Shop", "tags": ["a", 1, "b"]}}}"#;
    let d = descriptor_from_package_text("pkgs/shop", "pkgs/shop/package.json", text).unwrap().unwrap();
    assert_eq!(d.schema, "vmz.application.v0");
    assert_eq!(d.id, "shop");
    assert_eq!(d.entry_route, "shop.home");
    assert_eq!(d.title.as_deref(), Some("Shop"));
    assert_eq!(d.summary, None);
    assert_eq!(d.tags, vec!["a".to_string(), "b".to_string()]);
    assert_eq!(d.package_root.as_deref(), Some("pkgs/shop"));
    assert_eq!(d.package_name.as_deref(), Some("@x/shop"));
    assert!(descriptor_from_package_text("r", "r/package.json", r#"{"name": "plain"}"#).unwrap().is_none());
    assert!(descriptor_from_package_text("r", "r/package.json", r#"{"vmz": {}}"#).unwrap().is_none());
}

#[test]
fn refused_descriptors_name_what_is_wrong() {
    let bad_schema = r#"{"vmz": {"application": {"schema": "v1"}}}"#;
    let e = descriptor_from_package_text("r", "r/package.json", bad_schema).unwrap_err();
    assert_eq!(e.code, ApplicationCode::InvalidSchema);
    assert_eq!(e.path, "r/package.json");
    assert_eq!(e.message, "vmz.application.schema must be `vmz.application.v0`, got `v1`");
    assert_eq!(e.span, span(bad_schema, "schema"));
    let bad_id = r#"{"vmz": {"application": {"schema": "vmz.application.v0", "id": "a b"}}}"#;
    let e = descriptor_from_package_text("r", "p", bad_id).unwrap_err();
    assert_eq!(e.code, ApplicationCode::InvalidDescriptor);
    assert_eq!(e.message, "vmz.application.id must be a non-empty stable ApplicationId (letters, digits, `-`, `_`, `.`)");
    assert_eq!(e.span, span(bad_id, "\"id\""));
    let no_id = r#"{"vmz": {"application": {"schema": "vmz.application.v0"}}}"#;
    let e = descriptor_from_package_text("r", "p", no_id).unwrap_err();
    assert_eq!(e.message, "vmz.application.id is required (explicit ApplicationId; never derived from directory name)");
    assert_eq!(e.span, span(no_id, "application"));
    let no_entry = r#"{"vmz": {"application": {"schema": "vmz.application.v0", "id": "a", "entryRoute": ""}}}"#;
    let e = descriptor_from_package_text("r", "p", no_entry).unwrap_err();
    assert_eq!(e.message, "vmz.application.entryRoute is required (stable RouteId, not a URL)");
    assert_eq!(e.span, span(no_entry, "entryRoute"));
    let e = descriptor_from_package_text("r", "p", "{nope").unwrap_err();
    assert_eq!(e.code, ApplicationCode::InvalidDescriptor);
    assert!(e.message.starts_with("package.json is not JSON: "));
    assert_eq!(e.span, None);
}

fn desc(id: &str, entry: &str, title: Option<&str>) -> ApplicationDescriptor {
    ApplicationDescriptor {
        schema: "vmz.application.v0".to_string(),
        id: id.to_string(),
        entry_route: entry.to_string(),
        title: title.map(|t| t.to_string()),
        summary: None,
        tags: vec!["t".to_string()],
        package_root: None,
        package_name: None,
    }
}

fn group(id: &str, apps: &[&str]) -> ApplicationGroup {
    ApplicationGroup { id: id.to_string(), title: None, applications: apps.iter().map(|a| a.to_string()).collect() }
}

#[test]
fn catalog_follows_collection_order_and_declared_applications() {
    let descs = vec![desc("shop", "shop.old", None), desc("blog", "blog.home", None), desc("shop", "shop.home", Some("Shop"))];
    let cols = vec![
        ApplicationCollection { id: "c1".to_string(), groups: vec![group("g1", &["shop", "ghost"]), group("g2", &["blog", "shop"])] },
        ApplicationCollection { id: "c2".to_string(), groups: vec![group("g", &["blog"])] },
    ];
    let mounts = vec![m("shop", "/s"), m("shop", "/s2")];
    let cat = build_catalog(&descs, &cols, &mounts);
    assert_eq!(cat.len(), 2);
    assert_eq!(cat[0].id, "shop");
    assert_eq!(cat[0].entry_route, "shop.home");
    assert_eq!(cat[0].title.as_deref(), Some("Shop"));
    assert_eq!(cat[0].tags, vec!["t".to_string()]);
    assert_eq!(cat[0].collections, vec!["c1".to_string(), "c1".to_string()]);
    assert_eq!(cat[0].route_base.as_deref(), Some("/s2"));
    assert_eq!(cat[1].id, "blog");
    assert_eq!(cat[1].collections, vec!["c1".to_string(), "c2".to_string()]);
    assert_eq!(cat[1].route_base, None);
    assert!(build_catalog(&descs, &[], &mounts).is_empty());
}

#[test]
fn applications_config_is_read_from_json5() {
    let text = "{ schema: 'vmz.applications.v0', // host config\n collections: [ { id: 'main', groups: [ { id: 'g', title: 'G', applications: ['shop', 3, 'blog'] } ] } ],\n mounts: [ { application: 'shop', routeBase: '/shop', deploymentRef: 'd1' } ] }";
    let cfg = config_from_text("host/applications.config.json5", text).unwrap();
    assert_eq!(cfg.schema, "vmz.applications.v0");
    assert_eq!(cfg.collections.len(), 1);
    assert_eq!(cfg.collections[0].id, "main");
    assert_eq!(cfg.collections[0].groups[0].id, "g");
    assert_eq!(cfg.collections[0].groups[0].title.as_deref(), Some("G"));
    assert_eq!(cfg.collections[0].groups[0].applications, vec!["shop".to_string(), "blog".to_string()]);
    assert_eq!(cfg.mounts.len(), 1);
    assert_eq!(cfg.mounts[0].application, "shop");
    assert_eq!(cfg.mounts[0].route_base, "/shop");
    assert_eq!(cfg.mounts[0].deployment_ref.as_deref(), Some("d1"));
    let empty = config_from_text("c", "{schema: 'vmz.applications.v0'}").unwrap();
    assert!(empty.collections.is_empty() && empty.mounts.is_empty());
}

#[test]
fn malformed_configs_report_the_first_problem() {
    let cases: Vec<(&str, ApplicationCode, &str, &str)> = vec![
        ("{schema: 'x'}", ApplicationCode::InvalidSchema, "applications.config schema must be `vmz.applications.v0`, got `x`", "schema"),
        ("{schema: 'vmz.applications.v0', collections: 3}", ApplicationCode::InvalidConfig, "`collections` must be an array (explicit order)", "collections"),
        ("{schema: 'vmz.applications.v0', mounts: {}}", ApplicationCode::InvalidConfig, "`mounts` must be an array", "mounts"),
        ("{schema: 'vmz.applications.v0', mounts: [{routeBase: '/x'}]}", ApplicationCode::InvalidConfig, "mounts[0].application is required", "mounts"),
        ("{schema: 'vmz.applications.v0', mounts: [{application: 'ab'}]}", ApplicationCode::InvalidConfig, "mounts[0].routeBase is required", "ab"),
        ("{schema: 'vmz.applications.v0', collections: [{groups: []}]}", ApplicationCode::InvalidConfig, "collections[0].id is required", "collections"),
        ("{schema: 'vmz.applications.v0', collections: [{id: 'cq'}]}", ApplicationCode::InvalidConfig, "collections[0].groups is required", "cq"),
        (
            "{schema: 'vmz.applications.v0', collections: [{id: 'cq', groups: 1}]}",
            ApplicationCode::InvalidConfig,
            "collections[0].groups must be an array",
            "cq",
        ),
        (
            "{schema: 'vmz.applications.v0', collections: [{id: 'cq', groups: [{id: 'gz'}]}]}",
            ApplicationCode::InvalidConfig,
            "collections[0].groups[0].applications must be an array",
            "gz",
        ),
        (
            "{schema: 'vmz.applications.v0', collections: [{id: 'cq', groups: [{applications: []}]}]}",
            ApplicationCode::InvalidConfig,
            "collections[0].groups[0].id is required",
            "groups",
        ),
    ];
    for (text, code, message, at) in cases {
        let e = config_from_text("c.json5", text).unwrap_err();
        assert_eq!(e.code, code, "{text}");
        assert_eq!(e.message, message, "{text}");
        assert_eq!(e.path, "c.json5");
        assert_eq!(e.span, span(text, at), "{text}");
    }
    let e = config_from_text("c.json5", "{").unwrap_err();
    assert_eq!(e.code, ApplicationCode::InvalidConfig);
    assert!(e.message.starts_with("JSON5 parse error: "));
    assert_eq!(e.span, None);
}

#[test]
fn collection_references_must_be_declared() {
    let source = "{ collections: [ { id: 'main', groups: [ { id: 'g', applications: ['shop', 'ghost'] } ] } ] }";
    let cols = vec![
        ApplicationCollection { id: "main".to_string(), groups: vec![group("g", &["shop", "ghost"]), group("h", &["nope"])] },
        ApplicationCollection { id: "more".to_string(), groups: vec![group("k", &["shop"])] },
    ];
    let mut diags: Vec<ApplicationDiagnostic> = Vec::new();
    validate_collection_refs(&cols, &vec!["shop".to_string()], "c.json5", source, &mut diags);
    let got: Vec<(&str, Option<SourceSpan>)> = diags.iter().map(|d| (d.message.as_str(), d.span)).collect();
    assert_eq!(
        got,
        vec![
            (
                "collection `main` / group `g` references unknown ApplicationId `ghost` (no package.json#vmz.application with this id)",
                span(source, "ghost")
            ),
            ("collection `main` / group `h` references unknown ApplicationId `nope` (no package.json#vmz.application with this id)", None),
        ]
    );
    assert!(diags.iter().all(|d| d.code == ApplicationCode::UnknownReference));
}

#[test]
fn duplicate_application_ids_are_errors() {
    let mut a = desc("shop", "shop.home", None);
    a.package_root = Some("pkgs/a".to_string());
    let mut b = desc("blog", "blog.home", None);
    b.package_root = Some("pkgs/b".to_string());
    let mut c = desc("shop", "shop.home", None);
    c.package_root = Some("pkgs/c".to_string());
    let d = desc("shop", "shop.home", None);
    let mut diags: Vec<ApplicationDiagnostic> = Vec::new();
    index_descriptors(&[a, b, c, d], &mut diags);
    let got: Vec<(ApplicationCode, &str, &str)> = diags.iter().map(|x| (x.code, x.path.as_str(), x.message.as_str())).collect();
    assert_eq!(
        got,
        vec![
            (
                ApplicationCode::DuplicateId,
                "pkgs/c/package.json",
                "ApplicationId `shop` declared in both `pkgs/a` and `pkgs/c`; ApplicationId must be unique and explicit"
            ),
            (
                ApplicationCode::DuplicateId,
                "(unknown)/package.json",
                "ApplicationId `shop` declared in both `pkgs/a` and `(unknown)`; ApplicationId must be unique and explicit"
            ),
        ]
    );
}
