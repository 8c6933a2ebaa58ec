use vmz_compiler::application::{
    find_span, is_valid_application_id, join_application_base, logical_path_for_route,
    normalize_base, normalize_logical_path, normalize_path, normalize_route_base,
    route_bases_collide, strip_application_base,
};
use vmz_compiler::reloc::relocate_with_base;
use vmz_compiler::reloc::{
    is_marked_external, is_non_relocatable_candidate, parse_application_base, relocate_manifest,
    relocation_report, sample_relocation_manifest, scan_source_text, verify_roundtrip,
    ApplicationCode, ApplicationDiagnostic, ApplicationRelocationManifest, LogicalUrlEntry,
};

#[test]
fn join_and_strip_roundtrip() {
    assert_eq!(join_application_base("/", "/settings").unwrap(), "/settings");
    assert_eq!(
        join_application_base("/examples/counter", "/settings").unwrap(),
        "/examples/counter/settings"
    );
    assert_eq!(join_application_base("/examples/counter", "/").unwrap(), "/examples/counter");
    assert_eq!(
        strip_application_base("/examples/counter", "/examples/counter/settings").unwrap(),
        Some("/settings".into())
    );
    assert_eq!(strip_application_base("/examples/counter", "/other").unwrap(), None);
}

#[test]
fn route_base_errors() {
    assert_eq!(normalize_route_base("").unwrap_err(), "routeBase must not be empty");
    assert_eq!(normalize_route_base("a").unwrap_err(), "routeBase must start with `/`, got `a`");
    assert_eq!(
        normalize_route_base("/a?b").unwrap_err(),
        "routeBase must not contain query/hash, got `/a?b`"
    );
    assert_eq!(
        normalize_route_base("/a//b").unwrap_err(),
        "routeBase must not contain empty segments, got `/a//b`"
    );
    assert_eq!(normalize_route_base("/a/").unwrap(), "/a");
    assert_eq!(normalize_route_base("/").unwrap(), "/");
    assert_eq!(normalize_logical_path("").unwrap_err(), "logical path must not be empty");
    assert_eq!(normalize_logical_path("/x/y/").unwrap(), "/x/y");
}

#[test]
fn strip_of_base_itself_is_root() {
    assert_eq!(strip_application_base("/app/", "/app").unwrap(), Some("/".into()));
    assert_eq!(strip_application_base("/", "/x/").unwrap(), Some("/x".into()));
    assert_eq!(strip_application_base("/app", "/apple").unwrap(), None);
    assert!(strip_application_base("app", "/x").is_err());
}

#[test]
fn collisions_are_symmetric() {
    assert!(route_bases_collide("/a", "/a"));
    assert!(route_bases_collide("/", "/b"));
    assert!(route_bases_collide("/a", "/a/b"));
    assert!(route_bases_collide("/a/b", "/a"));
    assert!(!route_bases_collide("/a", "/ab"));
    assert!(!route_bases_collide("/ab", "/a"));
}

#[test]
fn application_ids() {
    assert!(is_valid_application_id("counter-app_1.x"));
    assert!(!is_valid_application_id(""));
    assert!(!is_valid_application_id("a/b"));
    assert!(!is_valid_application_id("a b"));
}

#[test]
fn spans_and_paths() {
    assert_eq!(find_span("abc mount abc", "abc"), Some((0, 3)));
    assert_eq!(find_span("x mount", "mount"), Some((2, 7)));
    assert_eq!(find_span("x", ""), None);
    assert_eq!(find_span("x", "y"), None);
    assert_eq!(normalize_path("a\\b\\"), "a/b");
    assert_eq!(normalize_base(""), "/");
    assert_eq!(normalize_base("app/"), "/app");
    assert_eq!(normalize_base("/"), "/");
}

#[test]
fn logical_paths_of_public_routes() {
    let public = vec!["shop.home".to_string(), "shop.cart".to_string(), "other".to_string()];
    assert_eq!(logical_path_for_route("shop", "shop.home", &public), Some("/".into()));
    assert_eq!(logical_path_for_route("shop", "shop.cart", &public), Some("/cart".into()));
    assert_eq!(logical_path_for_route("shop", "other", &public), Some("/".into()));
    assert_eq!(logical_path_for_route("shop", "shop.admin", &public), None);
}

#[test]
fn sample_manifest_relocates_and_roundtrips() {
    let m = sample_relocation_manifest("counter");
    assert_eq!(m.entries.len(), 16);
    assert_eq!(m.entries[1].id, "counter.settings");
    let base = parse_application_base("/examples/counter/", Some("counter".into())).unwrap();
    assert_eq!(base.base, "/examples/counter");
    let r = relocate_manifest(&m, &base).unwrap();
    assert_eq!(r.entries[0].href, "/examples/counter");
    assert_eq!(r.entries[1].href, "/examples/counter/settings");
    let mut diags: Vec<ApplicationDiagnostic> = Vec::new();
    verify_roundtrip(&r, &base.base, &mut diags);
    assert!(diags.is_empty());
}

#[test]
fn relocation_rejects_non_root_logical_base() {
    let m = ApplicationRelocationManifest {
        application_id: "a".into(),
        logical_base: "/x".into(),
        entries: vec![],
    };
    let base = parse_application_base("/", None).unwrap();
    let err = relocate_manifest(&m, &base).unwrap_err();
    assert_eq!(err.code, ApplicationCode::InvalidBase);
    assert!(err.message.contains("logicalBase must be `/`"));
    let m2 = ApplicationRelocationManifest {
        application_id: "a".into(),
        logical_base: "/".into(),
        entries: vec![LogicalUrlEntry { id: "a.x".into(), kind: "route".into(), logical_path: "x".into() }],
    };
    let err2 = relocate_manifest(&m2, &base).unwrap_err();
    assert_eq!(err2.message, "entry `a.x` (route): logical path must be absolute (start with `/`), got `x`");
    assert!(parse_application_base("nope", None).is_err());
}

#[test]
fn relocation_candidates() {
    let c = |s: &str| is_non_relocatable_candidate(&s.chars().collect::<Vec<char>>());
    assert!(c("/"));
    assert!(c("/assets/logo.png"));
    assert!(!c("//cdn.example.com/x"));
    assert!(!c("https://example.com"));
    assert!(!c("/a b"));
    assert!(!c("/a:b"));
    assert!(!c("settings"));
}

#[test]
fn marked_external_on_same_line() {
    let src = b"x = 1\nlet a = /* @vmz-external */ '/x'\nlet b = '/y'";
    assert!(is_marked_external(src, 35));
    assert!(!is_marked_external(src, 45));
}

#[test]
fn bare_absolute_path_is_error() {
    let text = "<template><a href=\"/settings\">x</a></template>\n<script client>\nexport default class X {\n  path = '/assets/logo.png'\n}\n</script>\n";
    let mut diags: Vec<ApplicationDiagnostic> = Vec::new();
    scan_source_text("x.vmz", text, &mut diags);
    assert_eq!(diags.len(), 2);
    assert!(diags.iter().all(|d| d.code == ApplicationCode::NonRelocatableUrl));
    assert!(diags[1].message.contains("`/assets/logo.png`"));
    let span = diags[0].span.unwrap();
    assert_eq!(&text[span.start as usize..span.end as usize], "\"/settings\"");
}

#[test]
fn relocatable_ok_without_bare_urls() {
    let text = "<template><p>{count}</p></template>\n<script client>\nexport default class App {\n  count = 0\n  // @vmz-external\n  docs = 'https://example.com/docs'\n}\n</script>\n";
    let mut diags: Vec<ApplicationDiagnostic> = Vec::new();
    scan_source_text("App.vmz", text, &mut diags);
    assert!(diags.is_empty());
    let report = relocation_report("pkg".into(), "counter".into(), Some("/examples/counter"), diags);
    assert!(!report.has_errors());
    assert_eq!(report.at_relocated.entries[1].href, "/examples/counter/settings");
    assert_eq!(report.at_root.entries[1].href, "/settings");
}

#[test]
fn relocate_with_base_joins_every_entry() {
    let m = ApplicationRelocationManifest {
        application_id: "shop".to_string(),
        logical_base: "/".to_string(),
        entries: vec![LogicalUrlEntry { id: "home".to_string(), kind: "route".to_string(), logical_path: "/cart".to_string() }],
    };
    let urls = relocate_with_base(&m, "/apps/shop/").unwrap();
    assert_eq!(urls.base, "/apps/shop");
    assert_eq!(urls.entries[0].href, "/apps/shop/cart");
    assert!(relocate_with_base(&m, "apps").is_err());
}
