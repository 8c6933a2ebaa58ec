use vmz_compiler::composition::{
    compose_links, declared_links_from_text, order_links, resolve_links, CompositionCode, CompositionDiagnostic, LinkableApplication,
    RawLink,
};
use vmz_compiler::application::strip_application_base;
use vmz_compiler::isolation::MountEntry;

fn s(x: &str) -> String {
    x.to_string()
}

fn link(app: &str, to: &str, path: Option<&str>) -> RawLink {
    RawLink { application_id: s(app), route_id: s(to), path: path.map(s) }
}

fn apps() -> Vec<LinkableApplication> {
    vec![
        LinkableApplication { application_id: s("shop"), public_route_contracts: vec![s("shop.home"), s("shop.cart"), s("shop.")] },
        LinkableApplication { application_id: s("blog"), public_route_contracts: vec![s("blog.home")] },
    ]
}

fn mounts() -> Vec<MountEntry> {
    vec![MountEntry { application_id: s("shop"), route_base: s("/shop") }]
}

#[test]
fn public_routes_resolve_under_the_mount_base() {
    let mut diags: Vec<CompositionDiagnostic> = Vec::new();
    let out = resolve_links(&[link("shop", "shop.cart", Some("src/a.vmz")), link("shop", "shop.home", None)], &apps(), &mounts(), &mut diags);
    assert!(diags.is_empty());
    assert_eq!(out.len(), 2);
    assert_eq!(out[0].href, "/shop/cart");
    assert_eq!(out[0].route_base, "/shop");
    assert_eq!(out[0].path, "src/a.vmz");
    assert!(out[0].document_navigation);
    assert_eq!(out[1].href, "/shop");
    assert_eq!(out[1].path, "<host>");
}

#[test]
fn unresolvable_links_are_errors() {
    let mut diags: Vec<CompositionDiagnostic> = Vec::new();
    let out = resolve_links(
        &[link("ghost", "x", None), link("shop", "shop.secret", Some("p")), link("blog", "blog.home", None), link("shop", "shop.", None)],
        &apps(),
        &mounts(),
        &mut diags,
    );
    assert!(out.is_empty());
    let got: Vec<(CompositionCode, &str, &str)> = diags.iter().map(|d| (d.code, d.path.as_str(), d.message.as_str())).collect();
    assert_eq!(
        got,
        vec![
            (CompositionCode::UnknownReference, "<host>", "cross-application Link references unknown ApplicationId `ghost`"),
            (CompositionCode::RouteNotPublic, "p", "RouteId `shop.secret` is not a public route contract of ApplicationId `shop`"),
            (
                CompositionCode::MountUnreachable,
                "<host>",
                "ApplicationId `blog` has no mount in this deployment profile; cross-app Link href cannot be resolved"
            ),
            (CompositionCode::RouteNotPublic, "<host>", "cannot derive logical path for public RouteId `shop.` on `shop`"),
        ]
    );
}

#[test]
fn links_are_sorted_and_repeats_dropped() {
    let ordered = order_links(vec![link("b", "r", None), link("a", "z", Some("x")), link("a", "y", None), link("a", "z", Some("x"))]);
    let got: Vec<(&str, &str)> = ordered.iter().map(|l| (l.application_id.as_str(), l.route_id.as_str())).collect();
    assert_eq!(got, vec![("a", "y"), ("a", "z"), ("b", "r")]);
}

#[test]
fn declared_links_come_from_the_links_array() {
    let text = r#"{"links": [{"application": "shop", "to": "shop.cart"}, {"application": 1, "to": "x"}]}"#;
    let links = declared_links_from_text("host/cross-links.json", text).unwrap();
    assert_eq!(links.len(), 1);
    assert_eq!(links[0].application_id, "shop");
    assert_eq!(links[0].route_id, "shop.cart");
    assert_eq!(links[0].path.as_deref(), Some("host/cross-links.json"));
    let e = declared_links_from_text("c.json", "{").unwrap_err();
    assert_eq!(e.code, CompositionCode::UnknownReference);
    assert!(e.message.starts_with("cross-links.json is not JSON: "));
    let mut diags: Vec<CompositionDiagnostic> = Vec::new();
    let out = compose_links(vec![link("shop", "shop.cart", None)], links, &apps(), &mounts(), &mut diags);
    assert_eq!(out.len(), 2);
    assert!(diags.is_empty());
}

#[test]
fn resolved_href_strips_back_to_the_route_path() {
    let mut diags: Vec<CompositionDiagnostic> = Vec::new();
    let out = resolve_links(&[link("shop", "shop.cart", None), link("shop", "shop.home", None)], &apps(), &mounts(), &mut diags);
    assert_eq!(strip_application_base(&out[0].route_base, &out[0].href), Ok(Some("/cart".to_string())));
    assert_eq!(strip_application_base(&out[1].route_base, &out[1].href), Ok(Some("/".to_string())));
}
