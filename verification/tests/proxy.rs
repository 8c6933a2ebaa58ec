use vmz_compiler::isolation::{ApplicationDiagnostic, FailureContainmentProof, IsolationDiagCode, MountEntry, MountUnavailablePolicy};
use vmz_compiler::proxy::{build_dispatch_table, build_proxy_dispatch, dispatch_url, unavailable_from_text, ProxyCase};

fn mount(id: &str, base: &str) -> MountEntry {
    MountEntry { application_id: id.to_string(), route_base: base.to_string() }
}

fn s(x: &str) -> String {
    x.to_string()
}

fn case(c: &ProxyCase) -> (String, Option<String>, Option<String>, u16, Option<String>) {
    (c.url.clone(), c.application_id.clone(), c.strip_base.clone(), c.status, c.reason.clone())
}

#[test]
fn mounts_dispatch_to_their_applications_and_down_ones_answer_503() {
    let mut diags: Vec<ApplicationDiagnostic> = Vec::new();
    let cases = build_proxy_dispatch(&[mount("shop", "shop/"), mount("blog", "/blog")], "host", &vec![s("blog")], &[], &mut diags);
    let got: Vec<_> = cases.iter().map(case).collect();
    assert_eq!(
        got,
        vec![
            (s("/shop"), Some(s("shop")), Some(s("/")), 200, None),
            (s("/shop/page"), Some(s("shop")), Some(s("/page")), 200, None),
            (s("/blog"), Some(s("blog")), Some(s("/")), 503, Some(s("application_unavailable"))),
            (s("/blog/page"), Some(s("blog")), Some(s("/page")), 503, Some(s("application_unavailable"))),
            (s("/"), Some(s("host")), Some(s("/")), 200, None),
            (s("/__vmz_no_such_mount"), None, None, 404, Some(s("not_found"))),
        ]
    );
    assert!(diags.is_empty());
}

#[test]
fn unavailable_without_containment_proof_is_an_error() {
    let proof = FailureContainmentProof {
        failed_application_id: s("shop"),
        host_survives: true,
        siblings_survive: vec![],
        unavailable: MountUnavailablePolicy { application_id: s("shop"), route_base: s("/shop"), status: 503, reason: s("application_unavailable") },
    };
    let mut diags: Vec<ApplicationDiagnostic> = Vec::new();
    build_proxy_dispatch(&[mount("shop", "/shop"), mount("blog", "/blog")], "host", &vec![s("blog"), s("shop")], &[proof], &mut diags);
    assert_eq!(diags.len(), 1);
    assert_eq!(diags[0].path, "blog");
    assert_eq!(diags[0].message, "unavailable ApplicationId `blog` lacks failure-containment 503 application_unavailable proof");
    assert_eq!(diags[0].code, IsolationDiagCode::ProxyMisroute);
}

#[test]
fn shadowed_cases_are_reported_as_misroutes() {
    let mut diags: Vec<ApplicationDiagnostic> = Vec::new();
    let cases = build_proxy_dispatch(&[mount("a", "/"), mount("b", "/page")], "host", &vec![], &[], &mut diags);
    assert_eq!(cases[0].url, "/page");
    assert_eq!(cases[2].url, "/");
    assert_eq!(cases[3].url, "/page");
    let messages: Vec<&str> = diags.iter().map(|d| d.message.as_str()).collect();
    assert_eq!(
        messages,
        vec![
            "proxy case mismatch for `/page`: expected status=200 app=Some(\"b\"), got status=200 app=Some(\"a\")",
            "proxy case mismatch for `/`: expected status=200 app=Some(\"a\"), got status=200 app=Some(\"host\")",
        ]
    );
}

#[test]
fn dispatch_strips_the_base_and_refuses_unknown_urls() {
    let table = build_dispatch_table(&[mount("s", "/s"), mount("deep", "/s/deep")]);
    assert_eq!(table, vec![(s("/s/deep"), s("deep")), (s("/s"), s("s"))]);
    let c = dispatch_url("/s/x/y", &table, "h", &vec![]);
    assert_eq!(case(&c), (s("/s/x/y"), Some(s("s")), Some(s("/x/y")), 200, None));
    let c = dispatch_url("/s/deep/z", &table, "h", &vec![]);
    assert_eq!(c.application_id.as_deref(), Some("deep"));
    assert_eq!(c.strip_base.as_deref(), Some("/z"));
    let c = dispatch_url("/sx", &table, "h", &vec![]);
    assert_eq!(case(&c), (s("/sx"), None, None, 404, Some(s("not_found"))));
    let c = dispatch_url("/", &table, "h", &vec![]);
    assert_eq!(case(&c), (s("/"), Some(s("h")), Some(s("/")), 200, None));
}

#[test]
fn unavailable_list_is_sorted_and_deduplicated() {
    assert_eq!(unavailable_from_text("[\"b\", \"a\", \"b\", 3]"), vec![s("a"), s("b")]);
    assert_eq!(unavailable_from_text("{\"applications\": [\"x\"]}"), vec![s("x")]);
    assert!(unavailable_from_text("{\"applications\": 1}").is_empty());
    assert!(unavailable_from_text("bad").is_empty());
}
