use vmz_compiler::check::{check_each_keys, is_float_text, is_literal_key, CheckOptions, CheckReport};
use vmz_compiler::dep_graph::{component_tags, is_component_tag, ComponentGraph};
use vmz_compiler::diagnostic::{ReportedDiagnostic, Severity};
use vmz_compiler::template::{
    attr_interp, attr_static, has_bare_attr, AttrValue, TemplateAttr, TemplateIr, TemplateNode,
};

fn attr(name: &str, v: AttrValue) -> TemplateAttr {
    TemplateAttr { name: name.into(), value: v }
}

fn li(attrs: Vec<TemplateAttr>) -> TemplateIr {
    TemplateIr {
        roots: vec![TemplateNode::Element {
            tag: "li".into(),
            attrs,
            children: vec![TemplateNode::Interp("tag".into())],
        }],
    }
}

fn run(ir: &TemplateIr) -> CheckReport {
    let mut report = CheckReport::new();
    check_each_keys("T.vmz", ir, &mut report);
    report
}

#[test]
fn warns_each_without_key() {
    let ir = li(vec![attr("each", AttrValue::Interp("tags".into())), attr("as", AttrValue::Static("tag".into()))]);
    let report = run(&ir);
    assert!(report
        .diagnostics
        .iter()
        .any(|d| d.severity == Severity::Warning && d.message.contains("no `key`")));
}

#[test]
fn errors_constant_key() {
    let ir = li(vec![
        attr("each", AttrValue::Interp("tags".into())),
        attr("as", AttrValue::Static("tag".into())),
        attr("key", AttrValue::Interp("\"x\"".into())),
    ]);
    let report = run(&ir);
    assert!(report.diagnostics.iter().any(|d| d.severity == Severity::Error && d.message.contains("constant")));
    assert!(report.has_errors());
}

#[test]
fn ok_property_key() {
    let ir = li(vec![
        attr("each", AttrValue::Interp("tags".into())),
        attr("as", AttrValue::Static("tag".into())),
        attr("key", AttrValue::Interp("tag.id".into())),
    ]);
    let report = run(&ir);
    assert!(!report.diagnostics.iter().any(|d| d.message.contains("each")));
}

#[test]
fn key_rules_messages() {
    let item = li(vec![
        attr("each", AttrValue::Interp("tags".into())),
        attr("as", AttrValue::Interp(" 'tag' ".into())),
        attr("key", AttrValue::Interp(" tag ".into())),
    ]);
    let r = run(&item);
    assert_eq!(r.diagnostics.len(), 1);
    assert_eq!(
        r.diagnostics[0].message,
        "<li each> `key={tag}` uses the item itself ?prefer a primitive field (e.g. `tag.id`); object keys are unstable"
    );
    let stat = li(vec![attr("each", AttrValue::Interp("xs".into())), attr("key", AttrValue::Static("k".into()))]);
    let r2 = run(&stat);
    assert_eq!(
        r2.diagnostics[0].message,
        "<li each> `key=\"k\"` is identical for every item ?use a per-item expression like `key={item.id}`"
    );
    assert!(r2.failed(&CheckOptions { deny_warnings: false }));
}

#[test]
fn nested_elements_are_checked_in_order() {
    let ir = TemplateIr {
        roots: vec![TemplateNode::Element {
            tag: "ul".into(),
            attrs: vec![attr("each", AttrValue::Interp("a".into()))],
            children: vec![TemplateNode::Element {
                tag: "li".into(),
                attrs: vec![attr("each", AttrValue::Interp("b".into())), attr("key", AttrValue::Interp("1".into()))],
                children: vec![],
            }],
        }],
    };
    let r = run(&ir);
    assert_eq!(r.diagnostics.len(), 2);
    assert_eq!(r.diagnostics[0].severity, Severity::Warning);
    assert_eq!(r.diagnostics[1].message, "<li each> `key={1}` is a constant ?duplicate keys for every item");
    assert!(!r.failed(&CheckOptions { deny_warnings: false }) || r.has_errors());
}

#[test]
fn warnings_fail_only_when_denied() {
    let mut report = CheckReport::new();
    report.diagnostics.push(ReportedDiagnostic::warning("a".into(), "w".into()));
    assert!(!report.has_errors());
    assert!(!report.failed(&CheckOptions { deny_warnings: false }));
    assert!(report.failed(&CheckOptions { deny_warnings: true }));
}

#[test]
fn literal_keys() {
    for k in ["\"x\"", "'y'", "42", "-1.5e3", "NaN", "true", "null", "undefined", " 7 ", "inf", "+Infinity", ".5", "5."] {
        assert!(is_literal_key(k), "{k}");
    }
    for k in ["item.id", "", "x1", "1e", ".", "e5", "1.2.3", "0x10"] {
        assert!(!is_literal_key(k), "{k}");
    }
    for (s, ok) in [("1E+9", true), ("nan", true), ("-", false), ("1_000", false)] {
        let v: Vec<char> = s.chars().collect();
        assert_eq!(is_float_text(&v), ok, "{s}");
        assert_eq!(s.parse::<f64>().is_ok(), ok, "{s}");
    }
}

#[test]
fn attribute_lookup() {
    let attrs = vec![
        attr("x", AttrValue::Static("".into())),
        attr("x", AttrValue::Interp("e".into())),
        attr("y", AttrValue::Static("s".into())),
    ];
    assert_eq!(attr_interp(&attrs, "x"), Some("e".into()));
    assert_eq!(attr_static(&attrs, "x"), Some("".into()));
    assert_eq!(attr_static(&attrs, "y"), Some("s".into()));
    assert_eq!(attr_interp(&attrs, "y"), None);
    assert!(has_bare_attr(&attrs, "x"));
    assert!(!has_bare_attr(&attrs, "y"));
}

#[test]
fn component_tags_in_document_order() {
    let ir = TemplateIr {
        roots: vec![
            TemplateNode::Element {
                tag: "div".into(),
                attrs: vec![],
                children: vec![
                    TemplateNode::Element { tag: "UserCard".into(), attrs: vec![], children: vec![] },
                    TemplateNode::Text("x".into()),
                    TemplateNode::Element {
                        tag: "Icon".into(),
                        attrs: vec![],
                        children: vec![TemplateNode::Element { tag: "UserCard".into(), attrs: vec![], children: vec![] }],
                    },
                ],
            },
            TemplateNode::Element { tag: "Émoji".into(), attrs: vec![], children: vec![] },
        ],
    };
    assert_eq!(component_tags(&ir), vec!["UserCard".to_string(), "Icon".to_string(), "Émoji".to_string()]);
    assert!(is_component_tag("Card"));
    assert!(!is_component_tag("card"));
    assert!(!is_component_tag(""));
}

#[test]
fn reverse_edge_page_depends_on_component() {
    let el = |tag: &str, children: Vec<TemplateNode>| TemplateNode::Element { tag: tag.into(), attrs: vec![], children };
    let card = TemplateIr { roots: vec![el("p", vec![TemplateNode::Text("c".into())])] };
    let page = TemplateIr { roots: vec![el("UserCard", vec![])] };
    let units = vec![
        ("src/components/UserCard.vmz".to_string(), "components/UserCard".to_string()),
        ("src/pages/index.vmz".to_string(), "pages/index".to_string()),
    ];
    let graph = ComponentGraph::build(&units, &[Some(card), Some(page)]);
    assert_eq!(
        graph.deps.iter().find(|(k, _)| k == "pages/index").map(|(_, v)| v.as_slice()),
        Some(vec!["components/UserCard".to_string()].as_slice())
    );
    let affected = graph.expand_importers(vec!["components/UserCard".into()]);
    assert!(affected.contains(&"pages/index".to_string()));
    assert!(affected.contains(&"components/UserCard".to_string()));
}

#[test]
fn component_stem_under_components_takes_over_and_importers_are_sorted() {
    let el = |tag: &str| TemplateNode::Element { tag: tag.into(), attrs: vec![], children: vec![] };
    let units = vec![
        ("src/pages/Button.vmz".to_string(), "pages/Button".to_string()),
        ("src/components/Button.vmz".to_string(), "components/Button".to_string()),
        ("src/pages/b.vmz".to_string(), "pages/b".to_string()),
        ("src/pages/a.vmz".to_string(), "pages/a".to_string()),
    ];
    let t = |tags: Vec<&str>| Some(TemplateIr { roots: tags.into_iter().map(el).collect() });
    let graph = ComponentGraph::build(&units, &[t(vec![]), t(vec!["Button"]), t(vec!["Button", "Button"]), t(vec!["Button"])]);
    assert_eq!(graph.by_tag, vec![("Button".to_string(), "components/Button".to_string()), ("b".to_string(), "pages/b".to_string()), ("a".to_string(), "pages/a".to_string())]);
    assert_eq!(graph.reverse, vec![("components/Button".to_string(), vec!["pages/a".to_string(), "pages/b".to_string()])]);
    assert_eq!(graph.deps.len(), 2);
}
