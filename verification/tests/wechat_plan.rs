use vmz_compiler::diagnostic::Severity;
use vmz_compiler::json::{to_json_text, JsonValue};
use vmz_compiler::wechat_plan::{
    app_json_value, check_tabs, order_app_pages, order_pages_with_tabs, pack_app_id, pack_status, pack_title,
    plan_wechat_pack, selected_tab, IconOutcome, PackCode, PackDiagnostic, PackStatus, PackTab,
};

fn tab(order: u32, stem: &str) -> PackTab {
    PackTab {
        order,
        stem: stem.to_string(),
        label: format!("L{order}"),
        icon: "i.svg".to_string(),
        selected_icon: None,
    }
}

fn s(v: &[&str]) -> Vec<String> {
    v.iter().map(|x| x.to_string()).collect()
}

fn icons_ok(n: usize) -> Vec<IconOutcome> {
    (0..n)
        .map(|i| IconOutcome {
            icons: Ok((format!("assets/i{i}.png"), format!("assets/i{i}-on.png"))),
            center_white: None,
        })
        .collect()
}

#[test]
fn home_page_first_then_by_text_each_once() {
    let pages = s(&["pages/b/b", "pages/home/home", "pages/a/a", "pages/b/b"]);
    assert_eq!(order_app_pages(&pages), s(&["pages/home/home", "pages/a/a", "pages/b/b"]));
}

#[test]
fn tabs_sort_by_order_then_stem() {
    let c = check_tabs(vec![tab(2, "pages/b/b"), tab(1, "pages/a/a")]);
    assert!(c.ok);
    assert!(c.diagnostics.is_empty());
    assert_eq!(c.tabs[0].stem, "pages/a/a");
}

#[test]
fn one_tab_is_refused() {
    let c = check_tabs(vec![tab(1, "pages/a/a")]);
    assert!(!c.ok);
    assert_eq!(c.diagnostics.len(), 1);
    assert_eq!(c.diagnostics[0].path, "pages/a/a");
    assert_eq!(c.diagnostics[0].message, "WeChat custom tabBar requires 2-5 `<router>.tab` pages");
    assert_eq!(c.diagnostics[0].code, PackCode::ArtifactInvalid);
}

#[test]
fn six_tabs_are_refused() {
    let tabs: Vec<PackTab> = (0..6).map(|i| tab(i, &format!("pages/p{i}/p{i}"))).collect();
    let c = check_tabs(tabs);
    assert!(!c.ok);
    assert_eq!(c.diagnostics[0].path, "");
    assert_eq!(c.diagnostics[0].message, "WeChat custom tabBar allows at most 5 `<router>.tab` pages (got 6)");
}

#[test]
fn repeated_tab_order_is_refused() {
    let c = check_tabs(vec![tab(3, "pages/a/a"), tab(3, "pages/b/b"), tab(4, "pages/c/c")]);
    assert!(!c.ok);
    assert_eq!(c.diagnostics.len(), 1);
    assert_eq!(c.diagnostics[0].path, "pages/b/b");
    assert_eq!(c.diagnostics[0].message, "duplicate `<router>.tab.order` 3");
}

#[test]
fn tab_pages_lead_the_page_order() {
    let pages = s(&["pages/home/home", "pages/a/a", "pages/z/z", "pages/m/m"]);
    let tabs = vec![tab(2, "pages/z/z"), tab(1, "pages/m/m")];
    let plan = plan_wechat_pack(&pages, tabs, &icons_ok(2));
    assert!(plan.ready);
    assert!(plan.diagnostics.is_empty());
    assert_eq!(plan.pages, s(&["pages/m/m", "pages/z/z", "pages/home/home", "pages/a/a"]));
    assert_eq!(plan.items.len(), 2);
    assert_eq!(plan.items[0].icon_path, "assets/i0.png");
    assert_eq!(selected_tab(&plan.tab_stems, &"pages/z/z".to_string()), Some(1));
    assert_eq!(selected_tab(&plan.tab_stems, &"pages/a/a".to_string()), None);
}

#[test]
fn icon_failure_stops_the_tab_bar() {
    let pages = s(&["pages/a/a", "pages/b/b"]);
    let tabs = vec![tab(1, "pages/a/a"), tab(2, "pages/b/b")];
    let mut icons = icons_ok(2);
    icons[1].icons = Err("tab icon not found: x.svg".to_string());
    let plan = plan_wechat_pack(&pages, tabs, &icons);
    assert!(!plan.ready);
    assert_eq!(plan.diagnostics.len(), 1);
    assert_eq!(plan.diagnostics[0].path, "pages/b/b");
    assert_eq!(plan.pages, s(&["pages/a/a", "pages/b/b"]));
}

#[test]
fn bad_tabs_give_no_tab_bar() {
    let plan = plan_wechat_pack(&s(&["pages/a/a"]), vec![tab(1, "pages/a/a")], &[]);
    assert!(!plan.ready);
    assert!(plan.items.is_empty());
    assert_eq!(pack_status(&plan.diagnostics, 1), PackStatus::Failed);
}

#[test]
fn status_rules() {
    assert_eq!(pack_status(&[], 0), PackStatus::Incomplete);
    assert_eq!(pack_status(&[], 2), PackStatus::Ready);
    let advice = PackDiagnostic {
        path: String::new(),
        severity: Severity::Advice,
        message: "m".to_string(),
        code: PackCode::CatalogOnly,
    };
    assert_eq!(pack_status(&[advice], 0), PackStatus::Incomplete);
}

#[test]
fn app_json_with_tab_bar() {
    let pages = s(&["pages/a/a", "pages/b/b"]);
    let tabs = vec![tab(1, "pages/a/a"), tab(2, "pages/b/b")];
    let plan = plan_wechat_pack(&pages, tabs, &icons_ok(2));
    let v = app_json_value(&plan.pages, "Shop", Some(&plan.items));
    let text = to_json_text(&v);
    assert!(text.starts_with("{\"pages\":[\"pages/a/a\",\"pages/b/b\"],\"sitemapLocation\":\"sitemap.json\",\"tabBar\":{"));
    assert!(text.contains("\"list\":[{\"iconPath\":\"assets/i0.png\",\"pagePath\":\"pages/a/a\",\"selectedIconPath\":\"assets/i0-on.png\",\"text\":\"L1\"}"));
    assert!(text.contains("\"navigationBarTitleText\":\"Shop\""));
    let plain = app_json_value(&plan.pages, "Shop", None);
    assert!(matches!(plain, JsonValue::Object(ref m) if m.len() == 3));
}

#[test]
fn title_and_app_id_defaults() {
    assert_eq!(pack_title("  "), "VMZ");
    assert_eq!(pack_title(" Shop "), "Shop");
    assert_eq!(pack_app_id(""), "touristappid");
    assert_eq!(order_pages_with_tabs(&s(&["x", "y"]), &s(&["y"])), s(&["y", "x"]));
}
