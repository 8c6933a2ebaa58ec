use vmz_compiler::wechat_pack::{format_page_js, wechat_page_stem, WechatPackFile};

#[test]
fn page_stem_under_pages() {
    assert_eq!(wechat_page_stem("pages/home"), "pages/home/home");
    assert_eq!(wechat_page_stem(" /pages/cart/ "), "pages/cart/cart");
    assert_eq!(wechat_page_stem("pages/shop/detail"), "pages/shop/detail/detail");
}

#[test]
fn page_stem_outside_pages() {
    assert_eq!(wechat_page_stem("components/Card"), "pages/Card/Card");
    assert_eq!(wechat_page_stem("index"), "pages/index/index");
    assert_eq!(wechat_page_stem(""), "pages//");
}

#[test]
fn page_js_minimal() {
    let js = format_page_js("\"Home\"", &[], None);
    assert_eq!(js, "Page({\n  onShareAppMessage() { return { title: \"Home\" }; }\n});\n");
}

#[test]
fn page_js_with_bindings_and_tab() {
    let fields = vec![("b0".to_string(), "0".to_string()), ("b1".to_string(), "\"x\"".to_string())];
    let js = format_page_js("\"Cart\"", &fields, Some(12));
    let expected = "Page({\n  data: {\n    b: {\n      b0: 0,\n      b1: \"x\"\n    }\n  },\n  onShow() {\n    const bar = typeof this.getTabBar === 'function' ? this.getTabBar() : null;\n    if (bar) {\n      bar.setData({ selected: 12 });\n    }\n  },\n  onShareAppMessage() { return { title: \"Cart\" }; }\n});\n";
    assert_eq!(js, expected);
}

#[test]
fn page_js_tab_zero() {
    let js = format_page_js("null", &[], Some(0));
    assert!(js.contains("bar.setData({ selected: 0 });"));
}

#[test]
fn pack_file_holds_its_fields() {
    let f = WechatPackFile {
        chunk_id: "pages/home".into(),
        unit_name: "Home".into(),
        stem: wechat_page_stem("pages/home"),
        files: vec!["dist/wechat/pages/home/home.js".into()],
    };
    assert_eq!(f.stem, "pages/home/home");
    assert_eq!(f.files.len(), 1);
}
