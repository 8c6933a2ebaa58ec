use vmz_compiler::wechat_wxss::{
    choose_style_layer, file_comment, is_layer_comment, is_shared_style_path, pack_style, page_css,
    paths_match, split_file_slices, split_lines, PackStyle,
};

fn chars(s: &str) -> Vec<char> {
    s.chars().collect()
}

#[test]
fn splits_sfc_comments_and_ignores_other_pages() {
    let text = "/* vmz style layer: Scss */\n/* src/pages/home.vmz */\n.home { color: red; }\n/* src/pages/cart.vmz */\n.cart { color: blue; }\n";
    let slices = split_file_slices(text);
    assert_eq!(slices.len(), 2);
    let style = PackStyle { shared: String::new(), file_slices: slices, undivided: String::new() };
    let home = page_css(&style, "E:/app/src/pages/home.vmz");
    assert!(home.contains(".home"), "{home}");
    assert!(!home.contains(".cart"), "{home}");
    let cart = page_css(&style, "src/pages/cart.vmz");
    assert!(cart.contains(".cart"), "{cart}");
    assert!(!cart.contains(".home"), "{cart}");
}

#[test]
fn lines_match_str_lines() {
    for s in ["", "a", "a\n", "a\r\nb", "\n\n", "x\r", "a\n\nb\r\n"] {
        let got: Vec<String> = split_lines(&chars(s)).into_iter().map(|v| v.into_iter().collect()).collect();
        let want: Vec<String> = s.lines().map(|l| l.to_string()).collect();
        assert_eq!(got, want, "{s:?}");
    }
}

#[test]
fn comment_lines() {
    assert!(is_layer_comment(&chars("  /* vmz style layer: Tw */")));
    assert_eq!(file_comment(&chars("/* src\\a.vmz */")), Some(chars("src/a.vmz")));
    assert_eq!(file_comment(&chars("/* just words */")), None);
    assert_eq!(file_comment(&chars("/*  */")), None);
    assert_eq!(file_comment(&chars(".x {}")), None);
}

#[test]
fn slices_trim_and_drop_empty() {
    let text = "header\n/* a.vmz */\n\n  .a{}  \n/* b.vmz */\n   \n/* c.css */\n.c{}";
    let slices = split_file_slices(text);
    assert_eq!(slices, vec![("a.vmz".to_string(), ".a{}".to_string()), ("c.css".to_string(), ".c{}".to_string())]);
}

#[test]
fn shared_paths_and_matching() {
    assert!(is_shared_style_path("E:\\proj\\Designs\\index.scss".replace("E:", "").as_str()));
    assert!(!is_shared_style_path("src/pages/home.vmz"));
    assert!(paths_match("E:\\APP\\src\\pages\\Home.vmz", "src/pages/home.vmz"));
    assert!(!paths_match("src/pages/home.vmz", "src/pages/cart.vmz"));
}

#[test]
fn pack_style_collects_shared_layers() {
    let layer = "/* src/designs/tokens.scss */\n.t{}\n/* src/pages/home.vmz */\n.home{}\n".to_string();
    let style = pack_style(Some(".tw{}".into()), Some("   ".into()), layer);
    assert_eq!(style.shared, ".tw{}\n.t{}");
    assert_eq!(style.file_slices.len(), 2);
    assert_eq!(style.undivided, "");
    assert_eq!(page_css(&style, "src/designs/tokens.scss"), "");
    let plain = pack_style(None, None, ".x{}".into());
    assert_eq!(plain.undivided, ".x{}");
    assert_eq!(page_css(&plain, "anything.vmz"), ".x{}");
}

#[test]
fn style_layer_choice() {
    assert_eq!(choose_style_layer(Some(".a{}".into()), Some(".b{}".into())), ".a{}");
    assert_eq!(choose_style_layer(Some("  ".into()), Some(".b{}".into())), ".b{}");
    assert_eq!(choose_style_layer(None, Some("@import 'x';".into())), "");
    assert_eq!(choose_style_layer(None, None), "");
}
