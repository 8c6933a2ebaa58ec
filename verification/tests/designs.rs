use vmz_compiler::designs::{
    css_var_name, DesignsBundle, SchemeMap, StyleTheme, StyleThemeTable, StyleTokenLeaf,
};
use vmz_compiler::theme_css::{emit_designs_css, emit_style_theme_css};

fn leaf(path: &[&str], value: &str) -> StyleTokenLeaf {
    StyleTokenLeaf { path: path.iter().map(|s| s.to_string()).collect(), value: value.to_string() }
}

fn two_table_theme() -> StyleTheme {
    StyleTheme {
        default_id: "default".into(),
        activation_attr: "data-theme".into(),
        prefers_color_scheme: SchemeMap::new(),
        tables: vec![
            StyleThemeTable { id: "default".into(), entries: vec![leaf(&["colors", "action"], "#3366ff")] },
            StyleThemeTable { id: "dark".into(), entries: vec![leaf(&["colors", "action"], "#93c5fd")] },
        ],
    }
}

#[test]
fn css_var_naming() {
    assert_eq!(css_var_name(&["colors".into(), "action".into()]), "--vmz-colors-action");
}

#[test]
fn css_var_name_rewrites_underscores() {
    assert_eq!(css_var_name(&["font_size".into(), "x_l".into()]), "--vmz-font-size-x-l");
    assert_eq!(css_var_name(&[]), "--vmz");
}

#[test]
fn resolve_merges_overlay() {
    let theme = StyleTheme {
        default_id: "default".into(),
        activation_attr: "data-theme".into(),
        prefers_color_scheme: SchemeMap::new(),
        tables: vec![
            StyleThemeTable {
                id: "default".into(),
                entries: vec![
                    StyleTokenLeaf { path: vec!["colors".into(), "action".into()], value: "#3366ff".into() },
                    StyleTokenLeaf { path: vec!["spacing".into(), "4".into()], value: "1rem".into() },
                ],
            },
            StyleThemeTable {
                id: "dark".into(),
                entries: vec![StyleTokenLeaf {
                    path: vec!["colors".into(), "action".into()],
                    value: "#93c5fd".into(),
                }],
            },
        ],
    };
    let dark = theme.resolve("dark");
    let action = dark.iter().find(|e| e.path == ["colors".to_string(), "action".to_string()]).unwrap();
    assert_eq!(action.value, "#93c5fd");
    let spacing = dark.iter().find(|e| e.path == ["spacing".to_string(), "4".to_string()]).unwrap();
    assert_eq!(spacing.value, "1rem");
}

#[test]
fn resolve_sorts_by_key_and_keeps_last() {
    let theme = StyleTheme {
        default_id: "default".into(),
        activation_attr: "data-theme".into(),
        prefers_color_scheme: SchemeMap::new(),
        tables: vec![StyleThemeTable {
            id: "default".into(),
            entries: vec![leaf(&["z"], "1"), leaf(&["a", "b"], "2"), leaf(&["z"], "3")],
        }],
    };
    let r = theme.resolve("default");
    assert_eq!(r.len(), 2);
    assert_eq!(r[0].path, vec!["a".to_string(), "b".to_string()]);
    assert_eq!(r[1].value, "3");
}

#[test]
fn project_var_refs_for_engine() {
    let theme = StyleTheme {
        default_id: "default".into(),
        activation_attr: "data-theme".into(),
        prefers_color_scheme: SchemeMap::new(),
        tables: vec![StyleThemeTable {
            id: "default".into(),
            entries: vec![StyleTokenLeaf {
                path: vec!["colors".into(), "action".into()],
                value: "#3366ff".into(),
            }],
        }],
    };
    let projected = theme.project_var_refs("default");
    assert_eq!(projected[0].value, "var(--vmz-colors-action)");
}

#[test]
fn emit_uses_activation_attr() {
    let theme = two_table_theme();
    let css = emit_style_theme_css(&theme);
    assert!(css.contains(":root"));
    assert!(css.contains("[data-theme=\"dark\"]"));
    assert!(css.contains("[data-theme=\"default\"]"));
    assert!(css.contains("--vmz-colors-action: #3366ff"));
    assert!(css.contains("--vmz-colors-action: #93c5fd"));
}

#[test]
fn emit_prefers_color_scheme_media() {
    let mut theme = two_table_theme();
    theme.prefers_color_scheme = SchemeMap::from_pairs(vec![("dark".into(), "dark".into())]);
    let css = emit_style_theme_css(&theme);
    assert!(css.contains("@media (prefers-color-scheme: dark)"));
    assert!(css.contains("--vmz-colors-action: #93c5fd"));
}

#[test]
fn emit_exact_layout() {
    let theme = StyleTheme {
        default_id: "default".into(),
        activation_attr: "data-theme".into(),
        prefers_color_scheme: SchemeMap::new(),
        tables: vec![StyleThemeTable { id: "default".into(), entries: vec![leaf(&["c", "a"], "red")] }],
    };
    assert_eq!(
        emit_style_theme_css(&theme),
        ":root {\n  --vmz-c-a: red;\n}\n\n[data-theme=\"default\"] {\n  --vmz-c-a: red;\n}\n"
    );
}

#[test]
fn emit_empty_theme_is_empty() {
    let theme = StyleTheme {
        default_id: "default".into(),
        activation_attr: "data-theme".into(),
        prefers_color_scheme: SchemeMap::new(),
        tables: vec![StyleThemeTable { id: "default".into(), entries: vec![] }],
    };
    assert_eq!(emit_style_theme_css(&theme), "");
    let bundle = DesignsBundle {
        root: "designs".into(),
        missing: false,
        theme,
        style_entry: None,
        style_files: vec![],
        diagnostics: vec![],
    };
    assert_eq!(emit_designs_css(&bundle), "");
    assert!(bundle.tokens().is_empty());
}

#[test]
fn content_hash_stable_and_sensitive() {
    let a = StyleTheme {
        default_id: "default".into(),
        activation_attr: "data-theme".into(),
        prefers_color_scheme: SchemeMap::new(),
        tables: vec![StyleThemeTable {
            id: "default".into(),
            entries: vec![StyleTokenLeaf {
                path: vec!["colors".into(), "action".into()],
                value: "#3366ff".into(),
            }],
        }],
    };
    let b = a.clone();
    assert_eq!(a.content_hash(), b.content_hash());
    let mut c = a.clone();
    c.tables[0].entries[0].value = "#000000".into();
    assert_ne!(a.content_hash(), c.content_hash());
    let mut d = a.clone();
    d.prefers_color_scheme.insert("dark".into(), "dark".into());
    assert_ne!(a.content_hash(), d.content_hash());
}

#[test]
fn content_hash_is_sha256_of_canonical_text() {
    let theme = StyleTheme {
        default_id: "d".into(),
        activation_attr: "a".into(),
        prefers_color_scheme: SchemeMap::new(),
        tables: vec![],
    };
    // sha256("d\na\n")
    let h = theme.content_hash();
    assert_eq!(h.len(), 64);
    assert_eq!(h, vmz_compiler::digest::sha256_hex("d\na\n"));
    assert_eq!(
        vmz_compiler::digest::sha256_hex(""),
        "e3b0c44298fc1c149afbf4c8996fb92427ae41e4649b934ca495991b7852b855"
    );
}

#[test]
fn theme_ids_sorted_unique_or_default() {
    let mut theme = two_table_theme();
    theme.tables.push(StyleThemeTable { id: "dark".into(), entries: vec![] });
    assert_eq!(theme.theme_ids(), vec!["dark".to_string(), "default".to_string()]);
    theme.tables.clear();
    assert_eq!(theme.theme_ids(), vec!["default".to_string()]);
    assert!(theme.is_empty());
}

#[test]
fn known_vars_and_namespace_keys() {
    let theme = StyleTheme {
        default_id: "default".into(),
        activation_attr: "data-theme".into(),
        prefers_color_scheme: SchemeMap::new(),
        tables: vec![StyleThemeTable {
            id: "default".into(),
            entries: vec![
                leaf(&["colors", "action", "hover"], "x"),
                leaf(&["colors", "action"], "y"),
                leaf(&["spacing", "4"], "1rem"),
                leaf(&["colors"], "z"),
            ],
        }],
    };
    assert_eq!(
        theme.known_css_vars(),
        vec![
            "--vmz-colors".to_string(),
            "--vmz-colors-action".to_string(),
            "--vmz-colors-action-hover".to_string(),
            "--vmz-spacing-4".to_string()
        ]
    );
    assert!(theme.has_css_var("  --vmz-spacing-4 "));
    assert!(!theme.has_css_var("--vmz-spacing"));
    assert_eq!(theme.known_ns_keys("colors"), vec!["action".to_string(), "action-hover".to_string()]);
    assert!(theme.has_ns_key("colors", "action-hover"));
    assert!(!theme.has_ns_key("spacing", "action"));
}

#[test]
fn assemble_tables_merges_overlay_with_same_id() {
    let tables = vmz_compiler::designs::assemble_tables(
        "default".into(),
        vec![leaf(&["a"], "1")],
        vec![("dark".into(), vec![leaf(&["a"], "2")]), ("default".into(), vec![leaf(&["b"], "3")])],
    );
    assert_eq!(tables.len(), 2);
    assert_eq!(tables[0].id, "default");
    assert_eq!(tables[0].entries.len(), 2);
    assert_eq!(tables[1].id, "dark");
}

#[test]
fn summary_reports_ids_and_hash() {
    let theme = two_table_theme();
    let s = theme.summary();
    assert_eq!(s.default_theme_id, "default");
    assert_eq!(s.theme_ids, vec!["dark".to_string(), "default".to_string()]);
    assert_eq!(s.content_hash, theme.content_hash());
    assert_eq!(s.prefers_color_scheme.len(), 0);
}

#[test]
fn content_hash_ignores_table_and_leaf_order() {
    let t = |id: &str, leaves: Vec<StyleTokenLeaf>| StyleThemeTable { id: id.to_string(), entries: leaves };
    let theme = |tables: Vec<StyleThemeTable>| StyleTheme {
        default_id: "default".to_string(),
        activation_attr: "data-theme".to_string(),
        prefers_color_scheme: SchemeMap::new(),
        tables,
    };
    let a = theme(vec![
        t("default", vec![leaf(&["color", "a"], "1"), leaf(&["color", "b"], "2")]),
        t("dark", vec![leaf(&["color", "a"], "3")]),
    ]);
    let b = theme(vec![
        t("dark", vec![leaf(&["color", "a"], "3")]),
        t("default", vec![leaf(&["color", "b"], "2"), leaf(&["color", "a"], "1")]),
    ]);
    assert_eq!(a.content_hash(), b.content_hash());
    assert_eq!(a.content_hash().len(), 64);
    let c = theme(vec![t("default", vec![leaf(&["color", "a"], "9")])]);
    assert_ne!(a.content_hash(), c.content_hash());
}
