use vmz_compiler::emit::{rewrite_runtime_import, rewrite_virtual_import};

#[test]
fn runtime_import_becomes_relative_path_up_and_over() {
    let js = "import { h } from \"vmz:runtime\";\nimport x from 'vmz:runtime';\nconst s = \"vmz:runtime-extra\";";
    let out = rewrite_runtime_import(js, "dist/pages/index.js", "dist/_vmz/runtime.js");
    assert_eq!(
        out,
        "import { h } from \"../_vmz/runtime.js\";\nimport x from '../_vmz/runtime.js';\nconst s = \"vmz:runtime-extra\";"
    );
}

#[test]
fn sibling_target_gets_dot_slash() {
    assert_eq!(rewrite_runtime_import("'vmz:runtime'", "dist/index.js", "dist/runtime.js"), "'./runtime.js'");
    assert_eq!(rewrite_runtime_import("\"vmz:runtime\"", "index.js", "runtime.js"), "\"./runtime.js\"");
}

#[test]
fn current_dir_components_are_skipped_on_the_importing_side() {
    assert_eq!(rewrite_virtual_import("\"vmz:x\"", "./a/b.js", "vmz:x", "a/c.js"), "\"./c.js\"");
}

#[test]
fn target_that_is_the_directory_itself_is_dot() {
    assert_eq!(rewrite_virtual_import("'v'", "x/y.js", "v", "x"), "'.'");
}

#[test]
fn unquoted_and_other_specifiers_are_left_alone() {
    let js = "vmz:runtime \"vmz:runtimes\" 'vmz:run'";
    assert_eq!(rewrite_runtime_import(js, "a/b.js", "a/r.js"), js);
}

#[test]
fn every_occurrence_is_replaced() {
    let js = "\"v\"\"v\"'v''v'";
    assert_eq!(rewrite_virtual_import(js, "p/q.js", "v", "p/t.js"), "\"./t.js\"\"./t.js\"'./t.js''./t.js'");
}

#[test]
fn dot_directory_target_gets_a_relative_specifier() {
    assert_eq!(
        rewrite_virtual_import("import a from 'vmz:runtime';", "out/app.js", "vmz:runtime", "out/.vmz/runtime.js"),
        "import a from './.vmz/runtime.js';"
    );
}
