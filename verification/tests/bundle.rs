use patch_stream::bundle::{bundle_arguments, entry_source, import_both};

#[test]
fn entry_imports_the_bridge_first() {
    assert_eq!(
        entry_source("/p/src/bridge.ts", "/bun/src/runtime/index.ts"),
        "import \"/p/src/bridge.ts\";\nimport \"/bun/src/runtime/index.ts\";\n"
    );
    assert_eq!(
        entry_source("C:\\a\"b", "c\n"),
        "import \"C:\\\\a\\\"b\";\nimport \"c\\n\";\n"
    );
}

#[test]
fn imports() {
    assert_eq!(import_both("'a'", "'b'"), "import 'a';\nimport 'b';\n");
}

#[test]
fn arguments_of_the_build() {
    assert_eq!(
        bundle_arguments("e.ts", "o.js"),
        vec![
            "build", "e.ts", "--outfile", "o.js", "--target", "browser", "--format", "iife",
            "--minify",
        ]
    );
}
