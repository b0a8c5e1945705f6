//! The bundle that the script is loaded from: the module it starts at, and how it is built.

use vstd::prelude::*;

verus! {

/// What the `Debug` format of a string writes.
pub uninterp spec fn debug_text(text: Seq<char>) -> Seq<char>;

/// Formats a string with `{:?}`.
///
/// Trusted: what comes out, the text between quotation marks with its special characters escaped,
/// depends on the text alone.
#[verifier::external_body]
fn quoted(text: &str) -> (quoted: String)
    ensures
        quoted@ == debug_text(text@),
{
    format!("{:?}", text)
}

/// The module that imports two others, whose names are given as they stand in the source.
pub open spec fn two_imports(first: Seq<char>, second: Seq<char>) -> Seq<char> {
    "import "@ + first + ";\nimport "@ + second + ";\n"@
}

/// Writes the module that imports two others.
pub fn import_both(first: &str, second: &str) -> (source: String)
    ensures
        source@ == two_imports(first@, second@),
        source@ == "import "@ + first@ + ";\nimport "@ + second@ + ";\n"@,
{
    "import ".to_owned().concat(first).concat(";\nimport ").concat(second).concat(";\n")
}

/// The first module is loaded before the second: it stands on a line of its own above it, and
/// nothing else stands in the source.
pub proof fn first_import_stands_first(first: Seq<char>, second: Seq<char>)
    ensures
        two_imports(first, second) == "import "@ + first + ";\n"@ + ("import "@ + second + ";\n"@),
{
    reveal_strlit(";\nimport ");
    reveal_strlit(";\n");
    reveal_strlit("import ");
    assert(two_imports(first, second) =~= "import "@ + first + ";\n"@ + ("import "@ + second
        + ";\n"@));
}

/// Writes the module that the bundle starts at. It loads the bridge first, which sets up what the
/// application then finds in place.
pub fn entry_source(bridge: &str, application: &str) -> (source: String)
    ensures
        source@ == two_imports(debug_text(bridge@), debug_text(application@)),
        source@ == "import "@ + debug_text(bridge@) + ";\nimport "@ + debug_text(application@)
            + ";\n"@,
{
    let first: String = quoted(bridge);
    let second: String = quoted(application);
    import_both(first.as_str(), second.as_str())
}

/// The arguments with which `bun` builds the bundle.
pub fn bundle_arguments(entry: &str, out_file: &str) -> (arguments: Vec<String>)
    ensures
        arguments@.map_values(|argument: String| argument@) == seq![
            "build"@,
            entry@,
            "--outfile"@,
            out_file@,
            "--target"@,
            "browser"@,
            "--format"@,
            "iife"@,
            "--minify"@,
        ],
{
    let mut arguments: Vec<String> = Vec::new();
    arguments.push("build".to_owned());
    arguments.push(entry.to_owned());
    arguments.push("--outfile".to_owned());
    arguments.push(out_file.to_owned());
    arguments.push("--target".to_owned());
    arguments.push("browser".to_owned());
    arguments.push("--format".to_owned());
    arguments.push("iife".to_owned());
    arguments.push("--minify".to_owned());
    assert(arguments@.map_values(|argument: String| argument@) =~= seq![
        "build"@,
        entry@,
        "--outfile"@,
        out_file@,
        "--target"@,
        "browser"@,
        "--format"@,
        "iife"@,
        "--minify"@,
    ]);
    arguments
}

} // verus!
