//! The text of the generated source fragment and of the build signal.
use vstd::prelude::*;
use vstd::string::StringExecFns;

verus! {

/// Name of the generated file, placed in the output directory.
pub const OUTPUT_FILE_NAME: &'static str = "include-files.rs";

/// The fragment up to the insertion statements: a lazily built static map
/// from stem to embedded bytes.
pub const TEMPLATE_HEAD: &'static str = "\nstatic INCLUDE_FILES: once_cell::sync::Lazy<std::collections::HashMap<&'static str, &'static [u8]>> = once_cell::sync::Lazy::new(|| {\n    let mut map: std::collections::HashMap<&'static str, &'static [u8]> = std::collections::HashMap::new();\n    ";

/// The fragment after the insertion statements.
pub const TEMPLATE_TAIL: &'static str = "\n    map\n});\n";

/// Opens an insertion statement, up to its key.
pub const LINE_OPEN: &'static str = "\n    map.insert(\"";

/// Between the key and the path of the embedded file.
pub const LINE_BYTES: &'static str = "\", include_bytes!(r\"";

/// The directory, under the working directory, whose files are embedded.
pub const ASSET_DIR: &'static str = "/icons/";

/// Closes an insertion statement, after the path.
pub const LINE_CLOSE: &'static str = "\"));\n    ";

/// What precedes the generated file's path in the build signal.
pub const SIGNAL_PREFIX: &'static str = "cargo:rustc-env=INCLUDE_FILES_PATH=";

/// The path from which the file of stem `stem` is embedded:
/// `<cur>/icons/<stem>.<ext>`.
pub open spec fn asset_path(cur: Seq<char>, stem: Seq<char>, ext: Seq<char>) -> Seq<char> {
    cur + ASSET_DIR@ + stem + seq!['.'] + ext
}

/// The statement that inserts the file of stem `stem` into the map.
pub open spec fn insert_line_text(cur: Seq<char>, stem: Seq<char>, ext: Seq<char>) -> Seq<char> {
    LINE_OPEN@ + stem + LINE_BYTES@ + asset_path(cur, stem, ext) + LINE_CLOSE@
}

/// One insertion statement for each stem, in order.
pub open spec fn entries_text(cur: Seq<char>, stems: Seq<Seq<char>>, ext: Seq<char>) -> Seq<char>
    decreases stems.len(),
{
    if stems.len() == 0 {
        Seq::empty()
    } else {
        entries_text(cur, stems.drop_last(), ext) + insert_line_text(cur, stems.last(), ext)
    }
}

/// The whole fragment for the given stems.
pub open spec fn fragment_text(cur: Seq<char>, stems: Seq<Seq<char>>, ext: Seq<char>) -> Seq<char> {
    TEMPLATE_HEAD@ + entries_text(cur, stems, ext) + TEMPLATE_TAIL@
}

/// The insertion statement for the file of stem `stem`.
pub fn insert_line(cur: &str, stem: &str, extension: &str) -> (r: String)
    ensures
        r@ == insert_line_text(cur@, stem@, extension@),
{
    let mut r = String::from_str(LINE_OPEN);
    r.append(stem);
    r.append(LINE_BYTES);
    r.append(cur);
    r.append(ASSET_DIR);
    r.append(stem);
    r.append(".");
    r.append(extension);
    r.append(LINE_CLOSE);
    proof {
        reveal_strlit(".");
        assert(r@ =~= insert_line_text(cur@, stem@, extension@));
    }
    r
}

/// The line that tells the build where the generated file is.
pub fn signal_line(path: &str) -> (r: String)
    ensures
        r@ == SIGNAL_PREFIX@ + path@,
{
    let mut r = String::from_str(SIGNAL_PREFIX);
    r.append(path);
    r
}

} // verus!
