use include_files::fragment::{signal_line, OUTPUT_FILE_NAME, TEMPLATE_HEAD, TEMPLATE_TAIL};
use include_files::IncludeFiles;

const TEMPLATE: &str = r#"
static INCLUDE_FILES: once_cell::sync::Lazy<std::collections::HashMap<&'static str, &'static [u8]>> = once_cell::sync::Lazy::new(|| {
    let mut map: std::collections::HashMap<&'static str, &'static [u8]> = std::collections::HashMap::new();
    // INSERT
    map
});
"#;

fn names(list: &[&str]) -> Vec<String> {
    list.iter().map(|n| n.to_string()).collect()
}

fn line(cur: &str, stem: &str, ext: &str) -> String {
    format!(
        "\n    map.insert(\"{}\", include_bytes!(r\"{}/icons/{}.{}\"));\n    ",
        stem, cur, stem, ext
    )
}

fn fragment(lines: &[String]) -> String {
    TEMPLATE.replace("// INSERT", &lines.concat())
}

#[test]
fn new_keeps_settings() {
    let files = IncludeFiles::new("./assets", "png", "target/out");
    assert_eq!(files.input_dir(), "./assets");
    assert_eq!(files.extension(), "png");
    assert_eq!(files.output_dir(), "target/out");
}

#[test]
fn template_pieces_surround_insert_point() {
    assert_eq!(format!("{}{}", TEMPLATE_HEAD, TEMPLATE_TAIL), TEMPLATE.replace("// INSERT", ""));
}

#[test]
fn scenario_two_pngs_and_a_text_file() {
    let files = IncludeFiles::new("./icons", "png", "out");
    let text = files.generate("/work", &names(&["foo.png", "bar.png", "readme.txt"]));
    let expected = fragment(&[line("/work", "foo", "png"), line("/work", "bar", "png")]);
    assert_eq!(text, expected);
    assert!(text.contains("map.insert(\"foo\", include_bytes!(r\"/work/icons/foo.png\"));"));
    assert!(text.contains("map.insert(\"bar\", include_bytes!(r\"/work/icons/bar.png\"));"));
    assert!(!text.contains("readme"));
}

#[test]
fn empty_directory_gives_empty_map() {
    let files = IncludeFiles::new("./icons", "png", "out");
    let text = files.generate("/work", &Vec::new());
    assert_eq!(text, fragment(&[]));
    assert!(!text.contains("map.insert"));
}

#[test]
fn no_matching_entry_gives_empty_map() {
    let files = IncludeFiles::new("./icons", "png", "out");
    let text = files.generate("/work", &names(&["a.txt", "b.jpg", "png", ".png"]));
    assert_eq!(text, fragment(&[]));
}

#[test]
fn mixed_extensions_keep_only_matching_stems() {
    let files = IncludeFiles::new("./icons", "svg", "out");
    let list = names(&["one.svg", "two.png", "three.svg", "four", "five.svg.bak", "six.svgz"]);
    let text = files.generate("/w", &list);
    let expected = fragment(&[line("/w", "one", "svg"), line("/w", "three", "svg")]);
    assert_eq!(text, expected);
    assert_eq!(text.matches("map.insert").count(), 2);
}

#[test]
fn generating_twice_gives_identical_text() {
    let files = IncludeFiles::new("./icons", "png", "out");
    let list = names(&["foo.png", "bar.png", "readme.txt"]);
    let first = files.generate("/work", &list);
    let second = files.generate("/work", &list);
    assert_eq!(first.as_bytes(), second.as_bytes());
    assert_eq!(files.output_path("/work"), files.output_path("/work"));
}

#[test]
fn same_stem_only_one_matching() {
    let files = IncludeFiles::new("./icons", "png", "out");
    let text = files.generate("/w", &names(&["logo.png", "logo.txt"]));
    assert_eq!(text, fragment(&[line("/w", "logo", "png")]));
    let text = files.generate("/w", &names(&["logo.txt", "logo.png"]));
    assert_eq!(text, fragment(&[line("/w", "logo", "png")]));
}

#[test]
fn extension_match_is_case_sensitive() {
    let files = IncludeFiles::new("./icons", "png", "out");
    let text = files.generate("/w", &names(&["A.png", "a.PNG"]));
    assert_eq!(text, fragment(&[line("/w", "A", "png")]));
    assert!(!text.contains("\"a\""));
}

#[test]
fn embedded_path_uses_configured_extension() {
    let files = IncludeFiles::new("./icons", "svg", "out");
    let text = files.generate("/home/me/app", &names(&["star.svg"]));
    assert!(text.contains("include_bytes!(r\"/home/me/app/icons/star.svg\")"));
}

#[test]
fn entry_stem_of_matching_and_other_names() {
    let files = IncludeFiles::new("./icons", "png", "out");
    assert_eq!(files.entry_stem("foo.png"), Some("foo"));
    assert_eq!(files.entry_stem("a.b.png"), Some("a.b"));
    assert_eq!(files.entry_stem("readme.txt"), None);
    assert_eq!(files.entry_stem("png"), None);
    assert_eq!(files.entry_stem(".png"), None);
    assert_eq!(files.entry_stem("foo.PNG"), None);
    assert_eq!(files.entry_stem("foo.png.bak"), None);
}

#[test]
fn entry_stem_of_empty_extension() {
    let files = IncludeFiles::new("./icons", "", "out");
    assert_eq!(files.entry_stem("foo."), Some("foo"));
    assert_eq!(files.entry_stem("foo"), None);
}

#[test]
fn output_path_joins_dir_and_file_name() {
    let files = IncludeFiles::new("./icons", "png", "target/out");
    assert_eq!(files.output_path("/work"), "/work/target/out/include-files.rs");
    assert_eq!(files.output_path("/work/"), "/work/target/out/include-files.rs");
    assert_eq!(OUTPUT_FILE_NAME, "include-files.rs");
}

#[test]
fn output_path_with_absolute_output_dir() {
    let files = IncludeFiles::new("./icons", "png", "/tmp/build/out");
    assert_eq!(files.output_path("/work"), "/tmp/build/out/include-files.rs");
}

#[test]
fn output_path_keeps_extension_independent_name() {
    let files = IncludeFiles::new("./icons", "svg", "out");
    assert_eq!(files.output_path("/w"), "/w/out/include-files.rs");
}

#[test]
fn signal_names_output_path() {
    assert_eq!(
        signal_line("/work/out/include-files.rs"),
        "cargo:rustc-env=INCLUDE_FILES_PATH=/work/out/include-files.rs"
    );
}
