//! Building a package from a tar archive and querying it.
use rust_assistant::cache::{Crate, CrateFileDataType, CrateTar};
use rust_assistant::{CrateVersion, FileLineRange, ItemQuery, ItemType, LineQuery, SearchMode};

fn make_tar(root: &str, files: &[(&str, &[u8])]) -> Vec<u8> {
    let mut b = tar::Builder::new(Vec::new());
    for (p, data) in files {
        let mut h = tar::Header::new_gnu();
        h.set_size(data.len() as u64);
        h.set_mode(0o644);
        h.set_cksum();
        let path = format!("{}/{}", root, p);
        b.append_data(&mut h, path, *data).unwrap();
    }
    b.into_inner().unwrap()
}

fn fixture_source() -> String {
    let mr = String::from("macro_") + "rule" + "s";
    let mut s = String::new();
    s.push_str("// a plain comment\n"); // line 1
    s.push_str("/// Doc for ExampleStruct\n"); // line 2
    s.push_str("pub struct ExampleStruct {\n"); // line 3
    s.push_str("    pub field: i32,\n"); // line 4
    s.push_str("}\n"); // line 5
    s.push_str("\n"); // line 6
    s.push_str("/// Doc for ExampleEnum\n"); // line 7
    s.push_str("pub enum ExampleEnum {\n"); // line 8
    s.push_str("    VariantOne,\n"); // line 9
    s.push_str("    VariantTwo,\n"); // line 10
    s.push_str("}\n"); // line 11
    s.push_str("\n"); // line 12
    s.push_str("/// Doc for ExampleTrait\n"); // line 13
    s.push_str("/// second line\n"); // line 14
    s.push_str("pub trait ExampleTrait {\n"); // line 15
    s.push_str("    fn example_method(&self);\n"); // line 16
    s.push_str("}\n"); // line 17
    s.push_str("\n"); // line 18
    s.push_str("impl ExampleTrait for ExampleStruct {\n"); // line 19
    s.push_str("    fn example_method(&self) {}\n"); // line 20
    s.push_str("}\n"); // line 21
    s.push_str("\n"); // line 22
    s.push_str("impl ExampleStruct {\n"); // line 23
    s.push_str("    pub fn new() -> Self { ExampleStruct { field: 0 } }\n"); // line 24
    s.push_str("}\n"); // line 25
    s.push_str("\n"); // line 26
    s.push_str("/// Doc for example_function\n"); // line 27
    s.push_str("pub fn example_function() -> i32 { 42 }\n"); // line 28
    s.push_str("\n"); // line 29
    s.push_str(&format!("{}! example_macro {{ () => {{}}; }}\n", mr)); // line 30
    s.push_str("\n"); // line 31
    s.push_str("#[proc_macro_attribute]\n"); // line 32
    s.push_str("pub fn example_attribute_macro(a: TokenStream, b: TokenStream) -> TokenStream { a }\n"); // line 33
    s.push_str("\n"); // line 34
    s.push_str("pub type ExampleTypeAlias = i32;\n"); // line 35
    s
}

fn build_fixture_crate() -> Crate {
    let cv = CrateVersion { krate: "demo".to_string(), version: "1.0.0".to_string() };
    let src = fixture_source();
    let tar = make_tar(
        "demo-1.0.0",
        &[
            ("Cargo.toml", b"[package]\nname = \"demo\"\n".as_slice()),
            ("src/lib.rs", b"pub mod a;\npub struct Sleep;\nfn sleep() {}\n".as_slice()),
            ("src/deep/nested.rs", b"// nested\n".as_slice()),
            ("data/src.rs", src.as_bytes()),
            ("data/raw.bin", &[0xffu8, 0xfe, 0x00, 0x01]),
            ("notes.txt", b"hello world\nfoobar barfoo\nfoo here\n".as_slice()),
        ],
    );
    let crate_tar = CrateTar { crate_version: cv, tar_data: tar };
    Crate::from_tar(&crate_tar).expect("build")
}

#[test]
fn root_directory_lists_files_and_subdirectories() {
    let k = build_fixture_crate();
    let root = k.read_directory("").expect("root");
    assert!(root.files.iter().any(|f| f == "Cargo.toml"));
    assert!(root.files.iter().any(|f| f == "notes.txt"));
    assert!(root.directories.iter().any(|d| d == "src"));
    assert!(root.directories.iter().any(|d| d == "data"));
    assert!(!root.is_empty());
}

#[test]
fn directory_closure_reaches_nested_paths() {
    let k = build_fixture_crate();
    let src = k.read_directory("src").expect("src");
    assert!(src.files.iter().any(|f| f == "lib.rs"));
    assert!(src.directories.iter().any(|d| d == "deep"));
    let deep = k.read_directory("src/deep").expect("src/deep");
    assert!(deep.files.iter().any(|f| f == "nested.rs"));
    assert!(k.read_directory("src/none").is_none());
}

#[test]
fn directory_listings_are_sorted() {
    let k = build_fixture_crate();
    let root = k.read_directory("").expect("root");
    let mut sorted = root.files.clone();
    sorted.sort();
    assert_eq!(root.files, sorted);
}

#[test]
fn line_range_round_trip() {
    let k = build_fixture_crate();
    let full = k
        .get_file_by_line_range("src/lib.rs", None, None)
        .expect("ok")
        .expect("found");
    assert_eq!(full.data, b"pub mod a;\npub struct Sleep;\nfn sleep() {}\n");
    assert_eq!(full.data_type, CrateFileDataType::Utf8);
    // all three lines, terminator of the last line excluded
    let lines = k
        .get_file_by_line_range("src/lib.rs", Some(1), Some(3))
        .expect("ok")
        .expect("found");
    assert_eq!(lines.data, b"pub mod a;\npub struct Sleep;\nfn sleep() {}");
    let first_two = k
        .get_file_by_line_range("src/lib.rs", Some(1), Some(2))
        .expect("ok")
        .expect("found");
    assert_eq!(first_two.data, b"pub mod a;\npub struct Sleep;");
    let second = k
        .get_file_by_line_range("src/lib.rs", Some(2), Some(2))
        .expect("ok")
        .expect("found");
    assert_eq!(second.data, b"pub struct Sleep;");
    let beyond = k
        .get_file_by_line_range("src/lib.rs", Some(9), Some(12))
        .expect("ok")
        .expect("found");
    assert_eq!(beyond.data, b"");
    assert!(k.get_file_by_line_range("missing.rs", Some(1), Some(1)).expect("ok").is_none());
}

#[test]
fn file_line_range_request_form() {
    let k = build_fixture_crate();
    let r = k
        .get_file_by_file_line_range("src/lib.rs", FileLineRange { start: None, end: Some(1) })
        .expect("ok")
        .expect("found");
    assert_eq!(r.data, b"pub mod a;");
}

#[test]
fn binary_guard() {
    let k = build_fixture_crate();
    // a bounded range on a non-UTF-8 file is refused
    let err = k.get_file_by_line_range("data/raw.bin", Some(1), Some(2));
    assert!(err.is_err());
    // a fully unbounded request hands the raw bytes back
    let raw = k
        .get_file_by_line_range("data/raw.bin", None, None)
        .expect("ok")
        .expect("found");
    assert_eq!(raw.data, vec![0xffu8, 0xfe, 0x00, 0x01]);
    assert_eq!(raw.data_type, CrateFileDataType::NonUtf8);
}

#[test]
fn declaration_coverage_of_fixture() {
    let k = build_fixture_crate();
    let all = k.search_item(&ItemQuery {
        type_: ItemType::All,
        query: String::new(),
        path: Some("data".to_string()),
    });
    let names: Vec<(String, ItemType)> =
        all.iter().map(|i| (i.name.clone(), i.type_)).collect();
    assert!(names.contains(&("ExampleStruct".to_string(), ItemType::Struct)));
    assert!(names.contains(&("ExampleEnum".to_string(), ItemType::Enum)));
    assert!(names.contains(&("ExampleTrait".to_string(), ItemType::Trait)));
    assert!(names.contains(&(
        "impl ExampleTrait for ExampleStruct".to_string(),
        ItemType::ImplTraitForType
    )));
    assert!(names.contains(&("impl ExampleStruct".to_string(), ItemType::ImplType)));
    assert!(names.contains(&("example_function".to_string(), ItemType::Function)));
    assert!(names.contains(&("example_macro".to_string(), ItemType::Macro)));
    assert!(names.contains(&(
        "example_attribute_macro".to_string(),
        ItemType::AttributeMacro
    )));
    assert!(names.contains(&("ExampleTypeAlias".to_string(), ItemType::TypeAlias)));
    assert_eq!(all.len(), 9);
}

#[test]
fn declaration_line_ranges_cover_doc_comments() {
    let k = build_fixture_crate();
    let traits = k.search_item(&ItemQuery {
        type_: ItemType::Trait,
        query: "exampletrait".to_string(),
        path: None,
    });
    assert_eq!(traits.len(), 1);
    assert_eq!(traits[0].file, "data/src.rs");
    assert_eq!(traits[0].line_range.start, 13);
    assert_eq!(traits[0].line_range.end, 17);
    let structs = k.search_item(&ItemQuery {
        type_: ItemType::Struct,
        query: "ExampleStruct".to_string(),
        path: None,
    });
    assert_eq!(structs.len(), 1);
    assert_eq!(structs[0].line_range.start, 2);
    assert_eq!(structs[0].line_range.end, 5);
}

#[test]
fn declaration_search_is_case_insensitive_substring() {
    let k = build_fixture_crate();
    // the query is lowercased and matched inside the lowercased name
    let hits = k.search_item(&ItemQuery {
        type_: ItemType::Struct,
        query: "EXAMPLEstr".to_string(),
        path: None,
    });
    assert_eq!(hits.len(), 1);
    assert_eq!(hits[0].name, "ExampleStruct");
    // a path restriction to another directory excludes the file
    let none = k.search_item(&ItemQuery {
        type_: ItemType::Struct,
        query: "examplestruct".to_string(),
        path: Some("src".to_string()),
    });
    assert!(none.is_empty());
}

fn plain_query(q: &str) -> LineQuery {
    LineQuery {
        query: q.to_string(),
        mode: SearchMode::PlainText,
        case_sensitive: true,
        whole_word: false,
        max_results: None,
        file_ext: String::new(),
        path: None,
    }
}

#[test]
fn line_search_reports_position_and_column_bytes() {
    let k = build_fixture_crate();
    let hits = k.search_line(&plain_query("world")).expect("search");
    assert_eq!(hits.len(), 1);
    assert_eq!(hits[0].file, "notes.txt");
    assert_eq!(hits[0].line_number, 1);
    assert_eq!(hits[0].line, "hello world");
    assert_eq!(hits[0].column_range.start, 7);
    assert_eq!(hits[0].column_range.end, 12);
}

#[test]
fn whole_word_matching_excludes_embeddings() {
    let k = build_fixture_crate();
    let mut q = plain_query("foo");
    q.whole_word = true;
    let hits = k.search_line(&q).expect("search");
    // `foobar` and `barfoo` must not match; `foo here` must
    assert_eq!(hits.len(), 1);
    assert_eq!(hits[0].line, "foo here");
    assert_eq!(hits[0].line_number, 3);
}

#[test]
fn case_flag_folds_the_query() {
    let k = build_fixture_crate();
    let mut q = plain_query("FOO HERE");
    q.case_sensitive = false;
    let hits = k.search_line(&q).expect("search");
    assert_eq!(hits.len(), 1);
    assert_eq!(hits[0].line, "foo here");
    let strict = k.search_line(&plain_query("FOO HERE")).expect("search");
    assert!(strict.is_empty());
}

#[test]
fn result_cap_bounds_the_answer() {
    let k = build_fixture_crate();
    let mut q = plain_query("e");
    q.max_results = Some(2);
    let hits = k.search_line(&q).expect("search");
    assert!(hits.len() <= 2);
    assert_eq!(hits.len(), 2);
}

#[test]
fn extension_and_path_filters() {
    let k = build_fixture_crate();
    let mut q = plain_query("Sleep");
    q.file_ext = "rs".to_string();
    q.path = Some("src".to_string());
    q.whole_word = true;
    let hits = k.search_line(&q).expect("search");
    assert_eq!(hits.len(), 1);
    assert_eq!(hits[0].file, "src/lib.rs");
    // a txt-only filter finds nothing under src
    let mut q2 = plain_query("Sleep");
    q2.file_ext = " txt , md ".to_string();
    let hits2 = k.search_line(&q2).expect("search");
    assert!(hits2.is_empty());
}

#[test]
fn plain_text_mode_escapes_metacharacters() {
    let k = build_fixture_crate();
    // in plain-text mode a dot is literal: "o.h" must not match "foo here"
    let none = k.search_line(&plain_query("o.h")).expect("search");
    assert!(none.is_empty());
    // in regex mode the same pattern does match
    let mut q = plain_query("o.h");
    q.mode = SearchMode::Regex;
    let hits = k.search_line(&q).expect("search");
    assert_eq!(hits.len(), 1);
    assert_eq!(hits[0].line, "foo here");
}

#[test]
fn malformed_regex_is_a_query_error() {
    let k = build_fixture_crate();
    let mut q = plain_query("(unclosed");
    q.mode = SearchMode::Regex;
    assert!(k.search_line(&q).is_err());
}
