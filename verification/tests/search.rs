use igrep_core::index::reader::IndexReader;
use igrep_core::index::writer::IndexWriter;
use igrep_core::search::{
    any_line_matches, candidate_docs, filter_paths, filter_results_by_path, matching_lines, LineMatcher,
};
use igrep_core::types::IndexConfig;

fn fixture_reader() -> IndexReader {
    let mut writer = IndexWriter::new(IndexConfig::default());
    writer.add_file(0, "case_test.rs", b"pub struct FooBar {}\nlet foobar = 42;\nlet FOOBAR = 99;\n");
    writer.add_file(1, "simple.rs", b"fn main() {\n    // TODO: fix this\n}\n");
    writer.add_file(2, "other.rs", b"nothing to see\n");
    let files = writer.finish();
    IndexReader::open(files.postings, files.lookup, &files.files).unwrap()
}

#[test]
fn case_insensitive_candidates_include_all_casings() {
    let reader = fixture_reader();
    assert_eq!(candidate_docs(&reader, "FOOBAR").unwrap(), vec![0]);
    assert_eq!(candidate_docs(&reader, "TODO").unwrap(), vec![1]);
    assert_eq!(candidate_docs(&reader, "").unwrap(), vec![0, 1, 2]);
    assert!(candidate_docs(&reader, "foo(").is_err());
}

#[test]
fn matching_lines_numbers_lines_from_one() {
    let matcher = LineMatcher::new("foobar", true).unwrap();
    let content = "pub struct FooBar {}\nlet foobar = 42;\r\nnone\nlet FOOBAR = 99;";
    let results = matching_lines("case_test.rs", content, &matcher);
    let lines: Vec<(usize, &str)> = results
        .iter()
        .map(|r| (r.line_number, r.line_content.as_str()))
        .collect();
    assert_eq!(
        lines,
        vec![
            (1, "pub struct FooBar {}"),
            (2, "let foobar = 42;"),
            (4, "let FOOBAR = 99;")
        ]
    );
    assert!(results.iter().all(|r| r.file_path == "case_test.rs"));
}

#[test]
fn case_sensitive_matching_excludes_other_casings() {
    let matcher = LineMatcher::new("FooBar", false).unwrap();
    let results = matching_lines("a", "FooBar\nfoobar\nFOOBAR\n", &matcher);
    assert_eq!(results.len(), 1);
    assert_eq!(results[0].line_content, "FooBar");
    assert!(any_line_matches("x\nFooBar", &matcher));
    assert!(!any_line_matches("foobar\n", &matcher));
    assert!(!any_line_matches("", &matcher));
}

#[test]
fn invalid_pattern_is_reported() {
    assert!(LineMatcher::new("foo(bar", false).is_err());
    assert!(LineMatcher::new(r"struct\s+\w+", false).is_ok());
}

#[test]
fn file_filter_keeps_matching_paths_in_order() {
    let filter = LineMatcher::new(r"\.rs$", false).unwrap();
    let paths = vec!["src/a.rs".to_string(), "README.md".to_string(), "b.rs".to_string(), "c.rsx".to_string()];
    assert_eq!(filter_paths(&paths, &filter), vec!["src/a.rs".to_string(), "b.rs".to_string()]);

    let matcher = LineMatcher::new("fn", false).unwrap();
    let mut results = matching_lines("src/a.rs", "fn a() {}\nlet x = 1;\nfn b() {}", &matcher);
    results.extend(matching_lines("notes.txt", "fn in text", &matcher));
    let kept = filter_results_by_path(&results, &filter);
    assert_eq!(kept.len(), 2);
    assert!(kept.iter().all(|r| r.file_path == "src/a.rs"));
    assert_eq!(kept[0].line_number, 1);
    assert_eq!(kept[1].line_number, 3);
    assert_eq!(kept[1].line_content, "fn b() {}");
}
