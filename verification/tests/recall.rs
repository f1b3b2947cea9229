use igrep_core::index::reader::IndexReader;
use igrep_core::index::writer::IndexWriter;
use igrep_core::search::{any_line_matches, candidate_docs, LineMatcher};
use igrep_core::types::IndexConfig;

// Rust sources of a small project, searched like a working tree.
const SOURCES: &[(&str, &str)] = &[
    (
        "case_test.rs",
        r###"/// Test file for case-sensitive vs case-insensitive search
pub struct FooBar {
    count: usize,
}

impl FooBar {
    pub fn new() -> Self {
        FooBar { count: 0 }
    }
}

pub fn test_case_sensitivity() {
    let foo_bar = FooBar::new();
    let foobar = 42;
    let FOOBAR = 99;
    println!(
        "foo_bar: {:?}, foobar: {}, FOOBAR: {}",
        foo_bar.count, foobar, FOOBAR
    );
}
"###,
    ),
    (
        "error_handling.rs",
        r###"use std::fs;
use std::io;

/// Custom error type for search operations
#[derive(Debug)]
pub enum SearchError {
    IoError(io::Error),
    PatternError(String),
    Timeout,
}

impl std::fmt::Display for SearchError {
    fn fmt(&self, f: &mut std::fmt::Formatter<'_>) -> std::fmt::Result {
        match self {
            SearchError::IoError(e) => write!(f, "IO error: {}", e),
            SearchError::PatternError(msg) => write!(f, "Pattern error: {}", msg),
            SearchError::Timeout => write!(f, "Search timed out"),
        }
    }
}

impl From<io::Error> for SearchError {
    fn from(err: io::Error) -> Self {
        SearchError::IoError(err)
    }
}

// TODO: implement std::error::Error trait
pub fn read_file_safe(path: &str) -> Result<String, SearchError> {
    let content = fs::read_to_string(path)?;
    if content.is_empty() {
        return Err(SearchError::PatternError("empty file".to_string()));
    }
    Ok(content)
}

pub struct ErrorStats {
    pub total_errors: usize,
    pub io_errors: usize,
    pub pattern_errors: usize,
}
"###,
    ),
    (
        "imports.rs",
        r###"use std::collections::BTreeMap;
use std::collections::HashMap;
use std::path::PathBuf;
use std::sync::Arc;
use std::sync::Mutex;

/// Module that exercises various import patterns
pub struct ImportTest {
    map: HashMap<String, Vec<u8>>,
    tree: BTreeMap<String, usize>,
    path: PathBuf,
}

impl ImportTest {
    pub fn new() -> Self {
        ImportTest {
            map: HashMap::new(),
            tree: BTreeMap::new(),
            path: PathBuf::new(),
        }
    }

    pub fn shared(self) -> Arc<Mutex<Self>> {
        Arc::new(Mutex::new(self))
    }
}

// TODO: add async imports with tokio
"###,
    ),
    (
        "multiline.rs",
        r###"/// Tests for multiline pattern matching
pub fn multiline_string() -> &'static str {
    "This is line one
and this is line two
and line three ends here"
}

pub fn contains_special_chars() -> &'static str {
    r#"Special chars: \n \t \r \0 "quotes" 'single' `backtick`"#
}

pub fn blank_lines_test() -> String {
    let mut result = String::new();
    result.push_str("before blank\n");
    result.push_str("\n");
    result.push_str("\n");
    result.push_str("after blank\n");
    result
}

// This function has a very long name for testing
pub fn this_is_a_very_long_function_name_that_should_still_be_searchable() -> bool {
    true
}

#[cfg(test)]
mod tests {
    use super::*;

    fn test_multiline() {
        let text = multiline_string();
        assert!(text.contains("line one"));
        assert!(text.contains("line two"));
    }
}
"###,
    ),
    (
        "nested/deep/module.rs",
        r###"//! A deeply nested module for testing path traversal

pub mod inner {
    pub fn deep_function() -> &'static str {
        // TODO: return something meaningful
        "deep inside nested/deep/module.rs"
    }

    pub struct DeepStruct {
        pub depth: usize,
    }
}

#[cfg(test)]
mod tests {
    use super::inner;

    fn test_deep() {
        let result = inner::deep_function();
        assert_eq!(result, "deep inside nested/deep/module.rs");
    }
}
"###,
    ),
    (
        "patterns.rs",
        r###"use std::fmt;

#[derive(Debug)]
pub struct MyStruct {
    name: String,
    value: i32,
}

pub fn example() -> MyStruct {
    MyStruct {
        name: String::from("test"),
        value: 42,
    }
}

impl fmt::Display for MyStruct {
    fn fmt(&self, f: &mut fmt::Formatter<'_>) -> fmt::Result {
        write!(f, "MyStruct({}, {})", self.name, self.value)
    }
}

pub enum Color {
    Red,
    Green,
    Blue,
}

// FIXME: add more colors
"###,
    ),
    (
        "regex_patterns.rs",
        r###"/// Regex pattern matching utilities
use std::collections::HashMap;

pub fn match_literal(haystack: &str, needle: &str) -> bool {
    haystack.contains(needle)
}

pub fn match_word_boundary(text: &str, word: &str) -> Vec<usize> {
    let mut positions = Vec::new();
    let chars: Vec<char> = text.chars().collect();
    let word_chars: Vec<char> = word.chars().collect();

    for i in 0..chars.len() {
        if i + word_chars.len() <= chars.len() {
            let slice: String = chars[i..i + word_chars.len()].iter().collect();
            if slice == word {
                positions.push(i);
            }
        }
    }
    positions
}

/// Build a trigram index from text
// FIXME: handle Unicode properly in trigram extraction
pub fn build_trigram_map(text: &str) -> HashMap<String, Vec<usize>> {
    let mut map = HashMap::new();
    let bytes = text.as_bytes();

    for i in 0..bytes.len().saturating_sub(2) {
        let trigram = String::from_utf8_lossy(&bytes[i..i + 3]).to_string();
        map.entry(trigram).or_insert_with(Vec::new).push(i);
    }

    map
}

pub enum MatchType {
    Literal,
    Regex,
    Fuzzy,
}
"###,
    ),
    (
        "traits.rs",
        r###"/// Trait definitions for the search engine
pub trait Searchable {
    fn search(&self, query: &str) -> Vec<String>;
    fn search_regex(&self, pattern: &str) -> Vec<String>;
}

pub trait Indexable {
    fn index(&mut self) -> Result<(), String>;
    fn reindex(&mut self) -> Result<(), String>;
}

#[derive(Debug, Clone)]
pub struct IndexEntry {
    pub path: String,
    pub trigrams: Vec<[u8; 3]>,
    pub size: u64,
}

impl IndexEntry {
    pub fn new(path: String) -> Self {
        IndexEntry {
            path,
            trigrams: Vec::new(),
            size: 0,
        }
    }
}

// FIXME: implement Searchable for IndexEntry
pub fn compute_trigrams(data: &[u8]) -> Vec<[u8; 3]> {
    if data.len() < 3 {
        return Vec::new();
    }
    data.windows(3).map(|w| [w[0], w[1], w[2]]).collect()
}
"###,
    ),
];

fn corpus_reader() -> IndexReader {
    let mut writer = IndexWriter::new(IndexConfig::default());
    for (doc_id, (path, content)) in SOURCES.iter().enumerate() {
        writer.add_file(doc_id as u32, path, content.as_bytes());
    }
    let files = writer.finish();
    IndexReader::open(files.postings, files.lookup, &files.files).unwrap()
}

#[test]
fn candidates_include_every_file_with_a_match() {
    let reader = corpus_reader();
    let patterns = [
        "fn main", "use std", "TODO", "FIXME", "struct", "pub fn", "import", "function", "class",
        "return", "def ", "package", "export", "println", "const ", "interface", "derive", "fmt",
        "async", "error", "impl", "match", "(TODO|FIXME):", "fn [a-z_]+\\(", "[Ee]rror",
    ];
    let mut total_matches = 0;
    for pattern in patterns {
        let candidates = candidate_docs(&reader, pattern).unwrap();
        let matcher = LineMatcher::new(pattern, false).unwrap();
        for (doc_id, (path, content)) in SOURCES.iter().enumerate() {
            if any_line_matches(content, &matcher) {
                total_matches += 1;
                assert!(
                    candidates.contains(&(doc_id as u32)),
                    "pattern {pattern:?} matches {path} but the index ruled it out"
                );
            }
        }
    }
    assert!(total_matches > 20);
}

#[test]
fn case_insensitive_candidates_include_every_file_with_a_match() {
    let reader = corpus_reader();
    for pattern in ["foobar", "TODO", "Struct", "IMPL", "error"] {
        let candidates = candidate_docs(&reader, pattern).unwrap();
        let matcher = LineMatcher::new(pattern, true).unwrap();
        for (doc_id, (path, content)) in SOURCES.iter().enumerate() {
            if any_line_matches(content, &matcher) {
                assert!(
                    candidates.contains(&(doc_id as u32)),
                    "pattern {pattern:?} (ignoring case) matches {path} but the index ruled it out"
                );
            }
        }
    }
}

#[test]
fn two_byte_literal_is_indexed_only_for_two_byte_files() {
    let mut writer = IndexWriter::new(IndexConfig::default());
    writer.add_file(0, "main.rs", b"fn main() {}");
    writer.add_file(1, "short.rs", b"fn");
    let files = writer.finish();
    let reader = IndexReader::open(files.postings, files.lookup, &files.files).unwrap();
    assert_eq!(candidate_docs(&reader, "fn").unwrap(), vec![1]);
    // A two-byte literal inside a longer expression is looked up the same way.
    assert_eq!(candidate_docs(&reader, "ma[in]n").unwrap(), Vec::<u32>::new());
}
