use vstd::prelude::*;

verus! {

/// Identifier of an indexed document (its position in the file list).
pub type DocId = u32;

/// Hash of an n-gram.
pub type NgramHash = u32;

/// A list of document ids.
#[derive(Debug, Clone, PartialEq, Eq)]
pub struct PostingList(pub Vec<DocId>);

/// The operator of a query node.
#[derive(Debug, Clone, Copy, PartialEq, Eq, Structural)]
pub enum QueryOp {
    All,
    Nothing,
    And,
    Or,
}

/// A boolean query over n-gram hashes.
///
/// `And` requires every hash in `trigrams` and every child; `Or` requires
/// at least one of them; `All` matches every document and `Nothing` no document.
#[derive(Debug, PartialEq, Eq)]
pub struct Query {
    pub op: QueryOp,
    pub trigrams: Vec<NgramHash>,
    pub children: Vec<Query>,
}

/// Parameters of index construction.
#[derive(Debug, Clone)]
pub struct IndexConfig {
    pub max_ngram_length: usize,
    pub max_file_size: u64,
    pub skip_binary: bool,
}

impl Default for IndexConfig {
    fn default() -> (c: Self)
        ensures
            c.max_ngram_length == 16,
            c.max_file_size == 52_428_800,
            c.skip_binary,
    {
        IndexConfig { max_ngram_length: 16, max_file_size: 52_428_800, skip_binary: true }
    }
}

/// One matching line of a search.
#[derive(Debug, Clone)]
pub struct SearchResult {
    pub file_path: String,
    pub line_number: usize,
    pub line_content: String,
}

/// Summary of a written or opened index.
#[derive(Debug, Clone)]
pub struct IndexMeta {
    pub version: u32,
    pub commit_sha: Option<String>,
    pub file_count: u32,
    pub ngram_count: u32,
}

} // verus!
