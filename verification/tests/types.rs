use igrep_core::types::{DocId, IndexConfig, PostingList, Query, QueryOp};

#[test]
fn test_index_config_default() {
    let config = IndexConfig::default();
    assert_eq!(config.max_ngram_length, 16);
    assert_eq!(config.max_file_size, 52_428_800);
    assert!(config.skip_binary);
}

#[test]
fn test_query_construction() {
    let leaf = Query {
        op: QueryOp::And,
        trigrams: vec![1, 2, 3],
        children: vec![],
    };
    assert_eq!(leaf.op, QueryOp::And);
    assert_eq!(leaf.trigrams.len(), 3);
    assert!(leaf.children.is_empty());

    let parent = Query {
        op: QueryOp::Or,
        trigrams: vec![],
        children: vec![leaf.clone()],
    };
    assert_eq!(parent.op, QueryOp::Or);
    assert!(parent.trigrams.is_empty());
    assert_eq!(parent.children.len(), 1);

    let all = Query {
        op: QueryOp::All,
        trigrams: vec![],
        children: vec![],
    };
    assert_eq!(all.op, QueryOp::All);

    let none = Query {
        op: QueryOp::Nothing,
        trigrams: vec![],
        children: vec![],
    };
    assert_eq!(none.op, QueryOp::Nothing);
}

#[test]
fn test_posting_list_from_vec() {
    let ids: Vec<DocId> = vec![1, 5, 10, 42];
    let pl = PostingList(ids.clone());
    assert_eq!(pl.0, ids);
    assert_eq!(pl.0.len(), 4);

    let empty = PostingList(vec![]);
    assert!(empty.0.is_empty());
}
