use igrep_core::index::reader::{check_postings_header, parse_file_list, IndexReader, ReaderError};
use igrep_core::index::writer::IndexWriter;
use igrep_core::ngram::hash_ngram;
use igrep_core::query::{and_query, or_query, simplify_query};
use igrep_core::types::{IndexConfig, NgramHash, Query, QueryOp};

fn build_test_index() -> (IndexReader, NgramHash, NgramHash) {
    let mut writer = IndexWriter::new(IndexConfig::default());

    writer.add_file(0, "a.txt", b"ab");
    writer.add_file(1, "b.txt", b"ab");
    writer.add_file(2, "c.txt", b"cd");
    let files = writer.finish();

    let reader = IndexReader::open(files.postings, files.lookup, &files.files).unwrap();
    (reader, hash_ngram(b"ab"), hash_ngram(b"cd"))
}

#[test]
fn open_and_lookup_roundtrip() {
    let (reader, hash_ab, hash_cd) = build_test_index();

    assert_eq!(reader.file_count(), 3);
    assert_eq!(reader.lookup(hash_ab), Some(vec![0, 1]));
    assert_eq!(reader.lookup(hash_cd), Some(vec![2]));
}

#[test]
fn lookup_missing_hash_returns_none() {
    let (reader, hash_ab, hash_cd) = build_test_index();
    let missing = hash_ab ^ hash_cd ^ 0xA5A5_5A5A;
    assert_eq!(reader.lookup(missing), None);
}

#[test]
fn evaluate_query_and_intersects_constraints() {
    let (reader, hash_ab, _) = build_test_index();

    let query = Query {
        op: QueryOp::And,
        trigrams: vec![hash_ab],
        children: vec![Query {
            op: QueryOp::And,
            trigrams: vec![hash_ab],
            children: vec![],
        }],
    };

    assert_eq!(reader.evaluate_query(&query), vec![0, 1]);
}

#[test]
fn evaluate_query_or_unions_constraints() {
    let (reader, hash_ab, hash_cd) = build_test_index();

    let query = Query {
        op: QueryOp::Or,
        trigrams: vec![hash_cd],
        children: vec![Query {
            op: QueryOp::And,
            trigrams: vec![hash_ab],
            children: vec![],
        }],
    };

    assert_eq!(reader.evaluate_query(&query), vec![0, 1, 2]);
}

#[test]
fn evaluate_query_all_returns_all_docs() {
    let (reader, _, _) = build_test_index();
    let query = Query {
        op: QueryOp::All,
        trigrams: vec![],
        children: vec![],
    };
    assert_eq!(reader.evaluate_query(&query), vec![0, 1, 2]);
}

#[test]
fn evaluate_query_none_returns_empty() {
    let (reader, _, _) = build_test_index();
    let query = Query {
        op: QueryOp::Nothing,
        trigrams: vec![],
        children: vec![],
    };
    assert!(reader.evaluate_query(&query).is_empty());
}

#[test]
fn doc_id_to_path_maps_ids_to_paths() {
    let (reader, _, _) = build_test_index();

    assert_eq!(reader.doc_id_to_path(0), Some(b"a.txt".as_slice()));
    assert_eq!(reader.doc_id_to_path(1), Some(b"b.txt".as_slice()));
    assert_eq!(reader.doc_id_to_path(2), Some(b"c.txt".as_slice()));
    assert_eq!(reader.doc_id_to_path(3), None);
}

#[test]
fn open_rejects_bad_postings_header() {
    assert_eq!(
        IndexReader::open(b"IGREP".to_vec(), Vec::new(), b"").err(),
        Some(ReaderError::PostingsTooShort)
    );
    assert_eq!(
        IndexReader::open(b"IGREP\x00\x02\x00".to_vec(), Vec::new(), b"").err(),
        Some(ReaderError::BadMagic)
    );
    assert_eq!(check_postings_header(b"IGREP\x00\x01\x00rest"), Ok(()));
}

#[test]
fn open_rejects_partial_lookup_entries() {
    assert_eq!(
        IndexReader::open(b"IGREP\x00\x01\x00".to_vec(), vec![0; 13], b"").err(),
        Some(ReaderError::BadLookupSize(13))
    );
}

#[test]
fn file_list_errors_name_the_line() {
    assert_eq!(parse_file_list(b"0\ta\nno tab\n"), Err(ReaderError::MalformedLine(2)));
    assert_eq!(parse_file_list(b"x\ta\n"), Err(ReaderError::InvalidDocId(1)));
    assert_eq!(parse_file_list(b"4294967296\ta\n"), Err(ReaderError::InvalidDocId(1)));
    assert_eq!(
        parse_file_list(b"0\ta\n2\tb\n"),
        Err(ReaderError::NonContiguousDocId(2, 2, 1))
    );
    assert_eq!(parse_file_list(b"0\ta\n\n"), Err(ReaderError::MalformedLine(2)));
}

#[test]
fn file_list_reads_paths_by_id() {
    assert_eq!(
        parse_file_list(b"0\ta b\r\n+1\tc\td\n2\t"),
        Ok(vec![b"a b".to_vec(), b"c\td".to_vec(), b"".to_vec()])
    );
    assert_eq!(parse_file_list(b""), Ok(Vec::new()));
}

#[test]
fn lookup_safety_checks_pass_on_written_index() {
    let (reader, hash_ab, hash_cd) = build_test_index();
    assert!(reader.lookup_is_safe(hash_ab));
    assert!(reader.lookup_is_safe(hash_cd));
    assert!(reader.lookup_is_safe(12345));
    let query = Query {
        op: QueryOp::And,
        trigrams: vec![hash_ab, hash_cd],
        children: vec![],
    };
    assert!(reader.query_is_safe(&query));
    assert!(reader.evaluate_query(&query).is_empty());
}

#[test]
fn lookup_safety_detects_overflowing_ids() {
    // One entry for hash 5 at offset 0; the list claims two ids, the
    // second overflowing 32 bits.
    let mut postings = b"IGREP\x00\x01\x00".to_vec();
    postings.extend_from_slice(&[2, 0xff, 0xff, 0xff, 0xff, 0x0f, 1]);
    let mut lookup = Vec::new();
    lookup.extend_from_slice(&5u32.to_le_bytes());
    lookup.extend_from_slice(&0u64.to_le_bytes());
    let reader = IndexReader::open(postings, lookup, b"").unwrap();
    assert!(!reader.lookup_is_safe(5));
    assert!(reader.lookup_is_safe(6));
}

#[test]
fn regex_query_finds_documents_whatever_their_case() {
    let mut writer = IndexWriter::new(IndexConfig::default());
    writer.add_file(0, "a.rs", b"// TODO: fix this");
    writer.add_file(1, "b.rs", b"fn main() {}");
    writer.add_file(2, "c.rs", b"let FooBar = 1;");
    let files = writer.finish();
    let reader = IndexReader::open(files.postings, files.lookup, &files.files).unwrap();

    let todo = igrep_core::query::regex_to_query("TODO").unwrap();
    assert!(reader.query_is_safe(&todo));
    assert_eq!(reader.evaluate_query(&todo), vec![0]);

    let foobar = igrep_core::query::regex_to_query("foobar").unwrap();
    assert_eq!(reader.evaluate_query(&foobar), vec![2]);

    let either = igrep_core::query::regex_to_query("main|FooBar").unwrap();
    assert_eq!(reader.evaluate_query(&either), vec![1, 2]);
}

#[test]
fn written_lists_read_back_sorted_without_duplicates() {
    let mut writer = IndexWriter::new(IndexConfig::default());
    writer.add_entries_bulk(
        vec![
            igrep_core::index::writer::NgramEntry(77, 9),
            igrep_core::index::writer::NgramEntry(77, 3),
            igrep_core::index::writer::NgramEntry(77, 9),
            igrep_core::index::writer::NgramEntry(5, 0),
        ],
        vec![(0, "x".to_string())],
    );
    let files = writer.finish();
    let reader = IndexReader::open(files.postings, files.lookup, &files.files).unwrap();
    assert_eq!(reader.lookup(77), Some(vec![3, 9]));
    assert_eq!(reader.lookup(5), Some(vec![0]));
    assert_eq!(reader.lookup(6), None);
    assert_eq!(reader.doc_id_to_path(0), Some(b"x".as_slice()));
}

fn leaf(op: QueryOp, trigrams: Vec<NgramHash>) -> Query {
    Query { op, trigrams, children: vec![] }
}

fn node(op: QueryOp, trigrams: Vec<NgramHash>, children: Vec<Query>) -> Query {
    Query { op, trigrams, children }
}

#[test]
fn simplified_queries_select_the_same_documents() {
    let mut writer = IndexWriter::new(IndexConfig::default());
    writer.add_file(0, "a.txt", b"ab");
    writer.add_file(1, "b.txt", b"ab");
    writer.add_file(2, "c.txt", b"cd");
    writer.add_file(3, "d.txt", b"xy");
    let files = writer.finish();
    let reader = IndexReader::open(files.postings, files.lookup, &files.files).unwrap();
    let (ab, cd, xy) = (hash_ngram(b"ab"), hash_ngram(b"cd"), hash_ngram(b"xy"));

    let queries = vec![
        node(
            QueryOp::And,
            vec![ab],
            vec![
                leaf(QueryOp::All, vec![]),
                node(QueryOp::Or, vec![], vec![leaf(QueryOp::And, vec![ab]), leaf(QueryOp::And, vec![cd])]),
            ],
        ),
        node(
            QueryOp::Or,
            vec![],
            vec![
                leaf(QueryOp::Nothing, vec![]),
                node(QueryOp::Or, vec![], vec![leaf(QueryOp::And, vec![xy]), leaf(QueryOp::And, vec![cd])]),
            ],
        ),
        node(
            QueryOp::And,
            vec![],
            vec![
                node(QueryOp::Or, vec![], vec![leaf(QueryOp::And, vec![ab]), leaf(QueryOp::And, vec![xy])]),
                leaf(QueryOp::Or, vec![]),
            ],
        ),
        node(QueryOp::And, vec![], vec![leaf(QueryOp::And, vec![])]),
        node(QueryOp::Or, vec![], vec![leaf(QueryOp::All, vec![]), leaf(QueryOp::And, vec![ab])]),
        leaf(QueryOp::Or, vec![ab, xy]),
    ];
    let expected: Vec<Vec<u32>> = vec![vec![0, 1], vec![2, 3], vec![], vec![0, 1, 2, 3], vec![0, 1, 2, 3], vec![0, 1, 3]];
    for (query, want) in queries.into_iter().zip(expected) {
        assert_eq!(reader.evaluate_query(&query), want);
        let simplified = simplify_query(query.clone());
        assert_eq!(reader.evaluate_query(&simplified), want);
    }

    let either = node(QueryOp::Or, vec![], vec![leaf(QueryOp::And, vec![ab]), leaf(QueryOp::And, vec![cd])]);
    let conj = and_query(vec![leaf(QueryOp::And, vec![ab]), either]);
    assert_eq!(reader.evaluate_query(&conj), vec![0, 1]);
    let disj = or_query(vec![leaf(QueryOp::And, vec![ab]), leaf(QueryOp::And, vec![xy])]);
    assert_eq!(reader.evaluate_query(&disj), vec![0, 1, 3]);
}

#[test]
fn simplifying_a_disjunction_with_children_drops_its_own_hashes() {
    let (reader, hash_ab, hash_cd) = build_test_index();
    let query = node(QueryOp::Or, vec![hash_cd], vec![leaf(QueryOp::And, vec![hash_ab])]);
    assert_eq!(reader.evaluate_query(&query), vec![0, 1, 2]);
    assert_eq!(reader.evaluate_query(&simplify_query(query)), vec![0, 1]);
}
