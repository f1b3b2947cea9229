use std::collections::{HashMap, HashSet};

use igrep_core::index::writer::{
    merge_maps, process_file_ngrams, process_file_to_map, IndexWriter, NgramEntry,
};
use igrep_core::ngram::{build_all_ngrams, hash_ngram};
use igrep_core::posting::encode_posting_list;
use igrep_core::types::{DocId, IndexConfig, NgramHash};
use rayon::iter::{IntoParallelRefIterator, ParallelIterator};

const POSTINGS_MAGIC: &[u8; 8] = b"IGREP\x00\x01\x00";

fn collect_bulk_inputs(
    files: &[(DocId, &str, &[u8])],
    config: &IndexConfig,
) -> (Vec<NgramEntry>, Vec<(DocId, String)>) {
    let mut entries = Vec::new();
    let mut file_paths = Vec::new();

    for (doc_id, path, content) in files {
        let lowered: Vec<u8> = content.iter().map(|b| b.to_ascii_lowercase()).collect();
        for ngram in build_all_ngrams(&lowered, config) {
            entries.push(NgramEntry(hash_ngram(&ngram), *doc_id));
        }
        file_paths.push((*doc_id, (*path).to_string()));
    }

    (entries, file_paths)
}

fn expected_index_bytes_from_sequential_sort(mut entries: Vec<NgramEntry>) -> (Vec<u8>, Vec<u8>) {
    entries.sort_unstable();

    let mut postings_data = Vec::new();
    let mut lookup_entries: Vec<(NgramHash, u64)> = Vec::new();

    let mut i = 0;
    while i < entries.len() {
        let hash = entries[i].0;
        let mut docs = Vec::new();
        while i < entries.len() && entries[i].0 == hash {
            docs.push(entries[i].1);
            i += 1;
        }
        let offset = postings_data.len() as u64;
        lookup_entries.push((hash, offset));
        encode_posting_list(&docs, &mut postings_data);
    }

    let mut postings_bytes = Vec::with_capacity(POSTINGS_MAGIC.len() + postings_data.len());
    postings_bytes.extend_from_slice(POSTINGS_MAGIC);
    postings_bytes.extend_from_slice(&postings_data);

    let mut lookup_bytes = Vec::with_capacity(lookup_entries.len() * 12);
    for (hash, offset) in &lookup_entries {
        lookup_bytes.extend_from_slice(&hash.to_le_bytes());
        lookup_bytes.extend_from_slice(&offset.to_le_bytes());
    }

    (postings_bytes, lookup_bytes)
}

#[test]
fn finish_writes_index_files_and_expected_formats() {
    let config = IndexConfig::default();
    let mut writer = IndexWriter::new(config.clone());

    let files = vec![
        (0u32, "a.txt", b"abcdefg".as_slice()),
        (1u32, "b.txt", b"abcxyz".as_slice()),
        (2u32, "c.txt", b"xyzabc".as_slice()),
    ];

    for (doc_id, path, content) in &files {
        writer.add_file(*doc_id, path, content);
    }

    let out = writer.finish();
    let meta = out.meta.clone();

    assert!(out.postings.starts_with(POSTINGS_MAGIC));

    let mut unique_hashes: HashSet<NgramHash> = HashSet::new();
    for (_, _, content) in &files {
        let lowered: Vec<u8> = content.iter().map(|b| b.to_ascii_lowercase()).collect();
        for ngram in build_all_ngrams(&lowered, &config) {
            unique_hashes.insert(hash_ngram(&ngram));
        }
    }

    assert_eq!(out.lookup.len(), unique_hashes.len() * 12);

    let files_txt = String::from_utf8(out.files.clone()).unwrap();
    assert_eq!(files_txt.lines().count(), 3);

    assert_eq!(meta.version, 1);
    assert_eq!(meta.commit_sha, None);
    assert_eq!(meta.file_count, 3);
    assert_eq!(meta.ngram_count as usize, unique_hashes.len());
}

#[test]
fn finish_with_no_files_writes_valid_empty_index() {
    let writer = IndexWriter::new(IndexConfig::default());
    let out = writer.finish();

    assert_eq!(out.postings, POSTINGS_MAGIC.to_vec());
    assert!(out.lookup.is_empty());
    assert!(out.files.is_empty());

    assert_eq!(out.meta.version, 1);
    assert_eq!(out.meta.commit_sha, None);
    assert_eq!(out.meta.file_count, 0);
    assert_eq!(out.meta.ngram_count, 0);
}

#[test]
fn test_add_entries_bulk_equivalent_to_add_file() {
    let config = IndexConfig::default();
    let files = vec![
        (0u32, "a.txt", b"abcdefg".as_slice()),
        (1u32, "b.txt", b"abcxyz".as_slice()),
        (2u32, "c.txt", b"xyzabc".as_slice()),
    ];

    let mut sequential_writer = IndexWriter::new(config.clone());
    for (doc_id, path, content) in &files {
        sequential_writer.add_file(*doc_id, path, content);
    }
    let sequential = sequential_writer.finish();

    let (entries, file_paths) = collect_bulk_inputs(&files, &config);
    let mut bulk_writer = IndexWriter::new(config);
    bulk_writer.add_entries_bulk(entries, file_paths);
    let bulk = bulk_writer.finish();

    assert_eq!(bulk.meta.version, sequential.meta.version);
    assert_eq!(bulk.meta.commit_sha, sequential.meta.commit_sha);
    assert_eq!(bulk.meta.file_count, sequential.meta.file_count);
    assert_eq!(bulk.meta.ngram_count, sequential.meta.ngram_count);
    assert_eq!(bulk.lookup, sequential.lookup);
}

#[test]
fn test_finish_par_sort_matches_sequential_sort() {
    let config = IndexConfig::default();
    let entries = vec![
        NgramEntry(20, 4),
        NgramEntry(3, 9),
        NgramEntry(20, 2),
        NgramEntry(1, 7),
        NgramEntry(3, 1),
        NgramEntry(8, 5),
        NgramEntry(1, 2),
        NgramEntry(8, 3),
        NgramEntry(20, 1),
    ];
    let file_paths = vec![(4, "d.txt".to_string()), (9, "i.txt".to_string())];

    let (expected_postings, expected_lookup) =
        expected_index_bytes_from_sequential_sort(entries.clone());

    let mut writer = IndexWriter::new(config);
    writer.add_entries_bulk(entries, file_paths);
    let out = writer.finish();

    assert_eq!(out.postings, expected_postings);
    assert_eq!(out.lookup, expected_lookup);
}

#[test]
fn test_parallel_index_byte_identity() {
    let config = IndexConfig::default();
    let files = vec![
        (0u32, "src/a.rs", b"fn main() { println!(\"A\"); }".as_slice()),
        (1u32, "src/b.rs", b"pub fn calc(x: i32) -> i32 { x + 1 }".as_slice()),
        (2u32, "README.md", b"Instant grep with sparse ngrams".as_slice()),
        (3u32, "notes.txt", b"Case INSENSITIVE test content".as_slice()),
    ];

    let mut sequential_writer = IndexWriter::new(config.clone());
    for (doc_id, path, content) in &files {
        sequential_writer.add_file(*doc_id, path, content);
    }
    let sequential = sequential_writer.finish();

    let (entries, file_paths) = collect_bulk_inputs(&files, &config);
    let mut bulk_writer = IndexWriter::new(config);
    bulk_writer.add_entries_bulk(entries, file_paths);
    let bulk = bulk_writer.finish();

    assert_eq!(bulk.postings, sequential.postings);
    assert_eq!(bulk.lookup, sequential.lookup);
    assert_eq!(bulk.files, sequential.files);
}

#[test]
fn test_add_entries_bulk_empty() {
    let mut writer = IndexWriter::new(IndexConfig::default());
    writer.add_entries_bulk(Vec::new(), Vec::new());

    let out = writer.finish();

    assert_eq!(out.postings, POSTINGS_MAGIC.to_vec());
    assert!(out.lookup.is_empty());
    assert!(out.files.is_empty());

    assert_eq!(out.meta.version, 1);
    assert_eq!(out.meta.commit_sha, None);
    assert_eq!(out.meta.file_count, 0);
    assert_eq!(out.meta.ngram_count, 0);
}

#[test]
fn test_add_entries_bulk_single_file() {
    let config = IndexConfig::default();
    let files = vec![(42u32, "only.txt", b"OneFileContent".as_slice())];

    let mut sequential_writer = IndexWriter::new(config.clone());
    for (doc_id, path, content) in &files {
        sequential_writer.add_file(*doc_id, path, content);
    }
    let sequential = sequential_writer.finish();

    let (entries, file_paths) = collect_bulk_inputs(&files, &config);
    let mut bulk_writer = IndexWriter::new(config);
    bulk_writer.add_entries_bulk(entries, file_paths);
    let bulk = bulk_writer.finish();

    assert_eq!(bulk.meta.version, sequential.meta.version);
    assert_eq!(bulk.meta.commit_sha, sequential.meta.commit_sha);
    assert_eq!(bulk.meta.file_count, 1);
    assert_eq!(bulk.meta.ngram_count, sequential.meta.ngram_count);

    assert_eq!(bulk.postings, sequential.postings);
    assert_eq!(bulk.lookup, sequential.lookup);
    assert_eq!(bulk.files, sequential.files);
}

#[test]
fn parallel_pipeline_matches_sequential() {
    let config = IndexConfig::default();
    let files: Vec<(DocId, &str, &[u8])> = vec![
        (0, "a.rs", b"fn alpha() { let x = 1; }".as_slice()),
        (1, "b.rs", b"fn beta() -> u32 { 42 }".as_slice()),
        (2, "c.md", b"# Title\nSome TEXT here".as_slice()),
    ];

    let mut sequential_writer = IndexWriter::new(config.clone());
    for (doc_id, path, content) in &files {
        sequential_writer.add_file(*doc_id, path, content);
    }
    let sequential = sequential_writer.finish();

    let mut merged: HashMap<NgramHash, Vec<DocId>> = HashMap::new();
    let mut paths = Vec::new();
    for (doc_id, path, content) in &files {
        let map = process_file_to_map(content, *doc_id, &config);
        merge_maps(&mut merged, map);
        paths.push((*doc_id, path.to_string()));
    }
    let mut parallel_writer = IndexWriter::new(config);
    parallel_writer.add_map_bulk(merged, paths);
    let parallel = parallel_writer.finish();

    assert_eq!(sequential.postings, parallel.postings);
    assert_eq!(sequential.lookup, parallel.lookup);
    assert_eq!(sequential.files, parallel.files);
}

#[test]
fn process_file_ngrams_lowercases_and_pairs_with_doc() {
    let config = IndexConfig::default();
    let entries = process_file_ngrams(b"AbC", 7, &config);
    let lowered = build_all_ngrams(b"abc", &config);
    assert_eq!(entries.len(), lowered.len());
    for (entry, ngram) in entries.iter().zip(lowered.iter()) {
        assert_eq!(*entry, NgramEntry(hash_ngram(ngram), 7));
    }
}

#[test]
fn process_file_to_map_counts_each_occurrence() {
    let config = IndexConfig::default();
    let map = process_file_to_map(b"abcabc", 3, &config);
    let entries = process_file_ngrams(b"abcabc", 3, &config);
    let total: usize = map.values().map(|v| v.len()).sum();
    assert_eq!(total, entries.len());
    let mut expected: HashMap<NgramHash, Vec<DocId>> = HashMap::new();
    for entry in &entries {
        expected.entry(entry.0).or_default().push(entry.1);
    }
    assert_eq!(map, expected);
    assert_eq!(map.get(&hash_ngram(b"abc")), Some(&vec![3, 3]));
}

#[test]
fn merge_maps_appends_lists_key_by_key() {
    let mut target: HashMap<NgramHash, Vec<DocId>> = HashMap::new();
    target.insert(1, vec![0]);
    target.insert(2, vec![5]);
    let mut source: HashMap<NgramHash, Vec<DocId>> = HashMap::new();
    source.insert(1, vec![7, 8]);
    source.insert(3, vec![9]);
    merge_maps(&mut target, source);
    assert_eq!(target.len(), 3);
    assert_eq!(target[&1], vec![0, 7, 8]);
    assert_eq!(target[&2], vec![5]);
    assert_eq!(target[&3], vec![9]);
}

#[test]
fn entry_count_counts_pairs() {
    let config = IndexConfig::default();
    let mut writer = IndexWriter::new(config.clone());
    assert_eq!(writer.entry_count(), 0);
    writer.add_file(0, "a.txt", b"abcdef");
    let n = process_file_ngrams(b"abcdef", 0, &config).len();
    assert_eq!(writer.entry_count(), n);
    writer.add_entries_bulk(vec![NgramEntry(1, 1), NgramEntry(1, 2)], Vec::new());
    assert_eq!(writer.entry_count(), n + 2);
    let mut map: HashMap<NgramHash, Vec<DocId>> = HashMap::new();
    map.insert(9, vec![1, 2, 3]);
    writer.add_map_bulk(map, Vec::new());
    assert_eq!(writer.entry_count(), n + 5);
}

#[test]
fn finish_writes_files_by_doc_id_in_decimal() {
    let mut writer = IndexWriter::new(IndexConfig::default());
    writer.add_entries_bulk(
        Vec::new(),
        vec![(12, "b.txt".to_string()), (3, "a.txt".to_string()), (100, "c d.txt".to_string())],
    );
    let out = writer.finish();
    assert_eq!(out.files, b"3\ta.txt\n12\tb.txt\n100\tc d.txt\n".to_vec());
    assert_eq!(out.meta.file_count, 3);
}

#[test]
fn finish_lookup_entries_are_little_endian_with_offsets() {
    let mut writer = IndexWriter::new(IndexConfig::default());
    writer.add_entries_bulk(
        vec![NgramEntry(0x0102_0304, 5), NgramEntry(7, 1), NgramEntry(7, 1)],
        Vec::new(),
    );
    let out = writer.finish();
    // Hash 7 first (list [1]: count 1, gap 1), then 0x01020304 (list [5]).
    assert_eq!(
        out.lookup,
        vec![7, 0, 0, 0, 0, 0, 0, 0, 0, 0, 0, 0, 4, 3, 2, 1, 2, 0, 0, 0, 0, 0, 0, 0]
    );
    assert_eq!(out.postings[8..].to_vec(), vec![1, 1, 1, 5]);
}

fn pipeline_files() -> Vec<(DocId, String, Vec<u8>)> {
    let mut files = Vec::new();
    let texts = [
        "fn alpha() { let x = 1; }",
        "fn beta() -> u32 { 42 }",
        "# Title\nSome TEXT here",
        "pub struct Config { pub max: usize }",
        "",
        "TODO: FIXME later",
        "impl Searchable for MyStruct { fn search(&self) {} }",
    ];
    for (k, text) in texts.iter().enumerate() {
        files.push((k as DocId, format!("dir{}/file{}.rs", k % 3, k), text.as_bytes().to_vec()));
    }
    files
}

fn sequential_index(files: &[(DocId, String, Vec<u8>)], config: &IndexConfig) -> (Vec<u8>, Vec<u8>, Vec<u8>) {
    let mut writer = IndexWriter::new(config.clone());
    for (doc_id, path, content) in files {
        writer.add_file(*doc_id, path, content);
    }
    let out = writer.finish();
    (out.postings, out.lookup, out.files)
}

fn parallel_index(files: &[(DocId, String, Vec<u8>)], config: &IndexConfig) -> (Vec<u8>, Vec<u8>, Vec<u8>) {
    let (merged_map, file_paths) = files
        .par_iter()
        .map(|(doc_id, path, content)| {
            let map = process_file_to_map(content, *doc_id, config);
            (map, vec![(*doc_id, path.clone())])
        })
        .reduce(
            || (HashMap::new(), Vec::new()),
            |mut left, mut right| {
                merge_maps(&mut left.0, right.0);
                left.1.append(&mut right.1);
                left
            },
        );
    let mut writer = IndexWriter::new(config.clone());
    writer.add_map_bulk(merged_map, file_paths);
    let out = writer.finish();
    (out.postings, out.lookup, out.files)
}

#[test]
fn parallel_pipeline_with_thread_counts() {
    let files = pipeline_files();
    let config = IndexConfig::default();
    let sequential = sequential_index(&files, &config);
    for thread_count in [1usize, 2, 4] {
        let parallel = rayon::ThreadPoolBuilder::new()
            .num_threads(thread_count)
            .build()
            .unwrap()
            .install(|| parallel_index(&files, &config));
        assert_eq!(sequential, parallel);
    }
}

#[test]
fn map_bulk_in_reverse_order_writes_the_same_index() {
    let config = IndexConfig::default();
    let files = pipeline_files();
    let (postings, lookup, file_list) = sequential_index(&files, &config);

    let mut merged = HashMap::new();
    let mut pairs = Vec::new();
    for (doc_id, path, content) in files.iter().rev() {
        merge_maps(&mut merged, process_file_to_map(content, *doc_id, &config));
        pairs.push((*doc_id, path.clone()));
    }
    let mut sequential = IndexWriter::new(config.clone());
    for (doc_id, path, content) in &files {
        sequential.add_file(*doc_id, path, content);
    }
    let mut bulk = IndexWriter::new(config.clone());
    bulk.add_map_bulk(merged, pairs);
    assert_eq!(bulk.entry_count(), sequential.entry_count());
    let out = bulk.finish();
    assert_eq!(out.postings, postings);
    assert_eq!(out.lookup, lookup);
    assert_eq!(out.files, file_list);
}
