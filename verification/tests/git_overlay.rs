use igrep_core::git_overlay::{commit_sha_from, merge_results, parse_path_lines, GitOverlay};
use igrep_core::types::DocId;

fn path(s: &str) -> Vec<u8> {
    s.as_bytes().to_vec()
}

#[test]
fn test_merge_results_filters_deleted_and_modified() {
    let overlay = GitOverlay {
        base_commit: "abc123".to_string(),
        modified_files: vec![path("modified.txt")],
        deleted_files: vec![path("deleted.txt")],
        new_files: vec![path("new.txt")],
    };

    let file_list: Vec<(DocId, Vec<u8>)> = vec![
        (0, path("clean.txt")),
        (1, path("modified.txt")),
        (2, path("deleted.txt")),
        (3, path("also_clean.txt")),
    ];

    let base_results: Vec<DocId> = vec![0, 1, 2, 3];
    let filtered = merge_results(&base_results, &overlay, &file_list);

    // Only clean files should remain
    assert_eq!(filtered, vec![0, 3]);
}

#[test]
fn test_merge_results_empty_overlay() {
    let overlay = GitOverlay {
        base_commit: "abc123".to_string(),
        modified_files: Vec::new(),
        deleted_files: Vec::new(),
        new_files: Vec::new(),
    };

    let file_list: Vec<(DocId, Vec<u8>)> = vec![(0, path("a.txt")), (1, path("b.txt"))];

    let base_results: Vec<DocId> = vec![0, 1];
    let filtered = merge_results(&base_results, &overlay, &file_list);

    // No changes → all results pass through
    assert_eq!(filtered, vec![0, 1]);
}

#[test]
fn test_merge_results_unknown_doc_id_preserved() {
    let overlay = GitOverlay {
        base_commit: "abc123".to_string(),
        modified_files: vec![path("a.txt")],
        deleted_files: Vec::new(),
        new_files: Vec::new(),
    };

    // file_list doesn't contain doc_id 99
    let file_list: Vec<(DocId, Vec<u8>)> = vec![(0, path("a.txt"))];

    let base_results: Vec<DocId> = vec![0, 99];
    let filtered = merge_results(&base_results, &overlay, &file_list);

    // 0 is filtered (modified), 99 is kept (unknown → conservative)
    assert_eq!(filtered, vec![99]);
}

#[test]
fn merge_results_uses_last_entry_for_a_doc_id() {
    let overlay = GitOverlay {
        base_commit: "abc".to_string(),
        modified_files: vec![path("old.txt")],
        deleted_files: Vec::new(),
        new_files: Vec::new(),
    };
    let file_list: Vec<(DocId, Vec<u8>)> = vec![(0, path("old.txt")), (0, path("new.txt"))];
    assert_eq!(merge_results(&[0, 0], &overlay, &file_list), vec![0, 0]);
}

#[test]
fn detect_changes_without_base_commit_is_empty() {
    let overlay = GitOverlay::detect_changes(None, &[(path("a.txt"), true)], &[path("b.txt")]);
    assert!(overlay.base_commit.is_empty());
    assert!(overlay.modified_files.is_empty());
    assert!(overlay.deleted_files.is_empty());
    assert!(overlay.new_files.is_empty());
}

#[test]
fn detect_changes_sorts_files_by_existence() {
    let changed = vec![
        (path("a.txt"), true),
        (path("b.txt"), false),
        (path("a.txt"), true),
        (path("c.txt"), true),
    ];
    let untracked = vec![path("new.txt"), path("c.txt")];
    let overlay = GitOverlay::detect_changes(Some("abc".to_string()), &changed, &untracked);
    assert_eq!(overlay.base_commit, "abc");
    assert_eq!(overlay.modified_files, vec![path("a.txt"), path("c.txt")]);
    assert_eq!(overlay.deleted_files, vec![path("b.txt")]);
    assert_eq!(overlay.new_files, vec![path("new.txt")]);
}

#[test]
fn parse_path_lines_trims_and_drops_empty_lines() {
    let parsed = parse_path_lines(b"a.txt\n  b/c.rs \r\n\n\t\nd e.md");
    assert_eq!(parsed, vec![path("a.txt"), path("b/c.rs"), path("d e.md")]);
    assert!(parse_path_lines(b"").is_empty());
    assert_eq!(parse_path_lines("x\u{3000}\n".as_bytes()), vec![path("x")]);
}

#[test]
fn parse_path_lines_replaces_invalid_utf8() {
    let parsed = parse_path_lines(b"a\xffb\n");
    assert_eq!(parsed, vec!["a\u{fffd}b".as_bytes().to_vec()]);
}

// The scenarios below describe a repository by what git reports: the files
// changed since the stored commit (committed, then unstaged, then staged),
// each with whether it still exists, and the untracked files.

const HEAD: &str = "3f2a9c1e7b5d4f6a8c0e2b4d6f8a0c2e4b6d8f0a";

#[test]
fn test_detect_changes_no_base_commit() {
    // Repository holds a.txt; the index has no stored commit.
    let overlay = GitOverlay::detect_changes(None, &[], &[]);
    assert!(overlay.base_commit.is_empty());
    assert!(overlay.modified_files.is_empty());
    assert!(overlay.deleted_files.is_empty());
    assert!(overlay.new_files.is_empty());
}

#[test]
fn test_detect_changes_no_changes() {
    // a.txt and b.txt committed; the stored commit is HEAD; nothing changed.
    let overlay = GitOverlay::detect_changes(Some(HEAD.to_string()), &[], &[]);
    assert_eq!(overlay.base_commit, HEAD);
    assert!(overlay.modified_files.is_empty());
    assert!(overlay.deleted_files.is_empty());
    assert!(overlay.new_files.is_empty());
}

#[test]
fn test_detect_changes_modified_file() {
    // a.txt modified in the working tree (unstaged).
    let overlay = GitOverlay::detect_changes(Some(HEAD.to_string()), &[(path("a.txt"), true)], &[]);
    assert!(overlay.modified_files.contains(&path("a.txt")));
    assert!(!overlay.deleted_files.contains(&path("a.txt")));
    assert!(!overlay.modified_files.contains(&path("b.txt")));
}

#[test]
fn test_detect_changes_new_untracked_file() {
    // new_file.txt created and not added.
    let overlay = GitOverlay::detect_changes(Some(HEAD.to_string()), &[], &[path("new_file.txt")]);
    assert!(overlay.new_files.contains(&path("new_file.txt")));
    assert!(overlay.modified_files.is_empty());
    assert!(overlay.deleted_files.is_empty());
}

#[test]
fn test_detect_changes_deleted_file() {
    // b.txt removed from the working tree (unstaged).
    let overlay = GitOverlay::detect_changes(Some(HEAD.to_string()), &[(path("b.txt"), false)], &[]);
    assert!(overlay.deleted_files.contains(&path("b.txt")));
    assert!(!overlay.modified_files.contains(&path("b.txt")));
}

#[test]
fn test_detect_changes_staged_modification() {
    // a.txt modified and staged: only the staged diff lists it.
    let overlay = GitOverlay::detect_changes(Some(HEAD.to_string()), &[(path("a.txt"), true)], &[]);
    assert!(overlay.modified_files.contains(&path("a.txt")));
}

#[test]
fn test_detect_changes_committed_change() {
    // a.txt modified in a new commit: the diff between the stored commit and
    // HEAD lists it.
    let overlay = GitOverlay::detect_changes(Some(HEAD.to_string()), &[(path("a.txt"), true)], &[]);
    assert!(overlay.modified_files.contains(&path("a.txt")));
}

#[test]
fn commit_sha_is_trimmed_and_empty_means_none() {
    assert_eq!(commit_sha_from(b"  3f2a9c1\n"), Some(b"3f2a9c1".to_vec()));
    assert_eq!(commit_sha_from(b"abc"), Some(b"abc".to_vec()));
    assert_eq!(commit_sha_from(b""), None);
    assert_eq!(commit_sha_from(b" \t\r\n"), None);
    assert_eq!(commit_sha_from("\u{3000}abc\u{a0}".as_bytes()), Some(b"abc".to_vec()));
    assert_eq!(commit_sha_from(b"ab\xffc\n"), Some("ab\u{fffd}c".as_bytes().to_vec()));
}

#[test]
fn test_read_commit_sha_empty_file() {
    // An empty commit file names no commit.
    assert_eq!(commit_sha_from(b""), None);
}

#[test]
fn test_read_write_commit_sha_roundtrip() {
    // The commit file holds the SHA as written; reading it back gives it.
    assert_eq!(commit_sha_from(b"abc123def456"), Some(b"abc123def456".to_vec()));
}
