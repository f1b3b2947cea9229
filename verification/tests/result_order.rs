use igrep_core::result_order::{sort_paths, sort_results};
use igrep_core::types::SearchResult;

fn hit(path: &str, line: usize) -> SearchResult {
    SearchResult { file_path: path.to_string(), line_number: line, line_content: format!("{}:{}", path, line) }
}

fn keys(v: &[SearchResult]) -> Vec<(String, usize)> {
    v.iter().map(|r| (r.file_path.clone(), r.line_number)).collect()
}

#[test]
fn results_sort_by_path_components_then_line() {
    let input = vec![hit("b.rs", 2), hit("a.b", 1), hit("a/b", 9), hit("b.rs", 1), hit("a/b", 3)];
    let sorted = sort_results(&input);
    assert_eq!(
        keys(&sorted),
        vec![
            ("a/b".to_string(), 3),
            ("a/b".to_string(), 9),
            ("a.b".to_string(), 1),
            ("b.rs".to_string(), 1),
            ("b.rs".to_string(), 2),
        ]
    );
    assert_eq!(sorted[0].line_content, "a/b:3");
}

#[test]
fn sorting_no_results_gives_none() {
    assert!(sort_results(&Vec::new()).is_empty());
    assert!(sort_paths(&Vec::new()).is_empty());
}

#[test]
fn paths_sort_in_path_order_keeping_repeats() {
    let input: Vec<String> = ["z", "a.b", "a/b", "a/a/c", "z"].iter().map(|s| s.to_string()).collect();
    assert_eq!(sort_paths(&input), vec!["a/a/c", "a/b", "a.b", "z", "z"]);
}
