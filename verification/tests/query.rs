use std::collections::BTreeSet;

use igrep_core::ngram::{build_covering_ngrams, hash_ngram};
use igrep_core::query::{and_query, or_query, regex_to_query, simplify_query};
use igrep_core::types::{IndexConfig, NgramHash, Query, QueryOp};

fn collect_hashes(query: &Query, out: &mut BTreeSet<NgramHash>) {
    out.extend(query.trigrams.iter().copied());
    for child in &query.children {
        collect_hashes(child, out);
    }
}

fn literal_hashes(s: &str) -> BTreeSet<NgramHash> {
    let config = IndexConfig::default();
    build_covering_ngrams(s.as_bytes(), &config)
        .into_iter()
        .map(|ngram| hash_ngram(&ngram))
        .collect()
}

#[test]
fn literal_builds_and_query_with_expected_hashes() {
    let query = regex_to_query("foo").unwrap();
    assert_eq!(query.op, QueryOp::And);

    let mut actual = BTreeSet::new();
    collect_hashes(&query, &mut actual);
    assert_eq!(actual, literal_hashes("foo"));
}

#[test]
fn alternation_builds_or_query() {
    let query = regex_to_query("foo|bar").unwrap();
    assert_eq!(query.op, QueryOp::Or);
    assert_eq!(query.children.len(), 2);
}

#[test]
fn concat_with_wildcard_ands_literal_constraints() {
    let query = regex_to_query("foo.*bar").unwrap();
    assert_eq!(query.op, QueryOp::And);

    let mut actual = BTreeSet::new();
    collect_hashes(&query, &mut actual);

    let mut expected = literal_hashes("foo");
    expected.extend(literal_hashes("bar"));
    assert!(expected.is_subset(&actual));
}

#[test]
fn fully_wildcard_pattern_is_all() {
    let query = regex_to_query(".*").unwrap();
    assert_eq!(query.op, QueryOp::All);
}

#[test]
fn empty_pattern_is_all() {
    let query = regex_to_query("").unwrap();
    assert_eq!(query.op, QueryOp::All);
}

#[test]
fn longer_literal_generates_multiple_hashes() {
    let query = regex_to_query("MAX_FILE_SIZE").unwrap();
    assert_eq!(query.op, QueryOp::And);

    let mut actual = BTreeSet::new();
    collect_hashes(&query, &mut actual);
    assert!(actual.len() >= 2);
}

#[test]
fn small_class_then_literal_is_decomposable() {
    let query = regex_to_query("[abc]def").unwrap();
    assert_ne!(query.op, QueryOp::Nothing);
}

#[test]
fn large_class_falls_back_to_all() {
    let query = regex_to_query("[a-zA-Z0-9_]").unwrap();
    assert_eq!(query.op, QueryOp::All);
}

#[test]
fn uppercase_literal_is_queried_lower_cased() {
    let query = regex_to_query("TODO").unwrap();
    let mut actual = BTreeSet::new();
    collect_hashes(&query, &mut actual);
    assert_eq!(actual, literal_hashes("todo"));
}

#[test]
fn literal_query_of_short_literal_is_all() {
    let config = IndexConfig::default();
    let query = igrep_core::query::literal_query(b"a", &config);
    assert_eq!(query.op, QueryOp::All);
}

#[test]
fn unparsable_pattern_reports_the_parser_message() {
    let err = regex_to_query("foo(").unwrap_err();
    assert!(err.contains("unclosed group"));
}

#[test]
fn capture_and_repetition_plan_like_their_body() {
    let plain = regex_to_query("hello").unwrap();
    assert_eq!(regex_to_query("(hello)").unwrap(), plain);
    assert_eq!(regex_to_query("(?:hello)+").unwrap(), plain);
    assert_eq!(regex_to_query("(hello)*").unwrap().op, QueryOp::All);
}

#[test]
fn simplifying_twice_is_simplifying_once() {
    let leaf = |op: QueryOp, trigrams: Vec<NgramHash>| Query { op, trigrams, children: vec![] };
    let node = |op: QueryOp, trigrams: Vec<NgramHash>, children: Vec<Query>| Query { op, trigrams, children };
    let queries = vec![
        node(QueryOp::And, vec![9, 3, 3], vec![leaf(QueryOp::All, vec![]), leaf(QueryOp::And, vec![5, 1])]),
        node(
            QueryOp::Or,
            vec![],
            vec![
                leaf(QueryOp::Nothing, vec![]),
                node(QueryOp::Or, vec![], vec![leaf(QueryOp::And, vec![2]), leaf(QueryOp::And, vec![4])]),
                node(QueryOp::And, vec![], vec![node(QueryOp::Or, vec![], vec![leaf(QueryOp::And, vec![7]), leaf(QueryOp::Or, vec![8])])]),
            ],
        ),
        node(QueryOp::And, vec![], vec![leaf(QueryOp::And, vec![])]),
        node(QueryOp::Or, vec![6], vec![leaf(QueryOp::And, vec![1]), leaf(QueryOp::Or, vec![])]),
        regex_to_query("(hello|world)[xy]foo").unwrap(),
    ];
    for q in queries {
        let once = simplify_query(q);
        let twice = simplify_query(once.clone());
        assert_eq!(twice, once);
    }
}

#[test]
fn conjunctions_and_disjunctions_fold_all_and_nothing() {
    let leaf = |op: QueryOp, trigrams: Vec<NgramHash>| Query { op, trigrams, children: vec![] };
    let nothing = leaf(QueryOp::Nothing, vec![]);
    let all = leaf(QueryOp::All, vec![]);
    assert_eq!(and_query(vec![leaf(QueryOp::And, vec![3]), leaf(QueryOp::Or, vec![]), leaf(QueryOp::And, vec![1])]).op, QueryOp::Nothing);
    assert_eq!(and_query(vec![all.clone(), leaf(QueryOp::And, vec![])]), all);
    assert_eq!(and_query(vec![]), all);
    assert_eq!(
        and_query(vec![leaf(QueryOp::And, vec![9, 2]), all.clone(), leaf(QueryOp::And, vec![2, 5])]),
        leaf(QueryOp::And, vec![2, 5, 9])
    );
    assert_eq!(or_query(vec![leaf(QueryOp::And, vec![3]), leaf(QueryOp::And, vec![])]), all);
    assert_eq!(or_query(vec![nothing.clone(), leaf(QueryOp::Or, vec![])]), nothing);
    assert_eq!(or_query(vec![]), nothing);
    assert_eq!(or_query(vec![nothing.clone(), leaf(QueryOp::And, vec![4])]), leaf(QueryOp::And, vec![4]));
}

#[test]
fn conjunctions_keep_other_children_in_order_and_pool_leaf_hashes() {
    let leaf = |op: QueryOp, trigrams: Vec<NgramHash>| Query { op, trigrams, children: vec![] };
    let node = |op: QueryOp, trigrams: Vec<NgramHash>, children: Vec<Query>| Query { op, trigrams, children };
    let all = leaf(QueryOp::All, vec![]);
    let or_a = leaf(QueryOp::Or, vec![8, 7]);
    let or_b = node(QueryOp::Or, vec![], vec![leaf(QueryOp::And, vec![4]), leaf(QueryOp::And, vec![6])]);
    assert_eq!(
        and_query(vec![or_a.clone(), leaf(QueryOp::And, vec![5, 1, 5]), all.clone(), or_b.clone()]),
        node(QueryOp::And, vec![1, 5], vec![or_a.clone(), or_b.clone()])
    );
    assert_eq!(and_query(vec![all.clone(), or_a.clone()]), or_a);
}

#[test]
fn disjunctions_take_up_grandchildren_and_drop_nothing() {
    let leaf = |op: QueryOp, trigrams: Vec<NgramHash>| Query { op, trigrams, children: vec![] };
    let node = |op: QueryOp, trigrams: Vec<NgramHash>, children: Vec<Query>| Query { op, trigrams, children };
    let nothing = leaf(QueryOp::Nothing, vec![]);
    let a = leaf(QueryOp::And, vec![1]);
    let b = leaf(QueryOp::And, vec![2]);
    let c = leaf(QueryOp::Or, vec![3, 4]);
    assert_eq!(
        or_query(vec![nothing.clone(), node(QueryOp::Or, vec![], vec![a.clone(), b.clone()]), c.clone()]),
        node(QueryOp::Or, vec![], vec![a.clone(), b.clone(), c.clone()])
    );
    assert_eq!(or_query(vec![nothing.clone(), c.clone(), nothing.clone()]), c);
}
