use igrep_core::ngram::{build_all, build_all_ngrams, build_covering, build_covering_ngrams, hash_ngram};
use igrep_core::frequency_table::bigram_weight;
use igrep_core::types::IndexConfig;

fn collect_ngrams(input: &[u8]) -> Vec<Vec<u8>> {
    build_all(input, &bigram_weight).iter().map(|&(s, e)| input[s..e].to_vec()).collect()
}

fn collect_covering_ngrams(input: &[u8], max_ngram_length: usize) -> Vec<Vec<u8>> {
    build_covering(input, &bigram_weight, max_ngram_length).iter().map(|&(s, e)| input[s..e].to_vec()).collect()
}

fn is_subslice(haystack: &[u8], needle: &[u8]) -> bool {
    if needle.is_empty() || needle.len() > haystack.len() {
        return false;
    }
    haystack.windows(needle.len()).any(|w| w == needle)
}

#[test]
fn empty_input_emits_no_ngrams() {
    let out = collect_ngrams(b"");
    assert!(out.is_empty());
}

#[test]
fn one_char_input_emits_no_ngrams() {
    let out = collect_ngrams(b"a");
    assert!(out.is_empty());
}

#[test]
fn two_chars_emit_exactly_one_bigram() {
    let out = collect_ngrams(b"ab");
    assert_eq!(out, vec![b"ab".to_vec()]);
}

#[test]
fn covering_two_chars_emit_exactly_one_bigram() {
    let out = collect_covering_ngrams(b"ab", 16);
    assert_eq!(out, vec![b"ab".to_vec()]);
}

#[test]
fn covering_short_inputs_produce_valid_covering_set() {
    let cases: &[&[u8]] = &[b"", b"a", b"ab", b"abc", b"abcd"];

    for input in cases {
        let out = collect_covering_ngrams(input, 16);
        if input.len() < 2 {
            assert!(out.is_empty());
            continue;
        }
        for ngram in out {
            assert!(ngram.len() >= 2);
            assert!(is_subslice(input, &ngram));
        }
    }
}

#[test]
fn covering_count_is_never_more_than_build_all() {
    let input = b"abcdefghijk";
    let covering = collect_covering_ngrams(input, 16);
    let all = collect_ngrams(input);
    assert!(covering.len() <= all.len());
}

#[test]
fn build_covering_ngrams_respects_max_ngram_length() {
    let input = b"abcdef";
    let mut config = IndexConfig::default();
    config.max_ngram_length = 3;

    let out = build_covering_ngrams(input, &config);
    assert!(!out.is_empty());
    assert!(out.iter().all(|n| n.len() <= 3));
}

#[test]
fn abcdef_outputs_are_substrings_and_len_at_least_two() {
    let input = b"abcdef";
    let out = collect_ngrams(input);

    assert!(!out.is_empty());
    for ngram in out {
        assert!(ngram.len() >= 2);
        assert!(is_subslice(input, &ngram));
    }
}

#[test]
fn hash_ngram_is_deterministic() {
    let ngram = b"deterministic-ngram";
    assert_eq!(hash_ngram(ngram), hash_ngram(ngram));
    assert_ne!(hash_ngram(b"abc"), hash_ngram(b"abd"));
}

#[test]
fn build_all_ngrams_respects_max_ngram_length() {
    let input = b"abcdef";
    let mut config = IndexConfig::default();
    config.max_ngram_length = 3;

    let out = build_all_ngrams(input, &config);
    assert!(!out.is_empty());
    assert!(out.iter().all(|n| n.len() <= 3));
}

fn generated_inputs() -> Vec<Vec<u8>> {
    let mut inputs = Vec::new();
    let mut state: u32 = 12345;
    for len in 3..64usize {
        let mut v = Vec::with_capacity(len);
        for _ in 0..len {
            state = state.wrapping_mul(1_103_515_245).wrapping_add(12_345);
            let b = (state >> 16) as u8;
            v.push(if len % 3 == 0 { b % 4 + b'a' } else { b });
        }
        inputs.push(v);
    }
    inputs.push(b"aaaaaaaaaaaa".to_vec());
    inputs.push(b"abababababab".to_vec());
    inputs
}

#[test]
fn output_count_is_at_most_twice_the_inner_bigrams() {
    for input in generated_inputs() {
        let out = collect_ngrams(&input);
        assert!(out.len() <= 2 * (input.len() - 2));
    }
}

#[test]
fn covering_count_is_at_most_the_inner_bigrams() {
    for input in generated_inputs() {
        let out = collect_covering_ngrams(&input, 16);
        assert!(out.len() <= input.len() - 2);
    }
}

#[test]
fn every_ngram_is_a_piece_of_the_input() {
    for input in generated_inputs() {
        for ngram in collect_ngrams(&input)
            .into_iter()
            .chain(collect_covering_ngrams(&input, 16))
        {
            assert!(ngram.len() >= 2);
            assert!(is_subslice(&input, &ngram));
        }
    }
}

#[test]
fn covering_ngrams_are_among_all_ngrams() {
    for input in generated_inputs() {
        let all = collect_ngrams(&input);
        for ngram in collect_covering_ngrams(&input, 16) {
            assert!(all.iter().any(|candidate| candidate == &ngram));
        }
    }
}

#[test]
fn covering_spans_are_sparse_spans_for_any_limit() {
    for input in generated_inputs() {
        let all = build_all(&input, &bigram_weight);
        for max_len in [0usize, 2, 3, 4, 5, 8, 16, 1000] {
            for span in build_covering(&input, &bigram_weight, max_len) {
                assert!(all.contains(&span));
            }
        }
    }
}

#[test]
fn covering_spans_respect_limits_of_three_bytes_or_more() {
    for input in generated_inputs() {
        for max_len in 3usize..20 {
            for (start, end) in build_covering(&input, &bigram_weight, max_len) {
                assert!(end - start <= max_len);
            }
        }
    }
    // Below three bytes the limit cannot be met by an input of three bytes.
    assert_eq!(build_covering(b"abc", &bigram_weight, 2), vec![(0, 3)]);
}

#[test]
fn builders_use_the_weight_function_given() {
    // With every pair weighing the same, no bigram is lighter than its
    // neighbours: only adjacent bigrams delimit n-grams.
    let flat = |_: u8, _: u8| 7u32;
    assert_eq!(build_all(b"abcde", &flat), vec![(0, 3), (1, 4), (2, 5)]);
    // Weights rising along the input: each new bigram outweighs all before.
    let rising = |a: u8, _: u8| a as u32;
    assert_eq!(build_all(b"abcd", &rising), vec![(0, 3), (1, 4)]);
    // Weights falling along the input: every earlier bigram stays heavier.
    let falling = |a: u8, _: u8| 255 - a as u32;
    assert_eq!(build_all(b"abcd", &falling), vec![(0, 3), (1, 4)]);
    assert_eq!(build_covering(b"abcd", &falling, 16), vec![(1, 4), (0, 3)]);
    // A light bigram between two heavy ones: the heavy ends delimit a
    // longer n-gram around it.
    let valley = |a: u8, _: u8| if a == b'b' { 1u32 } else { 5u32 };
    assert_eq!(build_all(b"abcd", &valley), vec![(0, 3), (1, 4), (0, 4)]);
}

#[test]
fn ngram_hash_is_the_ieee_crc32() {
    assert_eq!(hash_ngram(b"123456789"), 0xCBF4_3926);
    assert_eq!(hash_ngram(b""), 0);
    assert_eq!(hash_ngram(b"a"), 0xE8B7_BE43);
}
