use igrep_core::trigram::{
    check_adjacency, check_next_char, extract_trigrams, extract_trigrams_with_masks, hash_byte,
    trigram_to_hash,
};

#[test]
fn test_extract_trigrams_the_cat_sat() {
    let input = b"the cat sat";
    let trigrams = extract_trigrams(input);
    // 11 bytes => 11 - 2 = 9 trigram positions
    assert_eq!(trigrams.len(), 9);
    assert_eq!(&trigrams[0], b"the");
    assert_eq!(&trigrams[1], b"he ");
    assert_eq!(&trigrams[2], b"e c");
    assert_eq!(&trigrams[3], b" ca");
    assert_eq!(&trigrams[4], b"cat");
    assert_eq!(&trigrams[5], b"at ");
    assert_eq!(&trigrams[6], b"t s");
    assert_eq!(&trigrams[7], b" sa");
    assert_eq!(&trigrams[8], b"sat");
}

#[test]
fn test_extract_trigrams_with_duplicates() {
    let input = b"aba aba";
    let trigrams = extract_trigrams(input);
    // 7 bytes => 5 trigrams
    assert_eq!(trigrams.len(), 5);
    // "aba" appears at position 0 and position 4
    let aba_count = trigrams.iter().filter(|t| *t == b"aba").count();
    assert_eq!(aba_count, 2);
}

#[test]
fn test_extract_trigrams_empty_input() {
    assert!(extract_trigrams(b"").is_empty());
}

#[test]
fn test_extract_trigrams_short_input() {
    assert!(extract_trigrams(b"ab").is_empty());
    assert!(extract_trigrams(b"a").is_empty());
}

#[test]
fn test_extract_trigrams_exact_three() {
    let trigrams = extract_trigrams(b"abc");
    assert_eq!(trigrams.len(), 1);
    assert_eq!(&trigrams[0], b"abc");
}

#[test]
fn test_trigram_to_hash_deterministic() {
    let tri = [b't', b'h', b'e'];
    let h1 = trigram_to_hash(&tri);
    let h2 = trigram_to_hash(&tri);
    assert_eq!(h1, h2);
}

#[test]
fn test_trigram_to_hash_different_inputs() {
    let h1 = trigram_to_hash(b"the");
    let h2 = trigram_to_hash(b"cat");
    assert_ne!(h1, h2);
}

#[test]
fn test_extract_trigrams_with_masks_basic() {
    let input = b"the cat sat";
    let results = extract_trigrams_with_masks(input);
    // All 9 trigrams are unique in "the cat sat", so we get 9 entries
    assert_eq!(results.len(), 9);
}

#[test]
fn test_extract_trigrams_with_masks_grouping() {
    // "aba aba" has "aba" at positions 0 and 4
    let input = b"aba aba";
    let results = extract_trigrams_with_masks(input);

    let aba = results.iter().find(|r| r.trigram == *b"aba").unwrap();
    // loc_mask: bit 0 (pos 0) and bit 4 (pos 4) => 0b00010001 = 0x11
    assert_eq!(aba.loc_mask, (1 << 0) | (1 << 4));
}

#[test]
fn test_extract_trigrams_with_masks_empty() {
    assert!(extract_trigrams_with_masks(b"").is_empty());
    assert!(extract_trigrams_with_masks(b"ab").is_empty());
}

#[test]
fn test_extract_trigrams_with_masks_loc_mask() {
    // "abcdef" => trigrams at positions 0,1,2,3
    // "abc" at pos 0 => loc_mask has bit 0
    let input = b"abcdef";
    let results = extract_trigrams_with_masks(input);

    let abc = results.iter().find(|r| r.trigram == *b"abc").unwrap();
    assert_eq!(abc.loc_mask, 1 << 0);

    let bcd = results.iter().find(|r| r.trigram == *b"bcd").unwrap();
    assert_eq!(bcd.loc_mask, 1 << 1);

    let cde = results.iter().find(|r| r.trigram == *b"cde").unwrap();
    assert_eq!(cde.loc_mask, 1 << 2);

    let def = results.iter().find(|r| r.trigram == *b"def").unwrap();
    assert_eq!(def.loc_mask, 1 << 3);
}

#[test]
fn test_extract_trigrams_with_masks_next_mask() {
    // "abcd": trigram "abc" at pos 0, next byte is 'd'
    let input = b"abcd";
    let results = extract_trigrams_with_masks(input);

    let abc = results.iter().find(|r| r.trigram == *b"abc").unwrap();
    let expected_bit = hash_byte(b'd') % 8;
    assert_ne!(abc.next_mask, 0);
    assert!(abc.next_mask & (1 << expected_bit) != 0);

    // Last trigram "bcd" at pos 1 has no next byte => next_mask stays 0
    let bcd = results.iter().find(|r| r.trigram == *b"bcd").unwrap();
    assert_eq!(bcd.next_mask, 0);
}

#[test]
fn test_adjacency_check_adjacent() {
    // "the" at pos 0 => loc_mask = 0b00000001
    // "he " at pos 1 => loc_mask = 0b00000010
    let mask_a = 1u8 << 0; // pos 0
    let mask_b = 1u8 << 1; // pos 1
    assert!(check_adjacency(mask_a, mask_b));
}

#[test]
fn test_adjacency_check_not_adjacent() {
    // pos 0 and pos 3 are not adjacent
    let mask_a = 1u8 << 0;
    let mask_b = 1u8 << 3;
    assert!(!check_adjacency(mask_a, mask_b));
}

#[test]
fn test_adjacency_check_wrap_around() {
    // pos 7 wraps to pos 0
    let mask_a = 1u8 << 7;
    let mask_b = 1u8 << 0;
    assert!(check_adjacency(mask_a, mask_b));
}

#[test]
fn test_adjacency_check_multiple_positions() {
    // A at positions 0 and 4, B at positions 1 and 5
    let mask_a = (1u8 << 0) | (1u8 << 4);
    let mask_b = (1u8 << 1) | (1u8 << 5);
    assert!(check_adjacency(mask_a, mask_b));
}

#[test]
fn test_adjacency_from_real_trigrams() {
    // Verify adjacency using actual extracted masks from "the cat sat"
    let input = b"the cat sat";
    let results = extract_trigrams_with_masks(input);

    let the = results.iter().find(|r| r.trigram == *b"the").unwrap();
    let he_space = results.iter().find(|r| r.trigram == *b"he ").unwrap();
    assert!(check_adjacency(the.loc_mask, he_space.loc_mask));
}

#[test]
fn test_check_next_char_basic() {
    // "the " => trigram "the" at pos 0, next char is ' '
    let input = b"the ";
    let results = extract_trigrams_with_masks(input);

    let the = results.iter().find(|r| r.trigram == *b"the").unwrap();
    assert!(check_next_char(the.next_mask, b' '));
}

#[test]
fn test_check_next_char_no_next() {
    // "the" => trigram "the" at pos 0, no next byte => next_mask = 0
    let input = b"the";
    let results = extract_trigrams_with_masks(input);

    let the = results.iter().find(|r| r.trigram == *b"the").unwrap();
    assert_eq!(the.next_mask, 0);
    // Any check against a zero mask should fail
    assert!(!check_next_char(the.next_mask, b' '));
    assert!(!check_next_char(the.next_mask, b'x'));
}

#[test]
fn test_hash_byte_deterministic() {
    let h1 = hash_byte(b'a');
    let h2 = hash_byte(b'a');
    assert_eq!(h1, h2);
}

#[test]
fn test_adjacency_zero_masks() {
    assert!(!check_adjacency(0, 0));
    assert!(!check_adjacency(0, 0xFF));
    assert!(!check_adjacency(0xFF, 0));
}

#[test]
fn test_check_next_char_zero_mask() {
    assert!(!check_next_char(0, b'a'));
    assert!(!check_next_char(0, b'z'));
}

#[test]
fn test_adjacency_check_all_positions() {
    // For each position p in 0..8, check that p and p+1 (mod 8) are adjacent
    for p in 0u8..8 {
        let mask_a = 1u8 << p;
        let mask_b = 1u8 << ((p + 1) % 8);
        assert!(
            check_adjacency(mask_a, mask_b),
            "Position {} should be adjacent to position {}",
            p,
            (p + 1) % 8
        );
    }
}

#[test]
fn test_adjacency_non_adjacent_all_positions() {
    // For each position p, check that p and p+2 (mod 8) are NOT adjacent
    // (unless there's overlap from other bits, which there isn't here)
    for p in 0u8..8 {
        let mask_a = 1u8 << p;
        let mask_b = 1u8 << ((p + 2) % 8);
        assert!(
            !check_adjacency(mask_a, mask_b),
            "Position {} should NOT be adjacent to position {}",
            p,
            (p + 2) % 8
        );
    }
}
