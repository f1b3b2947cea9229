use igrep_core::frequency_table::bigram_weight;

#[test]
fn common_pairs_have_low_weight() {
    // "th", "he", "in", "er", "an" — among the most common English bigrams,
    // also very common in source code identifiers.
    let common_pairs: &[(u8, u8)] = &[
        (b't', b'h'),
        (b'h', b'e'),
        (b'i', b'n'),
        (b'e', b'r'),
        (b'a', b'n'),
        (b'e', b' '),
        (b' ', b't'),
    ];

    for &(a, b) in common_pairs {
        let w = bigram_weight(a, b);
        // Both bytes have rarity < 20, so weight < 20*256 + 20 = 5140.
        assert!(
            w < 5200,
            "common pair ({:?}, {:?}) should have low weight, got {}",
            a as char,
            b as char,
            w
        );
    }
}

#[test]
fn rare_pairs_have_high_weight() {
    // Rare pairs: control chars, high-ASCII combos
    let rare_pairs: &[(u8, u8)] = &[
        (0xFF, 0xFE), // high-ASCII
        (0x01, 0x02), // control chars
        (0x80, 0x90), // high-ASCII
    ];

    for &(a, b) in rare_pairs {
        let w = bigram_weight(a, b);
        // Both bytes have rarity >= 200, so weight >= 200*256 + 200 = 51400.
        assert!(
            w > 50000,
            "rare pair (0x{:02X}, 0x{:02X}) should have high weight, got {}",
            a,
            b,
            w
        );
    }
}

#[test]
fn common_less_than_rare() {
    // The core invariant: common code bigrams weigh less than rare ones.
    let common = bigram_weight(b'e', b' ');
    let rare_qz = bigram_weight(b'q', b'z');
    let rare_shebang = bigram_weight(b'#', b'!');

    assert!(
        common < rare_qz,
        "e-space ({}) should be less than q-z ({})",
        common,
        rare_qz
    );
    assert!(
        common < rare_shebang,
        "e-space ({}) should be less than #! ({})",
        common,
        rare_shebang
    );
}

#[test]
fn space_letter_common() {
    // Space followed by any common letter should have very low weight.
    let common_letters = b"etaoinsrlcdu";
    for &ch in common_letters {
        let w = bigram_weight(b' ', ch);
        // space rarity=0, letter rarity<16, so weight = 0*256 + rarity < 16.
        assert!(
            w < 16,
            "space + {:?} should have very low weight, got {}",
            ch as char,
            w
        );
    }
}

#[test]
fn all_entries_populated() {
    // Every possible byte pair must produce a weight in 0..=65535.
    let mut min_w = u32::MAX;
    let mut max_w = 0u32;

    for b1 in 0u8..=255 {
        for b2 in 0u8..=255 {
            let w = bigram_weight(b1, b2);
            assert!(
                w <= 65535,
                "weight for (0x{:02X}, 0x{:02X}) = {} exceeds 65535",
                b1,
                b2,
                w
            );
            min_w = min_w.min(w);
            max_w = max_w.max(w);
        }
    }

    // Verify reasonable spread: min should be very low, max very high.
    assert!(min_w < 10, "minimum weight {} is unexpectedly high", min_w);
    assert!(
        max_w > 50000,
        "maximum weight {} is unexpectedly low",
        max_w
    );
}

#[test]
fn deterministic() {
    // Same inputs must always produce the same output.
    let pairs: &[(u8, u8)] = &[
        (0, 0),
        (255, 255),
        (b'a', b'b'),
        (b' ', b'\n'),
        (0x80, 0x7F),
    ];

    for &(a, b) in pairs {
        let w1 = bigram_weight(a, b);
        let w2 = bigram_weight(a, b);
        assert_eq!(
            w1, w2,
            "bigram_weight(0x{:02X}, 0x{:02X}) not deterministic: {} vs {}",
            a, b, w1, w2
        );
    }
}

#[test]
fn weight_ordering_granularity() {
    // Verify specific ordering: very common < somewhat common < rare < very rare
    let very_common = bigram_weight(b' ', b'e'); // rarity 0, 1
    let somewhat_common = bigram_weight(b'(', b')'); // rarity 25, 25
    let rare = bigram_weight(b'Q', b'Z'); // rarity 87, 88
    let very_rare = bigram_weight(0xFF, 0xFF); // rarity 200, 200

    assert!(
        very_common < somewhat_common,
        "space-e ({}) should < parens ({})",
        very_common,
        somewhat_common
    );
    assert!(
        somewhat_common < rare,
        "parens ({}) should < QZ ({})",
        somewhat_common,
        rare
    );
    assert!(
        rare < very_rare,
        "QZ ({}) should < 0xFF-0xFF ({})",
        rare,
        very_rare
    );
}
