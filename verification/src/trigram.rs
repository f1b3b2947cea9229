//! Trigrams (three-byte windows) with position and next-byte masks.
use vstd::prelude::*;
use std::collections::HashMap;
use crate::checksum::{crc32, crc32_checksum};
use crate::types::NgramHash;

verus! {

broadcast use vstd::std_specs::hash::group_hash_axioms;

/// The three bytes of `input` starting at `p`.
pub open spec fn window(input: Seq<u8>, p: int) -> Seq<u8> {
    input.subrange(p, p + 3)
}

/// The number of trigram positions in `input`.
pub open spec fn window_count(input: Seq<u8>) -> nat {
    if input.len() < 3 {
        0
    } else {
        (input.len() - 2) as nat
    }
}

/// Slides a three-byte window over `input` and returns every trigram in
/// order, repetitions included. Inputs shorter than three bytes have none.
pub fn extract_trigrams(input: &[u8]) -> (r: Vec<[u8; 3]>)
    ensures
        r@.len() == window_count(input@),
        forall|i: int| 0 <= i < r@.len() ==> (#[trigger] r@[i])@ == window(input@, i),
{
    let mut r: Vec<[u8; 3]> = Vec::new();
    if input.len() < 3 {
        return r;
    }
    let n = input.len() - 2;
    for p in 0..n
        invariant
            n == input@.len() - 2,
            r@.len() == p,
            forall|i: int| 0 <= i < r@.len() ==> (#[trigger] r@[i])@ == window(input@, i),
    {
        let t = [input[p], input[p + 1], input[p + 2]];
        assert(t@ =~= window(input@, p as int));
        r.push(t);
    }
    r
}

/// The CRC-32 checksum of the three bytes of `trigram`.
pub fn trigram_to_hash(trigram: &[u8; 3]) -> (h: NgramHash)
    ensures
        h == crc32_checksum(trigram@),
{
    crc32(trigram.as_slice())
}

/// The low byte of the CRC-32 checksum of the single byte `b`.
pub open spec fn byte_hash(b: u8) -> u8 {
    (crc32_checksum(seq![b]) % 256) as u8
}

/// The one-byte hash used by the next-byte and position masks.
pub fn hash_byte(b: u8) -> (h: u8)
    ensures
        h == byte_hash(b),
{
    let one = [b];
    assert(one@ =~= seq![b]);
    (crc32(one.as_slice()) % 256) as u8
}

/// The mask with only bit `k` (`k < 8`) set.
pub open spec fn bit(k: nat) -> u8 {
    (1u8 << (k as u8))
}

/// Bit `k` (`k < 8`) of `m` is set.
pub open spec fn has_bit(m: u8, k: nat) -> bool {
    m & bit(k) != 0
}

/// The position mask of `tri` over the first `n` positions of `input`: bit
/// `p % 8` is set for every position `p < n` where `tri` occurs.
pub open spec fn loc_mask_upto(input: Seq<u8>, tri: Seq<u8>, n: nat) -> u8
    decreases n,
{
    if n == 0 {
        0
    } else {
        let p = (n - 1) as nat;
        loc_mask_upto(input, tri, p) | (if window(input, p as int) == tri {
            bit(p % 8)
        } else {
            0
        })
    }
}

/// The next-byte mask of `tri` over the first `n` positions of `input`: for
/// every position `p < n` where `tri` occurs and a byte follows it, bit
/// `byte_hash(input[p + 3]) % 8` is set.
pub open spec fn next_mask_upto(input: Seq<u8>, tri: Seq<u8>, n: nat) -> u8
    decreases n,
{
    if n == 0 {
        0
    } else {
        let p = (n - 1) as nat;
        next_mask_upto(input, tri, p) | (if window(input, p as int) == tri && p + 3 < input.len() {
            bit((byte_hash(input[p + 3int]) % 8) as nat)
        } else {
            0
        })
    }
}

/// A trigram with its position mask and next-byte mask.
#[derive(Debug, Clone, Copy, PartialEq, Eq)]
pub struct TrigramWithMasks {
    pub trigram: [u8; 3],
    pub next_mask: u8,
    pub loc_mask: u8,
}

/// `tri` occurs in `input`.
pub open spec fn occurs(input: Seq<u8>, tri: Seq<u8>) -> bool {
    exists|p: int| 0 <= p < window_count(input) && window(input, p) == tri
}

/// Some entry of `r` is for the trigram `tri`.
pub open spec fn has_entry(r: Seq<TrigramWithMasks>, tri: Seq<u8>) -> bool {
    exists|i: int| 0 <= i < r.len() && (#[trigger] r[i]).trigram@ == tri
}

/// The window of `input` at `q` is the trigram of some entry of `out`.
spec fn covered(out: Seq<TrigramWithMasks>, input: Seq<u8>, q: int) -> bool {
    has_entry(out, window(input, q))
}

/// The integer that identifies a trigram.
spec fn key_of(t: Seq<u8>) -> int {
    t[0] * 65536 + t[1] * 256 + t[2]
}

fn trigram_key(t: &[u8; 3]) -> (k: u32)
    ensures
        k == key_of(t@),
{
    (t[0] as u32) * 65536 + (t[1] as u32) * 256 + (t[2] as u32)
}

proof fn lemma_key_injective(a: Seq<u8>, b: Seq<u8>)
    requires
        a.len() == 3,
        b.len() == 3,
        key_of(a) == key_of(b),
    ensures
        a == b,
{
    assert(a[0] == b[0]);
    assert(a[1] == b[1]);
    assert(a[2] == b[2]);
    assert(a =~= b);
}

proof fn lemma_or_zero(x: u8)
    ensures
        x | 0u8 == x,
{
    assert(x | 0u8 == x) by (bit_vector);
}

/// Extracts the distinct trigrams of `input`, each with its masks: for a
/// trigram occurring at positions `p`, bit `p % 8` of `loc_mask` is set, and
/// where a byte `c` follows the occurrence, bit `byte_hash(c) % 8` of
/// `next_mask` is set. Each distinct trigram appears exactly once, in order
/// of first occurrence. Inputs shorter than three bytes have none.
pub fn extract_trigrams_with_masks(input: &[u8]) -> (r: Vec<TrigramWithMasks>)
    ensures
        forall|i: int, j: int|
            0 <= i < j < r@.len() ==> (#[trigger] r@[i]).trigram@ != (#[trigger] r@[j]).trigram@,
        forall|i: int|
            0 <= i < r@.len() ==> {
                &&& occurs(input@, (#[trigger] r@[i]).trigram@)
                &&& r@[i].loc_mask == loc_mask_upto(input@, r@[i].trigram@, window_count(input@))
                &&& r@[i].next_mask == next_mask_upto(input@, r@[i].trigram@, window_count(input@))
            },
        forall|q: int| 0 <= q < window_count(input@) ==> has_entry(r@, #[trigger] window(input@, q)),
{
    let mut out: Vec<TrigramWithMasks> = Vec::new();
    if input.len() < 3 {
        return out;
    }
    let n = input.len() - 2;
    let mut index: HashMap<u32, usize> = HashMap::new();
    let mut p: usize = 0;
    while p < n
        invariant
            p <= n,
            n == input@.len() - 2,
            n == window_count(input@),
            forall|k: u32|
                #[trigger] index@.contains_key(k) ==> index@[k] < out@.len() && key_of(
                    out@[index@[k] as int].trigram@,
                ) == k,
            forall|i: int|
                0 <= i < out@.len() ==> #[trigger] index@.contains_key(
                    key_of(out@[i].trigram@) as u32,
                ) && index@[key_of(out@[i].trigram@) as u32] == i,
            forall|i: int|
                0 <= i < out@.len() ==> {
                    &&& (#[trigger] out@[i]).trigram@.len() == 3
                    &&& 0 <= key_of(out@[i].trigram@) < 0x1000000
                    &&& occurs(input@, out@[i].trigram@)
                    &&& out@[i].loc_mask == loc_mask_upto(input@, out@[i].trigram@, p as nat)
                    &&& out@[i].next_mask == next_mask_upto(input@, out@[i].trigram@, p as nat)
                },
            forall|q: int| 0 <= q < p ==> #[trigger] covered(out@, input@, q),
        decreases n - p,
    {
        let tri = [input[p], input[p + 1], input[p + 2]];
        assert(tri@ =~= window(input@, p as int));
        assert(occurs(input@, tri@));
        let key = trigram_key(&tri);
        let ghost before_all = out@;
        let idx: usize = match index.get(&key) {
            Some(i) => *i,
            None => {
                assert(!index@.contains_key(key));
                assert forall|q: int| 0 <= q < p implies window(input@, q) != tri@ by {
                    if window(input@, q) == tri@ {
                        assert(covered(out@, input@, q));
                        let j = choose|j: int|
                            0 <= j < out@.len() && (#[trigger] out@[j]).trigram@ == window(input@, q);
                        assert(index@.contains_key(key_of(out@[j].trigram@) as u32));
                    }
                }
                proof {
                    lemma_masks_absent(input@, tri@, p as nat);
                }
                let i = out.len();
                index.insert(key, i);
                out.push(TrigramWithMasks { trigram: tri, next_mask: 0, loc_mask: 0 });
                assert(out@[i as int].trigram@ == tri@);
                assert forall|k: u32| #[trigger] index@.contains_key(k) implies index@[k] < out@.len()
                    && key_of(out@[index@[k] as int].trigram@) == k by {
                    if k != key {
                        assert(out@[index@[k] as int] == before_all[index@[k] as int]);
                    }
                }
                assert forall|j: int| 0 <= j < out@.len() implies #[trigger] index@.contains_key(
                    key_of(out@[j].trigram@) as u32,
                ) && index@[key_of(out@[j].trigram@) as u32] == j by {
                    if j < i {
                        assert(out@[j] == before_all[j]);
                        assert(index@.contains_key(key_of(before_all[j].trigram@) as u32));
                    }
                }
                i
            },
        };
        assert(forall|j: int| 0 <= j < before_all.len() ==> out@[j] == before_all[j]);
        proof {
            lemma_key_injective(out@[idx as int].trigram@, tri@);
        }
        let old_entry = out[idx];
        let loc = old_entry.loc_mask | (1u8 << ((p % 8) as u8));
        let next = if p + 3 < input.len() {
            old_entry.next_mask | (1u8 << (hash_byte(input[p + 3]) % 8))
        } else {
            proof {
                lemma_or_zero(old_entry.next_mask);
            }
            old_entry.next_mask
        };
        let ghost before = out@;
        out.set(idx, TrigramWithMasks { trigram: tri, next_mask: next, loc_mask: loc });
        assert forall|i: int| 0 <= i < out@.len() && i != idx implies {
            &&& (#[trigger] out@[i]).loc_mask == loc_mask_upto(input@, out@[i].trigram@, (p + 1) as nat)
            &&& out@[i].next_mask == next_mask_upto(input@, out@[i].trigram@, (p + 1) as nat)
        } by {
            assert(out@[i] == before[i]);
            if out@[i].trigram@ == window(input@, p as int) {
                assert(index@.contains_key(key_of(before[i].trigram@) as u32));
                assert(index@.contains_key(key_of(before[idx as int].trigram@) as u32));
                lemma_key_injective(out@[i].trigram@, tri@);
            }
            lemma_or_zero(before[i].loc_mask);
            lemma_or_zero(before[i].next_mask);
        }
        assert forall|j: int| 0 <= j < out@.len() implies #[trigger] index@.contains_key(
            key_of(out@[j].trigram@) as u32,
        ) && index@[key_of(out@[j].trigram@) as u32] == j by {
            assert(out@[j].trigram@ == before[j].trigram@);
            assert(index@.contains_key(key_of(before[j].trigram@) as u32));
        }
        assert forall|k: u32| #[trigger] index@.contains_key(k) implies index@[k] < out@.len()
            && key_of(out@[index@[k] as int].trigram@) == k by {
            assert(out@[index@[k] as int].trigram@ == before[index@[k] as int].trigram@);
        }
        assert forall|q: int| 0 <= q < p + 1 implies #[trigger] covered(out@, input@, q) by {
            if q < p {
                assert(covered(before_all, input@, q));
                let i = choose|i: int|
                    0 <= i < before_all.len() && (#[trigger] before_all[i]).trigram@ == window(input@, q);
                assert(before[i] == before_all[i]);
                assert(out@[i].trigram@ == before[i].trigram@);
            } else {
                assert(out@[idx as int].trigram@ == window(input@, q));
            }
        }
        assert(forall|q: int| 0 <= q < p + 1 ==> #[trigger] covered(out@, input@, q));
        p = p + 1;
    }
    assert forall|i: int, j: int|
        0 <= i < j < out@.len() implies (#[trigger] out@[i]).trigram@ != (#[trigger] out@[j]).trigram@ by {
        assert(index@.contains_key(key_of(out@[i].trigram@) as u32));
        assert(index@.contains_key(key_of(out@[j].trigram@) as u32));
    }
    assert(p == n);
    assert forall|q: int| 0 <= q < window_count(input@) implies has_entry(out@, #[trigger] window(input@, q)) by {
        assert(covered(out@, input@, q));
    }
    out
}

/// A trigram that does not occur in the first `n` positions has empty masks
/// over them.
proof fn lemma_masks_absent(input: Seq<u8>, tri: Seq<u8>, n: nat)
    requires
        forall|q: int| 0 <= q < n ==> window(input, q) != tri,
    ensures
        loc_mask_upto(input, tri, n) == 0,
        next_mask_upto(input, tri, n) == 0,
    decreases n,
{
    if n > 0 {
        lemma_masks_absent(input, tri, (n - 1) as nat);
        lemma_or_zero(0);
    }
}

/// Positions `p` and `p + 1` (modulo 8) are set in `a` and `b`.
pub open spec fn adjacent_at(a: u8, b: u8, p: nat) -> bool {
    has_bit(a, p) && has_bit(b, (p + 1) % 8)
}

/// Whether two trigrams could be adjacent, judged by their position masks:
/// true exactly when some position `p` (modulo 8) is set in `mask_a` and the
/// next position `p + 1` (modulo 8, so 7 wraps to 0) is set in `mask_b`.
pub fn check_adjacency(mask_a: u8, mask_b: u8) -> (r: bool)
    ensures
        r == exists|p: nat| p < 8 && #[trigger] adjacent_at(mask_a, mask_b, p),
{
    let shifted = (mask_a << 1u8) | (mask_a >> 7u8);
    let r = (shifted & mask_b) != 0;
    assert(r == (((mask_a & 1u8 != 0) && (mask_b & 2u8 != 0)) || ((mask_a & 2u8 != 0) && (mask_b
        & 4u8 != 0)) || ((mask_a & 4u8 != 0) && (mask_b & 8u8 != 0)) || ((mask_a & 8u8 != 0) && (
    mask_b & 16u8 != 0)) || ((mask_a & 16u8 != 0) && (mask_b & 32u8 != 0)) || ((mask_a & 32u8
        != 0) && (mask_b & 64u8 != 0)) || ((mask_a & 64u8 != 0) && (mask_b & 128u8 != 0)) || ((
    mask_a & 128u8 != 0) && (mask_b & 1u8 != 0)))) by (bit_vector)
        requires
            r == ((((mask_a << 1u8) | (mask_a >> 7u8)) & mask_b) != 0),
    ;
    proof {
        reveal_bits();
        if r {
            if adjacent_at(mask_a, mask_b, 0) {
            } else if adjacent_at(mask_a, mask_b, 1) {
            } else if adjacent_at(mask_a, mask_b, 2) {
            } else if adjacent_at(mask_a, mask_b, 3) {
            } else if adjacent_at(mask_a, mask_b, 4) {
            } else if adjacent_at(mask_a, mask_b, 5) {
            } else if adjacent_at(mask_a, mask_b, 6) {
            } else {
                assert(adjacent_at(mask_a, mask_b, 7));
            }
        } else {
            assert forall|p: nat| p < 8 implies !#[trigger] adjacent_at(mask_a, mask_b, p) by {
                if p == 0 {
                } else if p == 1 {
                } else if p == 2 {
                } else if p == 3 {
                } else if p == 4 {
                } else if p == 5 {
                } else if p == 6 {
                } else {
                }
            }
        }
    }
    r
}

/// The values of `bit(k)` for `k < 8`.
proof fn reveal_bits()
    ensures
        bit(0) == 1u8,
        bit(1) == 2u8,
        bit(2) == 4u8,
        bit(3) == 8u8,
        bit(4) == 16u8,
        bit(5) == 32u8,
        bit(6) == 64u8,
        bit(7) == 128u8,
{
    assert(1u8 << 0u8 == 1u8) by (bit_vector);
    assert(1u8 << 1u8 == 2u8) by (bit_vector);
    assert(1u8 << 2u8 == 4u8) by (bit_vector);
    assert(1u8 << 3u8 == 8u8) by (bit_vector);
    assert(1u8 << 4u8 == 16u8) by (bit_vector);
    assert(1u8 << 5u8 == 32u8) by (bit_vector);
    assert(1u8 << 6u8 == 64u8) by (bit_vector);
    assert(1u8 << 7u8 == 128u8) by (bit_vector);
}

/// Whether `next_mask` admits `expected_char` as the byte after a trigram:
/// true exactly when bit `byte_hash(expected_char) % 8` is set.
pub fn check_next_char(next_mask: u8, expected_char: u8) -> (r: bool)
    ensures
        r == has_bit(next_mask, (byte_hash(expected_char) % 8) as nat),
{
    let b = hash_byte(expected_char) % 8;
    (next_mask & (1u8 << b)) != 0
}

} // verus!
