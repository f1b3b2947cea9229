//! Byte-pair weights for the sparse n-gram algorithm.
//!
//! Each byte has a rarity score (0 to 255) reflecting how common it is in
//! typical source code; lower is more common. The weight of a byte pair
//! combines the two scores into a value in `0..=65535`. Common pairs such as
//! `e `, ` t` and `th` weigh little, rare pairs such as `qz`, `#!` or pairs of
//! control bytes weigh much; the n-gram builders cut at heavy pairs.
use vstd::prelude::*;

verus! {

/// Rarity score of a byte: lower means more common in source code.
///
/// Tiers: 0..=15 the most common bytes (space, e, t, a, ...), 16..=39 common
/// letters, digits and punctuation, 40..=62 less common printable bytes,
/// 63..=88 upper-case letters, 90..=105 rare printable bytes, 170..=190 a few
/// control bytes, and 200 for every other byte (control and high bytes).
pub open spec fn rarity(b: u8) -> u8 {
    match b {
        0x20 => 0,  // ' '
        0x65 => 1,  // 'e'
        0x74 => 2,  // 't'
        0x61 => 3,  // 'a'
        0x6F => 4,  // 'o'
        0x69 => 5,  // 'i'
        0x6E => 6,  // 'n'
        0x73 => 7,  // 's'
        0x72 => 8,  // 'r'
        0x6C => 9,  // 'l'
        0x0A => 10,  // '\n'
        0x63 => 11,  // 'c'
        0x64 => 12,  // 'd'
        0x75 => 13,  // 'u'
        0x70 => 14,  // 'p'
        0x6D => 15,  // 'm'
        0x66 => 16,  // 'f'
        0x68 => 17,  // 'h'
        0x67 => 18,  // 'g'
        0x62 => 19,  // 'b'
        0x79 => 20,  // 'y'
        0x76 => 21,  // 'v'
        0x77 => 22,  // 'w'
        0x6B => 23,  // 'k'
        0x5F => 24,  // '_'
        0x28 | 0x29 => 25,  // '(' ')'
        0x3D => 26,  // '='
        0x3B => 27,  // ';'
        0x7B | 0x7D => 28,  // '{' '}'
        0x2C => 29,  // ','
        0x2E => 30,  // '.'
        0x3A => 31,  // ':'
        0x22 => 32,  // '"'
        0x27 => 33,  // "'"
        0x2F => 34,  // '/'
        0x78 => 35,  // 'x'
        0x30 => 36,  // '0'
        0x31 => 37,  // '1'
        0x32 => 38,  // '2'
        0x09 => 39,  // '\t'
        0x6A => 40,  // 'j'
        0x71 => 41,  // 'q'
        0x7A => 42,  // 'z'
        0x33 => 43,  // '3'
        0x34 => 44,  // '4'
        0x35 => 45,  // '5'
        0x36 => 46,  // '6'
        0x37 => 47,  // '7'
        0x38 => 48,  // '8'
        0x39 => 49,  // '9'
        0x3C | 0x3E => 50,  // '<' '>'
        0x5B | 0x5D => 51,  // '[' ']'
        0x2D => 52,  // '-'
        0x2B => 53,  // '+'
        0x2A => 54,  // '*'
        0x26 | 0x3F => 55,  // '&' '?'
        0x7C => 56,  // '|'
        0x21 => 57,  // '!'
        0x23 => 58,  // '#'
        0x40 => 59,  // '@'
        0x25 => 60,  // '%'
        0x5C => 61,  // '\\'
        0x0D => 62,  // '\r'
        0x53 => 63,  // 'S'
        0x54 => 64,  // 'T'
        0x43 => 65,  // 'C'
        0x49 => 66,  // 'I'
        0x41 => 67,  // 'A'
        0x45 => 68,  // 'E'
        0x52 => 69,  // 'R'
        0x4E => 70,  // 'N'
        0x4F => 71,  // 'O'
        0x4C => 72,  // 'L'
        0x50 => 73,  // 'P'
        0x44 => 74,  // 'D'
        0x4D => 75,  // 'M'
        0x46 => 76,  // 'F'
        0x55 => 77,  // 'U'
        0x48 => 78,  // 'H'
        0x47 => 79,  // 'G'
        0x42 => 80,  // 'B'
        0x57 => 81,  // 'W'
        0x56 => 82,  // 'V'
        0x59 => 83,  // 'Y'
        0x4B => 84,  // 'K'
        0x58 => 85,  // 'X'
        0x4A => 86,  // 'J'
        0x51 => 87,  // 'Q'
        0x5A => 88,  // 'Z'
        0x24 => 90,  // '$'
        0x5E => 95,  // '^'
        0x7E => 100,  // '~'
        0x60 => 105,  // '`'
        0x1B => 170,  // 0x1B
        0x00 => 180,  // 0x00
        0x7F => 190,  // 0x7F
        _ => 200,
    }
}

/// The rarity score of `b`, as `rarity` defines it.
pub fn byte_rarity(b: u8) -> (r: u8)
    ensures
        r == rarity(b),
{
    match b {
        0x20 => 0,  // ' '
        0x65 => 1,  // 'e'
        0x74 => 2,  // 't'
        0x61 => 3,  // 'a'
        0x6F => 4,  // 'o'
        0x69 => 5,  // 'i'
        0x6E => 6,  // 'n'
        0x73 => 7,  // 's'
        0x72 => 8,  // 'r'
        0x6C => 9,  // 'l'
        0x0A => 10,  // '\n'
        0x63 => 11,  // 'c'
        0x64 => 12,  // 'd'
        0x75 => 13,  // 'u'
        0x70 => 14,  // 'p'
        0x6D => 15,  // 'm'
        0x66 => 16,  // 'f'
        0x68 => 17,  // 'h'
        0x67 => 18,  // 'g'
        0x62 => 19,  // 'b'
        0x79 => 20,  // 'y'
        0x76 => 21,  // 'v'
        0x77 => 22,  // 'w'
        0x6B => 23,  // 'k'
        0x5F => 24,  // '_'
        0x28 | 0x29 => 25,  // '(' ')'
        0x3D => 26,  // '='
        0x3B => 27,  // ';'
        0x7B | 0x7D => 28,  // '{' '}'
        0x2C => 29,  // ','
        0x2E => 30,  // '.'
        0x3A => 31,  // ':'
        0x22 => 32,  // '"'
        0x27 => 33,  // "'"
        0x2F => 34,  // '/'
        0x78 => 35,  // 'x'
        0x30 => 36,  // '0'
        0x31 => 37,  // '1'
        0x32 => 38,  // '2'
        0x09 => 39,  // '\t'
        0x6A => 40,  // 'j'
        0x71 => 41,  // 'q'
        0x7A => 42,  // 'z'
        0x33 => 43,  // '3'
        0x34 => 44,  // '4'
        0x35 => 45,  // '5'
        0x36 => 46,  // '6'
        0x37 => 47,  // '7'
        0x38 => 48,  // '8'
        0x39 => 49,  // '9'
        0x3C | 0x3E => 50,  // '<' '>'
        0x5B | 0x5D => 51,  // '[' ']'
        0x2D => 52,  // '-'
        0x2B => 53,  // '+'
        0x2A => 54,  // '*'
        0x26 | 0x3F => 55,  // '&' '?'
        0x7C => 56,  // '|'
        0x21 => 57,  // '!'
        0x23 => 58,  // '#'
        0x40 => 59,  // '@'
        0x25 => 60,  // '%'
        0x5C => 61,  // '\\'
        0x0D => 62,  // '\r'
        0x53 => 63,  // 'S'
        0x54 => 64,  // 'T'
        0x43 => 65,  // 'C'
        0x49 => 66,  // 'I'
        0x41 => 67,  // 'A'
        0x45 => 68,  // 'E'
        0x52 => 69,  // 'R'
        0x4E => 70,  // 'N'
        0x4F => 71,  // 'O'
        0x4C => 72,  // 'L'
        0x50 => 73,  // 'P'
        0x44 => 74,  // 'D'
        0x4D => 75,  // 'M'
        0x46 => 76,  // 'F'
        0x55 => 77,  // 'U'
        0x48 => 78,  // 'H'
        0x47 => 79,  // 'G'
        0x42 => 80,  // 'B'
        0x57 => 81,  // 'W'
        0x56 => 82,  // 'V'
        0x59 => 83,  // 'Y'
        0x4B => 84,  // 'K'
        0x58 => 85,  // 'X'
        0x4A => 86,  // 'J'
        0x51 => 87,  // 'Q'
        0x5A => 88,  // 'Z'
        0x24 => 90,  // '$'
        0x5E => 95,  // '^'
        0x7E => 100,  // '~'
        0x60 => 105,  // '`'
        0x1B => 170,  // 0x1B
        0x00 => 180,  // 0x00
        0x7F => 190,  // 0x7F
        _ => 200,
    }
}

/// The weight of the byte pair `(b1, b2)`: `rarity(b1) * 256 + rarity(b2)`.
///
/// The weight lies in `0..=65535`; lower values mean common source-code
/// pairs.
pub fn bigram_weight(b1: u8, b2: u8) -> (w: u32)
    ensures
        w == rarity(b1) * 256 + rarity(b2),
        w <= 65535,
{
    let r1 = byte_rarity(b1) as u32;
    let r2 = byte_rarity(b2) as u32;
    r1 * 256 + r2
}

} // verus!
