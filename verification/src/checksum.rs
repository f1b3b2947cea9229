//! The CRC-32 checksum that names n-grams and bytes in the index.
use vstd::prelude::*;

verus! {

/// One step of the reflected CRC-32 (IEEE) register: shift right by one
/// bit, folding in the polynomial `0xEDB88320` when a one falls out.
pub open spec fn crc32_shift(c: u32) -> u32 {
    if c & 1 == 1 {
        (c >> 1) ^ 0xEDB8_8320u32
    } else {
        c >> 1
    }
}

/// `n` steps of the register from `c`.
pub open spec fn crc32_shifts(c: u32, n: nat) -> u32
    decreases n,
{
    if n == 0 {
        c
    } else {
        crc32_shifts(crc32_shift(c), (n - 1) as nat)
    }
}

/// The register after `data`: it starts with every bit set, and each byte
/// is xored into it and shifted through eight steps.
pub open spec fn crc32_register(data: Seq<u8>) -> u32
    decreases data.len(),
{
    if data.len() == 0 {
        0xFFFF_FFFFu32
    } else {
        crc32_shifts(crc32_register(data.drop_last()) ^ (data.last() as u32), 8)
    }
}

/// The CRC-32 (IEEE) checksum of `data`: the final register with every
/// bit flipped.
pub open spec fn crc32_checksum(data: Seq<u8>) -> u32 {
    crc32_register(data) ^ 0xFFFF_FFFFu32
}

/// Calls `crc32fast::hash`, the CRC-32 (IEEE) checksum of `data`. Trusted:
/// its result is `crc32_checksum(data@)` (the crate computes the same
/// register with tables, one or several bytes at a time).
#[verifier::external_body]
pub(crate) fn crc32(data: &[u8]) -> (h: u32)
    ensures
        h == crc32_checksum(data@),
{
    crc32fast::hash(data)
}

} // verus!
