//! Which files of a directory walk are indexed.
//!
//! The walk itself (directories, ignore rules, hidden files) reads the disk
//! and stands outside the library; these are the rules it applies to each
//! file it meets.
use vstd::prelude::*;
use crate::types::IndexConfig;

verus! {

/// The number of leading bytes of a file read to tell whether it is
/// binary.
pub const BINARY_PROBE_LEN: usize = 16384;

/// Whether a file whose first bytes are `head` is binary: they hold a NUL
/// byte.
pub fn looks_binary(head: &[u8]) -> (r: bool)
    ensures
        r == head@.contains(0u8),
{
    for i in 0..head.len()
        invariant
            forall|k: int| 0 <= k < i ==> head@[k] != 0u8,
    {
        if head[i] == 0 {
            assert(head@[i as int] == 0u8);
            return true;
        }
    }
    false
}

/// Whether the walk indexes a file of `size` bytes (`None` when its size
/// could not be read) that is `binary` or not: its size, when known, is at
/// most `config.max_file_size`, and it is not binary unless
/// `config.skip_binary` is off. (Whether a file is binary need only be found
/// out when `config.skip_binary` is on.)
pub fn keeps_file(size: Option<u64>, binary: bool, config: &IndexConfig) -> (r: bool)
    ensures
        r == ((size is None || size->Some_0 <= config.max_file_size) && !(config.skip_binary && binary)),
{
    let size_ok = match size {
        Some(n) => n <= config.max_file_size,
        None => true,
    };
    size_ok && !(config.skip_binary && binary)
}

} // verus!
