//! Indexed regular-expression search: sparse n-gram extraction, posting-list
//! encoding, index construction and reading, query planning from regular
//! expressions (with a proof that planning misses no file that may match),
//! line matching, and working-tree overlays.
pub mod types;
mod sorting;
pub mod frequency_table;
pub mod posting;
pub mod checksum;
pub mod trigram;
pub mod ngram;
pub mod query;
pub mod recall;
pub mod index;
pub mod git_overlay;
pub mod search;
pub mod result_order;
pub mod walker;
