//! The on-disk index: building it and reading it back.
pub mod writer;
pub mod reader;
