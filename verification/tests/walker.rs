use igrep_core::types::IndexConfig;
use igrep_core::walker::{keeps_file, looks_binary, BINARY_PROBE_LEN};

#[test]
fn nul_byte_marks_binary() {
    assert!(looks_binary(b"abc\x00def"));
    assert!(looks_binary(&[0u8]));
    assert!(!looks_binary(b"plain text\n"));
    assert!(!looks_binary(b""));
    assert!(!looks_binary("héllo \u{1F600}".as_bytes()));
    assert_eq!(BINARY_PROBE_LEN, 16384);
}

#[test]
fn walk_keeps_files_within_limits() {
    let config = IndexConfig::default();
    assert!(keeps_file(Some(10), false, &config));
    assert!(keeps_file(Some(52_428_800), false, &config));
    assert!(!keeps_file(Some(52_428_801), false, &config));
    assert!(keeps_file(None, false, &config));
    assert!(!keeps_file(Some(10), true, &config));

    let mut lenient = IndexConfig::default();
    lenient.skip_binary = false;
    assert!(keeps_file(Some(10), true, &lenient));
    assert!(!keeps_file(Some(52_428_801), true, &lenient));
}

// The fixture files these scenarios describe: `binary.bin` holds NUL bytes
// and is not valid UTF-8; `simple.rs` is plain source text; `empty.rs` has
// no bytes.
const BINARY_BIN: &[u8] = b"\x7fELF\x02\x01\x01\x00\x00\x00\xff\xfe\x00\x10";
const SIMPLE_RS: &[u8] = b"use std::io;\n\n// TODO: fix this\nfn main() {\n    println!(\"hello\");\n}\n";

#[test]
fn test_is_binary_detects_binary() {
    assert!(looks_binary(BINARY_BIN), "binary.bin should be detected as binary");
}

#[test]
fn test_is_binary_text_file() {
    assert!(!looks_binary(SIMPLE_RS), "simple.rs should not be binary");
}

#[test]
fn test_is_binary_empty_file() {
    assert!(!looks_binary(b""), "empty.rs should not be binary");
}

#[test]
fn test_walk_excludes_binary_file() {
    let config = IndexConfig::default();
    let size = Some(BINARY_BIN.len() as u64);
    assert!(!keeps_file(size, config.skip_binary && looks_binary(BINARY_BIN), &config));
    let text_size = Some(SIMPLE_RS.len() as u64);
    assert!(keeps_file(text_size, config.skip_binary && looks_binary(SIMPLE_RS), &config));
}

#[test]
fn test_walk_skip_binary_disabled() {
    let config = IndexConfig { skip_binary: false, ..IndexConfig::default() };
    let size = Some(BINARY_BIN.len() as u64);
    assert!(keeps_file(size, config.skip_binary && looks_binary(BINARY_BIN), &config));
}
