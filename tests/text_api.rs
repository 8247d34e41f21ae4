//! Tests of the text api functions.
#![allow(unused_imports, dead_code)]
use iscc_lib::cdc::{alg_cdc_offset, alg_cdc_params, CDC_GEAR};
use iscc_lib::bits::{extract_bits, get_bit};
use iscc_lib::codec::{decode_varnibble_from_bytes, encode_varnibble};
use iscc_lib::generate::array_split;
use iscc_lib::digest::multi_hash_blake3;
use iscc_lib::meta::interleave_digests;
use iscc_lib::cdc::DATA_AVG_CHUNK_SIZE;
use iscc_lib::minhash::{minhash, minhash_compress, MAXH, MPRIME};
use iscc_lib::simhash::alg_simhash_inner;
use iscc_lib::{
    alg_cdc_chunks, alg_minhash_256, alg_simhash, alg_wtahash, decode_base32, decode_header,
    decode_length, decode_units, encode_base32, encode_base64, encode_component, encode_header,
    encode_length, encode_units, gen_audio_code_v0, gen_data_code_v0, gen_instance_code_v0,
    gen_iscc_code_v0, gen_meta_code_v0, gen_mixed_code_v0, gen_text_code_v0, gen_video_code_v0,
    iscc_decompose, sliding_window, sliding_window_bytes, soft_hash_video_v0, text_clean,
    text_collapse, text_remove_newlines, text_trim, DataHasher, InstanceHasher, IsccError,
    MainType, SubType, Version,
};

fn sw(s: &str, w: usize) -> Vec<String> {
    sliding_window(s, w).unwrap()
}

fn swb(d: &[u8], w: usize) -> Vec<Vec<u8>> {
    sliding_window_bytes(d, w).unwrap()
}

fn cdc_ok(d: &[u8], utf32: bool, avg: u32) -> Vec<&[u8]> {
    alg_cdc_chunks(d, utf32, avg).unwrap()
}

fn simhash_of<T: AsRef<[u8]>>(ds: &[T]) -> Result<Vec<u8>, IsccError> {
    let v: Vec<Vec<u8>> = ds.iter().map(|d| d.as_ref().to_vec()).collect();
    alg_simhash(&v)
}

fn bits_bytes(b: &[bool]) -> Vec<u8> {
    iscc_lib::bits::bits_to_bytes(&b.to_vec())
}

#[test]
fn test_text_utils_test_text_clean_nfkc_normalization() {
    // Fullwidth "Ａ" (U+FF21) normalizes to ASCII "A" under NFKC
    assert_eq!(text_clean("Ａ"), "A");
}

#[test]
fn test_text_clean_removes_control_chars_keeps_newlines() {
    // Tab (U+0009) is a control char and should be removed
    assert_eq!(text_clean("hello\tworld"), "helloworld");
    // Newline should be preserved
    assert_eq!(text_clean("hello\nworld"), "hello\nworld");
}

#[test]
fn test_text_clean_collapses_consecutive_empty_lines() {
    // Three consecutive newlines → at most one empty line between content
    assert_eq!(text_clean("a\n\n\nb"), "a\n\nb");
    // Four consecutive newlines → still one empty line
    assert_eq!(text_clean("a\n\n\n\nb"), "a\n\nb");
}

#[test]
fn test_text_clean_crlf_normalization() {
    assert_eq!(text_clean("a\r\nb"), "a\nb");
}

#[test]
fn test_text_utils_test_text_clean_strips_whitespace() {
    assert_eq!(text_clean("  hello  "), "hello");
}

#[test]
fn test_text_clean_empty_input() {
    assert_eq!(text_clean(""), "");
}

#[test]
fn test_text_remove_newlines_multiline() {
    assert_eq!(
        text_remove_newlines("line one\nline two\nline three"),
        "line one line two line three"
    );
}

#[test]
fn test_text_utils_test_text_remove_newlines_collapses_spaces() {
    assert_eq!(text_remove_newlines("a   b    c"), "a b c");
}

#[test]
fn test_text_remove_newlines_strips_edges() {
    assert_eq!(text_remove_newlines("  hello  "), "hello");
}

#[test]
fn test_text_remove_newlines_empty_input() {
    assert_eq!(text_remove_newlines(""), "");
}

#[test]
fn test_text_trim_shorter_than_limit() {
    assert_eq!(text_trim("hello", 100), "hello");
}

#[test]
fn test_text_trim_exact_length() {
    assert_eq!(text_trim("hello", 5), "hello");
}

#[test]
fn test_text_utils_test_text_trim_truncation() {
    assert_eq!(text_trim("hello world", 5), "hello");
}

#[test]
fn test_text_trim_utf8_boundary() {
    // "é" is 2 bytes in UTF-8 (C3 A9); truncating at 1 byte drops it
    assert_eq!(text_trim("é", 1), "");
    // "café" — 'c','a','f' are 1 byte each, 'é' is 2 bytes = 5 bytes total
    // Trimming to 4 bytes drops the incomplete 'é'
    assert_eq!(text_trim("café", 4), "caf");
}

#[test]
fn test_text_trim_strips_whitespace() {
    assert_eq!(text_trim("hello ", 6), "hello");
}

#[test]
fn test_text_collapse_lowercasing() {
    assert_eq!(text_collapse("HELLO"), "hello");
}

#[test]
fn test_text_collapse_whitespace_removal() {
    assert_eq!(text_collapse("a b c"), "abc");
}

#[test]
fn test_text_collapse_punctuation_removal() {
    assert_eq!(text_collapse("hello, world!"), "helloworld");
}

#[test]
fn test_text_collapse_diacritics_removal() {
    // NFD decomposes accented chars, then M-category marks are filtered
    assert_eq!(text_collapse("café"), "cafe");
    assert_eq!(text_collapse("naïve"), "naive");
}

#[test]
fn test_text_collapse_empty_input() {
    assert_eq!(text_collapse(""), "");
}

#[test]
fn test_crate_root_imports() {
    // Verify all 4 functions are callable via iscc_lib::<fn>
    let _ = iscc_lib::text_clean("test");
    let _ = iscc_lib::text_remove_newlines("test");
    let _ = iscc_lib::text_trim("test", 10);
    let _ = iscc_lib::text_collapse("test");
}

#[test]
fn test_module_path_imports() {
    // Verify functions are also accessible via iscc_lib::utils::<fn>
    let _ = iscc_lib::utils::text_clean("test");
    let _ = iscc_lib::utils::text_remove_newlines("test");
    let _ = iscc_lib::utils::text_trim("test", 10);
    let _ = iscc_lib::utils::text_collapse("test");
}
