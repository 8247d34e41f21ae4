//! Tests of the text utils functions.
#![allow(unused_imports, dead_code)]
use iscc_lib::cdc::{alg_cdc_offset, alg_cdc_params, CDC_GEAR};
use iscc_lib::bits::{extract_bits, get_bit};
use iscc_lib::codec::{decode_varnibble_from_bytes, encode_varnibble};
use iscc_lib::generate::array_split;
use iscc_lib::digest::multi_hash_blake3;
use iscc_lib::meta::interleave_digests;
use iscc_lib::cdc::DATA_AVG_CHUNK_SIZE;
use iscc_lib::minhash::{minhash, minhash_compress, MAXH, MPRIME};
use iscc_lib::simhash::alg_simhash_inner;
use iscc_lib::{
    alg_cdc_chunks, alg_minhash_256, alg_simhash, alg_wtahash, decode_base32, decode_header,
    decode_length, decode_units, encode_base32, encode_base64, encode_component, encode_header,
    encode_length, encode_units, gen_audio_code_v0, gen_data_code_v0, gen_instance_code_v0,
    gen_iscc_code_v0, gen_meta_code_v0, gen_mixed_code_v0, gen_text_code_v0, gen_video_code_v0,
    iscc_decompose, sliding_window, sliding_window_bytes, soft_hash_video_v0, text_clean,
    text_collapse, text_remove_newlines, text_trim, DataHasher, InstanceHasher, IsccError,
    MainType, SubType, Version,
};

fn sw(s: &str, w: usize) -> Vec<String> {
    sliding_window(s, w).unwrap()
}

fn swb(d: &[u8], w: usize) -> Vec<Vec<u8>> {
    sliding_window_bytes(d, w).unwrap()
}

fn cdc_ok(d: &[u8], utf32: bool, avg: u32) -> Vec<&[u8]> {
    alg_cdc_chunks(d, utf32, avg).unwrap()
}

fn simhash_of<T: AsRef<[u8]>>(ds: &[T]) -> Result<Vec<u8>, IsccError> {
    let v: Vec<Vec<u8>> = ds.iter().map(|d| d.as_ref().to_vec()).collect();
    alg_simhash(&v)
}

fn bits_bytes(b: &[bool]) -> Vec<u8> {
    iscc_lib::bits::bits_to_bytes(&b.to_vec())
}

#[test]
fn utils_test_text_clean_nfkc_normalization() {
    // ℍ (U+210D) should normalize to H under NFKC
    assert!(text_clean("ℍ").contains('H'));
}

#[test]
fn test_text_clean_removes_control_chars() {
    assert_eq!(text_clean("hello\tworld"), "helloworld");
}

#[test]
fn test_text_clean_preserves_newlines() {
    assert_eq!(text_clean("hello\nworld"), "hello\nworld");
}

#[test]
fn test_text_clean_collapses_empty_lines() {
    assert_eq!(text_clean("a\n\n\nb"), "a\n\nb");
}

#[test]
fn utils_test_text_clean_strips_whitespace() {
    assert_eq!(text_clean("  hello  "), "hello");
}

#[test]
fn test_text_clean_handles_crlf() {
    assert_eq!(text_clean("a\r\nb"), "a\nb");
}

#[test]
fn test_text_clean_empty() {
    assert_eq!(text_clean(""), "");
}

#[test]
fn test_text_remove_newlines() {
    assert_eq!(text_remove_newlines("hello\nworld"), "hello world");
}

#[test]
fn utils_test_text_remove_newlines_collapses_spaces() {
    assert_eq!(text_remove_newlines("a  b   c"), "a b c");
}

#[test]
fn test_text_trim_no_truncation() {
    assert_eq!(text_trim("hello", 10), "hello");
}

#[test]
fn test_text_trim_exact() {
    assert_eq!(text_trim("hello", 5), "hello");
}

#[test]
fn test_text_trim_truncates() {
    assert_eq!(text_trim("hello world", 5), "hello");
}

#[test]
fn test_text_trim_unicode_boundary() {
    // "é" is 2 bytes in UTF-8 (C3 A9). Truncating at 1 byte should drop it.
    assert_eq!(text_trim("é", 1), "");
}

#[test]
fn test_text_trim_strips() {
    assert_eq!(text_trim("hello ", 6), "hello");
}

#[test]
fn utils_test_text_collapse_basic() {
    assert_eq!(text_collapse("Hello World"), "helloworld");
}

#[test]
fn test_text_collapse_strips_accents() {
    // NFD decomposes accented chars, then M-category marks are filtered
    assert_eq!(text_collapse("café"), "cafe");
}

#[test]
fn test_text_collapse_strips_punctuation() {
    assert_eq!(text_collapse("hello, world!"), "helloworld");
}

#[test]
fn test_text_collapse_empty() {
    assert_eq!(text_collapse(""), "");
}

#[test]
fn test_multi_hash_blake3_empty() {
    assert_eq!(
        multi_hash_blake3(b""),
        "1e20af1349b9f5f9a1a6a0404dea36dcc9499bcb25c9adc112b7cc9a93cae41f3262"
    );
}

#[test]
fn test_multi_hash_blake3_hello_world() {
    assert_eq!(
        multi_hash_blake3(b"hello world"),
        "1e20d74981efa70a0c880b8d8c1985d075dbcbf679b99a5f9914e5aaf96b831a9e24"
    );
}
