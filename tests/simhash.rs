//! Tests of the simhash functions.
#![allow(unused_imports, dead_code)]
use iscc_lib::cdc::{alg_cdc_offset, alg_cdc_params, CDC_GEAR};
use iscc_lib::bits::{extract_bits, get_bit};
use iscc_lib::codec::{decode_varnibble_from_bytes, encode_varnibble};
use iscc_lib::generate::array_split;
use iscc_lib::digest::multi_hash_blake3;
use iscc_lib::meta::interleave_digests;
use iscc_lib::cdc::DATA_AVG_CHUNK_SIZE;
use iscc_lib::minhash::{minhash, minhash_compress, MAXH, MPRIME};
use iscc_lib::simhash::alg_simhash_inner;
use iscc_lib::{
    alg_cdc_chunks, alg_minhash_256, alg_simhash, alg_wtahash, decode_base32, decode_header,
    decode_length, decode_units, encode_base32, encode_base64, encode_component, encode_header,
    encode_length, encode_units, gen_audio_code_v0, gen_data_code_v0, gen_instance_code_v0,
    gen_iscc_code_v0, gen_meta_code_v0, gen_mixed_code_v0, gen_text_code_v0, gen_video_code_v0,
    iscc_decompose, sliding_window, sliding_window_bytes, soft_hash_video_v0, text_clean,
    text_collapse, text_remove_newlines, text_trim, DataHasher, InstanceHasher, IsccError,
    MainType, SubType, Version,
};

fn sw(s: &str, w: usize) -> Vec<String> {
    sliding_window(s, w).unwrap()
}

fn swb(d: &[u8], w: usize) -> Vec<Vec<u8>> {
    sliding_window_bytes(d, w).unwrap()
}

fn cdc_ok(d: &[u8], utf32: bool, avg: u32) -> Vec<&[u8]> {
    alg_cdc_chunks(d, utf32, avg).unwrap()
}

fn simhash_of<T: AsRef<[u8]>>(ds: &[T]) -> Result<Vec<u8>, IsccError> {
    let v: Vec<Vec<u8>> = ds.iter().map(|d| d.as_ref().to_vec()).collect();
    alg_simhash(&v)
}

fn bits_bytes(b: &[bool]) -> Vec<u8> {
    iscc_lib::bits::bits_to_bytes(&b.to_vec())
}

#[test]
fn simhash_test_sliding_window_basic() {
    assert_eq!(
        sw("Hello", 4),
        vec!["Hell".to_string(), "ello".to_string()]
    );
}

#[test]
fn test_sliding_window_shorter_than_width() {
    assert_eq!(sw("ab", 3), vec!["ab".to_string()]);
}

#[test]
fn test_sliding_window_exact_width() {
    assert_eq!(sw("abc", 3), vec!["abc".to_string()]);
}

#[test]
fn test_sliding_window_empty() {
    assert_eq!(sw("", 3), vec!["".to_string()]);
}

#[test]
fn test_sliding_window_unicode() {
    assert_eq!(
        sw("äöü", 2),
        vec!["äö".to_string(), "öü".to_string()]
    );
}

#[test]
fn test_alg_simhash_single_digest() {
    let digest = blake3::hash(b"test");
    let result = simhash_of(&[digest.as_bytes().to_vec()]).unwrap();
    assert_eq!(result, digest.as_bytes().to_vec());
}

#[test]
fn simhash_test_alg_simhash_empty() {
    let empty: Vec<Vec<u8>> = vec![];
    let result = simhash_of(&empty).unwrap();
    assert_eq!(result, vec![0u8; 32]);
}

#[test]
fn simhash_test_alg_simhash_identical_digests() {
    let digest = vec![0xFFu8; 32];
    let result = simhash_of(&[digest.clone(), digest.clone(), digest]).unwrap();
    assert_eq!(result, vec![0xFFu8; 32]);
}

#[test]
fn test_alg_simhash_opposite_digests() {
    // Two digests: all-ones and all-zeros. Threshold is count/2 = 1.
    // Each bit has count 1 (from all-ones) or 0 (from all-zeros).
    // vector[i] * 2 >= 2 → vector[i] >= 1. Bits from all-ones survive.
    let ones = vec![0xFFu8; 32];
    let zeros = vec![0x00u8; 32];
    let result = simhash_of(&[ones, zeros]).unwrap();
    assert_eq!(result, vec![0xFFu8; 32]);
}

#[test]
fn test_alg_simhash_mismatched_lengths_returns_error() {
    // Mismatched digest lengths should return Err, not panic
    let result = simhash_of(&[vec![1u8, 2], vec![1u8, 2, 3]]);
    assert!(result.is_err());
    let msg = result.unwrap_err().to_string();
    assert!(
        msg.contains("equal length"),
        "error message should mention equal length, got: {msg}"
    );
}

#[test]
#[should_panic(expected = "width must be 2")]
fn simhash_test_sliding_window_width_too_small() {
    sw("test", 1);
}

#[test]
fn test_sliding_window_bytes_basic() {
    assert_eq!(
        swb(b"Hello", 4),
        vec![&b"Hell"[..], &b"ello"[..]]
    );
}

#[test]
fn test_sliding_window_bytes_shorter_than_width() {
    assert_eq!(swb(b"ab", 3), vec![&b"ab"[..]]);
}

#[test]
fn test_sliding_window_bytes_exact_width() {
    assert_eq!(swb(b"abc", 3), vec![&b"abc"[..]]);
}

#[test]
fn test_sliding_window_bytes_empty() {
    assert_eq!(swb(b"", 3), vec![&b""[..]]);
}

#[test]
fn test_sliding_window_bytes_width_4() {
    assert_eq!(
        swb(b"abcdef", 4),
        vec![&b"abcd"[..], &b"bcde"[..], &b"cdef"[..]]
    );
}

#[test]
#[should_panic(expected = "width must be 2")]
fn test_sliding_window_bytes_width_too_small() {
    swb(b"test", 1);
}
