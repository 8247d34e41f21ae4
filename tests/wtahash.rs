//! Tests of the wtahash functions.
#![allow(unused_imports, dead_code)]
use iscc_lib::cdc::{alg_cdc_offset, alg_cdc_params, CDC_GEAR};
use iscc_lib::bits::{extract_bits, get_bit};
use iscc_lib::codec::{decode_varnibble_from_bytes, encode_varnibble};
use iscc_lib::generate::array_split;
use iscc_lib::digest::multi_hash_blake3;
use iscc_lib::meta::interleave_digests;
use iscc_lib::cdc::DATA_AVG_CHUNK_SIZE;
use iscc_lib::minhash::{minhash, minhash_compress, MAXH, MPRIME};
use iscc_lib::simhash::alg_simhash_inner;
use iscc_lib::{
    alg_cdc_chunks, alg_minhash_256, alg_simhash, alg_wtahash, decode_base32, decode_header,
    decode_length, decode_units, encode_base32, encode_base64, encode_component, encode_header,
    encode_length, encode_units, gen_audio_code_v0, gen_data_code_v0, gen_instance_code_v0,
    gen_iscc_code_v0, gen_meta_code_v0, gen_mixed_code_v0, gen_text_code_v0, gen_video_code_v0,
    iscc_decompose, sliding_window, sliding_window_bytes, soft_hash_video_v0, text_clean,
    text_collapse, text_remove_newlines, text_trim, DataHasher, InstanceHasher, IsccError,
    MainType, SubType, Version,
};

fn sw(s: &str, w: usize) -> Vec<String> {
    sliding_window(s, w).unwrap()
}

fn swb(d: &[u8], w: usize) -> Vec<Vec<u8>> {
    sliding_window_bytes(d, w).unwrap()
}

fn cdc_ok(d: &[u8], utf32: bool, avg: u32) -> Vec<&[u8]> {
    alg_cdc_chunks(d, utf32, avg).unwrap()
}

fn simhash_of<T: AsRef<[u8]>>(ds: &[T]) -> Result<Vec<u8>, IsccError> {
    let v: Vec<Vec<u8>> = ds.iter().map(|d| d.as_ref().to_vec()).collect();
    alg_simhash(&v)
}

fn bits_bytes(b: &[bool]) -> Vec<u8> {
    iscc_lib::bits::bits_to_bytes(&b.to_vec())
}

#[test]
fn test_alg_wtahash_all_zeros() {
    // All-zero input should produce all-zero output (all comparisons are >=)
    let vec = vec![0i64; 380];
    let result = alg_wtahash(&vec, 64);
    assert_eq!(result, vec![0u8; 8]);
}

#[test]
fn test_alg_wtahash_range() {
    // Range 0..380 should produce deterministic non-zero output
    let vec: Vec<i64> = (0..380).collect();
    let result = alg_wtahash(&vec, 64);
    assert_eq!(result.len(), 8);
    // Not all zeros since some pairs will have i < j
    assert!(result.iter().any(|&b| b != 0));
}

#[test]
fn test_alg_wtahash_256_bits() {
    // 256-bit output uses all 256 permutation pairs
    let vec: Vec<i64> = (0..380).collect();
    let result = alg_wtahash(&vec, 256);
    assert_eq!(result.len(), 32);
}

#[test]
fn test_permutation_table_length() {
    // The permutation table has exactly 256 entries
    assert_eq!(iscc_lib::wtahash::WTA_FIRST.len(), 256);
    assert_eq!(iscc_lib::wtahash::WTA_SECOND.len(), 256);
}

#[test]
fn test_permutation_indices_in_range() {
    // All permutation indices must be < 380 (frame signature length)
    for (&i, &j) in iscc_lib::wtahash::WTA_FIRST.iter().zip(iscc_lib::wtahash::WTA_SECOND.iter()) {
        assert!(i < 380, "index i={i} out of range");
        assert!(j < 380, "index j={j} out of range");
    }
}
