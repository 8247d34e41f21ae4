//! Tests of the codec functions.
#![allow(unused_imports, dead_code)]
use iscc_lib::cdc::{alg_cdc_offset, alg_cdc_params, CDC_GEAR};
use iscc_lib::bits::{extract_bits, get_bit};
use iscc_lib::codec::{decode_varnibble_from_bytes, encode_varnibble};
use iscc_lib::generate::array_split;
use iscc_lib::digest::multi_hash_blake3;
use iscc_lib::meta::interleave_digests;
use iscc_lib::cdc::DATA_AVG_CHUNK_SIZE;
use iscc_lib::minhash::{minhash, minhash_compress, MAXH, MPRIME};
use iscc_lib::simhash::alg_simhash_inner;
use iscc_lib::{
    alg_cdc_chunks, alg_minhash_256, alg_simhash, alg_wtahash, decode_base32, decode_header,
    decode_length, decode_units, encode_base32, encode_base64, encode_component, encode_header,
    encode_length, encode_units, gen_audio_code_v0, gen_data_code_v0, gen_instance_code_v0,
    gen_iscc_code_v0, gen_meta_code_v0, gen_mixed_code_v0, gen_text_code_v0, gen_video_code_v0,
    iscc_decompose, sliding_window, sliding_window_bytes, soft_hash_video_v0, text_clean,
    text_collapse, text_remove_newlines, text_trim, DataHasher, InstanceHasher, IsccError,
    MainType, SubType, Version,
};

fn sw(s: &str, w: usize) -> Vec<String> {
    sliding_window(s, w).unwrap()
}

fn swb(d: &[u8], w: usize) -> Vec<Vec<u8>> {
    sliding_window_bytes(d, w).unwrap()
}

fn cdc_ok(d: &[u8], utf32: bool, avg: u32) -> Vec<&[u8]> {
    alg_cdc_chunks(d, utf32, avg).unwrap()
}

fn simhash_of<T: AsRef<[u8]>>(ds: &[T]) -> Result<Vec<u8>, IsccError> {
    let v: Vec<Vec<u8>> = ds.iter().map(|d| d.as_ref().to_vec()).collect();
    alg_simhash(&v)
}

fn bits_bytes(b: &[bool]) -> Vec<u8> {
    iscc_lib::bits::bits_to_bytes(&b.to_vec())
}

#[test]
fn test_varnibble_roundtrip() {
    let test_values = [0, 1, 7, 8, 71, 72, 583, 584, 4679];
    for &value in &test_values {
        let bits = encode_varnibble(value).unwrap();
        let bytes = bits_bytes(&bits);
        let (decoded, consumed) = decode_varnibble_from_bytes(&bytes, 0).unwrap();
        assert_eq!(decoded, value, "roundtrip failed for value {value}");
        assert_eq!(consumed, bits.len(), "consumed mismatch for value {value}");
    }
}

#[test]
fn test_varnibble_bit_lengths() {
    // 0-7: 4 bits (1 nibble)
    assert_eq!(encode_varnibble(0).unwrap().len(), 4);
    assert_eq!(encode_varnibble(7).unwrap().len(), 4);
    // 8-71: 8 bits (2 nibbles)
    assert_eq!(encode_varnibble(8).unwrap().len(), 8);
    assert_eq!(encode_varnibble(71).unwrap().len(), 8);
    // 72-583: 12 bits (3 nibbles)
    assert_eq!(encode_varnibble(72).unwrap().len(), 12);
    assert_eq!(encode_varnibble(583).unwrap().len(), 12);
    // 584-4679: 16 bits (4 nibbles)
    assert_eq!(encode_varnibble(584).unwrap().len(), 16);
    assert_eq!(encode_varnibble(4679).unwrap().len(), 16);
}

#[test]
fn test_varnibble_out_of_range() {
    assert!(encode_varnibble(4680).is_err());
}

#[test]
fn test_varnibble_boundary_values() {
    // Verify exact bit patterns at boundaries
    let bits_0 = encode_varnibble(0).unwrap();
    assert_eq!(bits_0, vec![false, false, false, false]); // 0000

    let bits_7 = encode_varnibble(7).unwrap();
    assert_eq!(bits_7, vec![false, true, true, true]); // 0111

    let bits_8 = encode_varnibble(8).unwrap();
    assert_eq!(
        bits_8,
        vec![true, false, false, false, false, false, false, false]
    ); // 10 000000
}

#[test]
fn test_extract_bits_basic() {
    // 0xA5 = 1010_0101 in binary
    let data = [0xA5u8];
    assert_eq!(extract_bits(&data, 0, 4), 0b1010); // first nibble
    assert_eq!(extract_bits(&data, 4, 4), 0b0101); // second nibble
    assert_eq!(extract_bits(&data, 0, 8), 0xA5); // full byte
    assert_eq!(extract_bits(&data, 1, 3), 0b010); // bits 1-3
    assert_eq!(extract_bits(&data, 0, 1), 1); // MSB
    assert_eq!(extract_bits(&data, 7, 1), 1); // LSB

    // Multi-byte: 0xFF 0x00 = 1111_1111 0000_0000
    let data2 = [0xFF, 0x00];
    assert_eq!(extract_bits(&data2, 0, 8), 0xFF);
    assert_eq!(extract_bits(&data2, 8, 8), 0x00);
    assert_eq!(extract_bits(&data2, 4, 8), 0xF0); // crossing byte boundary
    assert_eq!(extract_bits(&data2, 6, 4), 0b1100); // crossing byte boundary
}

#[test]
fn test_decode_varnibble_from_bytes_boundary_values() {
    // Test decoding at non-zero bit offsets within a byte slice.
    // Encode two varnibbles into a single byte sequence and decode both.

    // varnibble(3) = 0011 (4 bits) + varnibble(8) = 10_000000 (8 bits) = 12 bits
    let bits_3 = encode_varnibble(3).unwrap();
    let bits_8 = encode_varnibble(8).unwrap();
    let mut combined_bits = bits_3.clone();
    combined_bits.extend(&bits_8);
    let bytes = bits_bytes(&combined_bits);

    // Decode first varnibble at bit 0
    let (val1, consumed1) = decode_varnibble_from_bytes(&bytes, 0).unwrap();
    assert_eq!(val1, 3);
    assert_eq!(consumed1, 4);

    // Decode second varnibble at bit 4 (non-zero offset)
    let (val2, consumed2) = decode_varnibble_from_bytes(&bytes, 4).unwrap();
    assert_eq!(val2, 8);
    assert_eq!(consumed2, 8);

    // Test with a 3-nibble value at offset
    // varnibble(0) = 0000 (4 bits) + varnibble(72) = 110_000000000 (12 bits)
    let bits_0 = encode_varnibble(0).unwrap();
    let bits_72 = encode_varnibble(72).unwrap();
    let mut combined2 = bits_0;
    combined2.extend(&bits_72);
    let bytes2 = bits_bytes(&combined2);

    let (val3, consumed3) = decode_varnibble_from_bytes(&bytes2, 4).unwrap();
    assert_eq!(val3, 72);
    assert_eq!(consumed3, 12);

    // Test insufficient bits at offset
    let single_byte = [0x00u8];
    let result = decode_varnibble_from_bytes(&single_byte, 6);
    assert!(result.is_err(), "should fail with only 2 bits available");
}

#[test]
fn test_encode_header_meta_v0() {
    // encode_header(META=0, NONE=0, V0=0, length=1) → 2 bytes
    let header = encode_header(MainType::Meta, SubType::Unspecified, Version::V0, 1).unwrap();
    assert_eq!(header, vec![0x00, 0x01]);
}

#[test]
fn test_encode_header_with_padding() {
    // encode_header(META=0, NONE=0, V0=0, length=8)
    // varnibble(0)=4b + varnibble(0)=4b + varnibble(0)=4b + varnibble(8)=8b = 20 bits
    // Padded to 24 bits = 3 bytes
    let header = encode_header(MainType::Meta, SubType::Unspecified, Version::V0, 8).unwrap();
    assert_eq!(header.len(), 3);
    // bits: 0000 0000 0000 10|000000 0000
    //       ^^^^ ^^^^ ^^^^ ^^^^^^^^ ^^^^(pad)
    assert_eq!(header, vec![0x00, 0x08, 0x00]);
}

#[test]
fn test_encode_header_data_type() {
    // DATA=3, NONE=0, V0=0, length=1
    let header = encode_header(MainType::Data, SubType::Unspecified, Version::V0, 1).unwrap();
    // varnibble(3)=0011, varnibble(0)=0000, varnibble(0)=0000, varnibble(1)=0001
    // bits: 0011 0000 0000 0001
    assert_eq!(header, vec![0x30, 0x01]);
}

#[test]
fn test_encode_header_instance_type() {
    // INSTANCE=4, NONE=0, V0=0, length=1
    let header = encode_header(MainType::Instance, SubType::Unspecified, Version::V0, 1).unwrap();
    // varnibble(4)=0100, varnibble(0)=0000, varnibble(0)=0000, varnibble(1)=0001
    // bits: 0100 0000 0000 0001
    assert_eq!(header, vec![0x40, 0x01]);
}

#[test]
fn test_decode_header_roundtrip_all_main_types() {
    let main_types = [
        MainType::Meta,
        MainType::Semantic,
        MainType::Content,
        MainType::Data,
        MainType::Instance,
        MainType::Iscc,
        MainType::Id,
        MainType::Flake,
    ];

    for &mtype in &main_types {
        let header = encode_header(mtype, SubType::Unspecified, Version::V0, 1).unwrap();
        let (dec_mtype, dec_stype, dec_version, dec_length, tail) =
            decode_header(&header).unwrap();
        assert_eq!(dec_mtype, mtype, "MainType mismatch for {mtype:?}");
        assert_eq!(dec_stype, SubType::Unspecified);
        assert_eq!(dec_version, Version::V0);
        assert_eq!(dec_length, 1);
        assert!(tail.is_empty(), "unexpected tail for {mtype:?}");
    }
}

#[test]
fn test_decode_header_with_tail() {
    // Simulate header + 8 bytes body
    let header = encode_header(MainType::Meta, SubType::Unspecified, Version::V0, 1).unwrap();
    let body = vec![0xAA, 0xBB, 0xCC, 0xDD, 0x11, 0x22, 0x33, 0x44];
    let mut data = header;
    data.extend_from_slice(&body);

    let (mtype, stype, version, length, tail) = decode_header(&data).unwrap();
    assert_eq!(mtype, MainType::Meta);
    assert_eq!(stype, SubType::Unspecified);
    assert_eq!(version, Version::V0);
    assert_eq!(length, 1);
    assert_eq!(tail, body);
}

#[test]
fn test_decode_header_with_padding_and_tail() {
    // Header with padding (3 bytes) + body
    let header = encode_header(MainType::Meta, SubType::Unspecified, Version::V0, 8).unwrap();
    assert_eq!(header.len(), 3); // 20 bits padded to 24

    let body = vec![0xFF, 0xEE];
    let mut data = header;
    data.extend_from_slice(&body);

    let (mtype, _stype, _version, length, tail) = decode_header(&data).unwrap();
    assert_eq!(mtype, MainType::Meta);
    assert_eq!(length, 8);
    assert_eq!(tail, body);
}

#[test]
fn test_decode_header_subtypes() {
    // Test with non-zero subtype
    let header = encode_header(MainType::Content, SubType::Image, Version::V0, 1).unwrap();
    let (mtype, stype, version, length, _tail) = decode_header(&header).unwrap();
    assert_eq!(mtype, MainType::Content);
    assert_eq!(stype, SubType::Image);
    assert_eq!(version, Version::V0);
    assert_eq!(length, 1);
}

#[test]
fn test_encode_length_standard_types() {
    // (bit_length / 32) - 1
    assert_eq!(encode_length(MainType::Meta, 32).unwrap(), 0);
    assert_eq!(encode_length(MainType::Meta, 64).unwrap(), 1);
    assert_eq!(encode_length(MainType::Meta, 96).unwrap(), 2);
    assert_eq!(encode_length(MainType::Meta, 128).unwrap(), 3);
    assert_eq!(encode_length(MainType::Meta, 256).unwrap(), 7);
    assert_eq!(encode_length(MainType::Data, 64).unwrap(), 1);
    assert_eq!(encode_length(MainType::Instance, 64).unwrap(), 1);
}

#[test]
fn test_encode_length_iscc() {
    // Pass-through for ISCC (0-7)
    for i in 0..=7 {
        assert_eq!(encode_length(MainType::Iscc, i).unwrap(), i);
    }
    assert!(encode_length(MainType::Iscc, 8).is_err());
}

#[test]
fn test_encode_length_id() {
    // (bit_length - 64) / 8
    assert_eq!(encode_length(MainType::Id, 64).unwrap(), 0);
    assert_eq!(encode_length(MainType::Id, 72).unwrap(), 1);
    assert_eq!(encode_length(MainType::Id, 80).unwrap(), 2);
    assert_eq!(encode_length(MainType::Id, 96).unwrap(), 4);
}

#[test]
fn test_encode_length_invalid() {
    // Not a multiple of 32
    assert!(encode_length(MainType::Meta, 48).is_err());
    // Too small
    assert!(encode_length(MainType::Meta, 0).is_err());
    // ID out of range
    assert!(encode_length(MainType::Id, 63).is_err());
    assert!(encode_length(MainType::Id, 97).is_err());
}

#[test]
fn test_decode_length_standard_types() {
    // (length + 1) * 32
    assert_eq!(decode_length(MainType::Meta, 0, SubType::Unspecified), 32);
    assert_eq!(decode_length(MainType::Meta, 1, SubType::Unspecified), 64);
    assert_eq!(decode_length(MainType::Meta, 7, SubType::Unspecified), 256);
    assert_eq!(decode_length(MainType::Data, 1, SubType::Unspecified), 64);
}

#[test]
fn test_decode_length_iscc() {
    // Wide → 256
    assert_eq!(decode_length(MainType::Iscc, 0, SubType::Wide), 256);
    // Non-wide → popcount(length) * 64 + 128
    assert_eq!(decode_length(MainType::Iscc, 0, SubType::Sum), 128); // 0 optional units
    assert_eq!(decode_length(MainType::Iscc, 1, SubType::Unspecified), 192); // 1 optional unit
    assert_eq!(decode_length(MainType::Iscc, 3, SubType::Unspecified), 256); // 2 optional units
    assert_eq!(decode_length(MainType::Iscc, 7, SubType::Unspecified), 320); // 3 optional units
}

#[test]
fn test_decode_length_id() {
    // length * 8 + 64
    assert_eq!(decode_length(MainType::Id, 0, SubType::Unspecified), 64);
    assert_eq!(decode_length(MainType::Id, 1, SubType::Unspecified), 72);
    assert_eq!(decode_length(MainType::Id, 4, SubType::Unspecified), 96);
}

#[test]
fn test_encode_decode_length_roundtrip() {
    for &mtype in &[
        MainType::Meta,
        MainType::Data,
        MainType::Instance,
        MainType::Content,
    ] {
        for bit_length in (32..=256).step_by(32) {
            let encoded = encode_length(mtype, bit_length).unwrap();
            let decoded = decode_length(mtype, encoded, SubType::Unspecified);
            assert_eq!(
                decoded, bit_length,
                "roundtrip failed for {mtype:?} bit_length={bit_length}"
            );
        }
    }
}

#[test]
fn test_base32_roundtrip() {
    let test_data: &[&[u8]] = &[
        &[0x00],
        &[0xFF],
        &[0x00, 0x01, 0x02, 0x03],
        &[0xDE, 0xAD, 0xBE, 0xEF, 0xCA, 0xFE],
        &[0; 10],
        &[0xFF; 10],
    ];

    for data in test_data {
        let encoded = encode_base32(data);
        let decoded = decode_base32(&encoded).unwrap();
        assert_eq!(&decoded, data, "base32 roundtrip failed for {data:?}");
    }
}

#[test]
fn test_base32_no_padding() {
    let encoded = encode_base32(&[0x00, 0x01]);
    assert!(!encoded.contains('='), "base32 should not contain padding");
}

#[test]
fn test_base32_case_insensitive_decode() {
    let data = vec![0xDE, 0xAD, 0xBE, 0xEF];
    let encoded = encode_base32(&data);
    let lower = encoded.to_lowercase();
    let decoded = decode_base32(&lower).unwrap();
    assert_eq!(decoded, data);
}

#[test]
fn test_encode_base64_empty() {
    assert_eq!(encode_base64(&[]), "");
}

#[test]
fn test_encode_base64_known_value() {
    assert_eq!(encode_base64(&[0, 1, 2, 3]), "AAECAw");
}

#[test]
fn test_encode_base64_roundtrip() {
    let data: &[&[u8]] = &[
        &[0xFF],
        &[0xDE, 0xAD, 0xBE, 0xEF],
        &[0; 10],
        &[0xFF; 10],
        b"Hello World",
    ];
    for input in data {
        let encoded = encode_base64(input);
        let decoded = data_encoding::BASE64URL_NOPAD
            .decode(encoded.as_bytes())
            .unwrap();
        assert_eq!(&decoded, input, "base64 roundtrip failed for {input:?}");
    }
}

#[test]
fn test_encode_base64_no_padding() {
    // Various lengths that would normally produce padding
    for len in 1..=10 {
        let data = vec![0xABu8; len];
        let encoded = encode_base64(&data);
        assert!(
            !encoded.contains('='),
            "base64 output must not contain padding for len={len}"
        );
    }
}

#[test]
fn test_encode_component_meta_known_vector() {
    // gen_meta_code_v0("Hello World") → "ISCC:AAAWKLHFPV6OPKDG"
    // Decode the known output to extract the digest, then re-encode
    let known_code = "AAAWKLHFPV6OPKDG";
    let raw = decode_base32(known_code).unwrap();
    assert_eq!(raw.len(), 10); // 2 header bytes + 8 digest bytes

    // Verify header decodes correctly
    let (mtype, stype, version, length, tail) = decode_header(&raw).unwrap();
    assert_eq!(mtype, MainType::Meta);
    assert_eq!(stype, SubType::Unspecified);
    assert_eq!(version, Version::V0);
    assert_eq!(length, 1); // encode_length(META, 64) = 1
    assert_eq!(tail.len(), 8); // 64-bit digest

    // Re-encode from extracted digest
    let result =
        encode_component(MainType::Meta, SubType::Unspecified, Version::V0, 64, &tail).unwrap();
    assert_eq!(result, known_code);
}

#[test]
fn test_encode_component_rejects_iscc_maintype() {
    assert!(
        encode_component(MainType::Iscc, SubType::Sum, Version::V0, 128, &[0; 16],).is_err()
    );
}

#[test]
fn test_encode_component_data_type() {
    // Encode a Data-Code component and verify roundtrip
    let digest = [0xAA; 32];
    let code =
        encode_component(MainType::Data, SubType::Unspecified, Version::V0, 64, &digest).unwrap();

    // Decode and verify
    let raw = decode_base32(&code).unwrap();
    let (mtype, stype, version, length, tail) = decode_header(&raw).unwrap();
    assert_eq!(mtype, MainType::Data);
    assert_eq!(stype, SubType::Unspecified);
    assert_eq!(version, Version::V0);
    assert_eq!(length, 1); // encode_length(DATA, 64) = 1
    assert_eq!(tail, &digest[..8]); // 64 bits = 8 bytes
}

#[test]
fn test_encode_component_content_image() {
    let digest = [0x55; 16];
    let code =
        encode_component(MainType::Content, SubType::Image, Version::V0, 128, &digest).unwrap();

    let raw = decode_base32(&code).unwrap();
    let (mtype, stype, _version, length, tail) = decode_header(&raw).unwrap();
    assert_eq!(mtype, MainType::Content);
    assert_eq!(stype, SubType::Image);
    assert_eq!(length, 3); // encode_length(CONTENT, 128) = 3
    assert_eq!(tail, &digest[..]); // 128 bits = 16 bytes
}

#[test]
fn test_subtype_text_alias() {
    assert_eq!(SubType::TEXT, SubType::Unspecified);
    assert_eq!(SubType::TEXT as u8, 0);
}

#[test]
fn test_encode_units_empty() {
    assert_eq!(encode_units(&[]).unwrap(), 0);
}

#[test]
fn test_encode_units_content_only() {
    assert_eq!(encode_units(&[MainType::Content]).unwrap(), 1);
}

#[test]
fn test_encode_units_semantic_only() {
    assert_eq!(encode_units(&[MainType::Semantic]).unwrap(), 2);
}

#[test]
fn test_encode_units_semantic_content() {
    assert_eq!(
        encode_units(&[MainType::Semantic, MainType::Content]).unwrap(),
        3
    );
}

#[test]
fn test_encode_units_meta_only() {
    assert_eq!(encode_units(&[MainType::Meta]).unwrap(), 4);
}

#[test]
fn test_encode_units_meta_content() {
    assert_eq!(
        encode_units(&[MainType::Meta, MainType::Content]).unwrap(),
        5
    );
}

#[test]
fn test_encode_units_meta_semantic() {
    assert_eq!(
        encode_units(&[MainType::Meta, MainType::Semantic]).unwrap(),
        6
    );
}

#[test]
fn test_encode_units_all_optional() {
    assert_eq!(
        encode_units(&[MainType::Meta, MainType::Semantic, MainType::Content]).unwrap(),
        7
    );
}

#[test]
fn test_encode_units_rejects_data() {
    assert!(encode_units(&[MainType::Data]).is_err());
}

#[test]
fn test_encode_units_rejects_instance() {
    assert!(encode_units(&[MainType::Instance]).is_err());
}

#[test]
fn test_encode_units_rejects_iscc() {
    assert!(encode_units(&[MainType::Iscc]).is_err());
}

#[test]
fn test_decode_units_empty() {
    assert_eq!(decode_units(0).unwrap(), vec![]);
}

#[test]
fn test_decode_units_content() {
    assert_eq!(decode_units(1).unwrap(), vec![MainType::Content]);
}

#[test]
fn test_decode_units_semantic() {
    assert_eq!(decode_units(2).unwrap(), vec![MainType::Semantic]);
}

#[test]
fn test_decode_units_semantic_content() {
    assert_eq!(
        decode_units(3).unwrap(),
        vec![MainType::Semantic, MainType::Content]
    );
}

#[test]
fn test_decode_units_meta() {
    assert_eq!(decode_units(4).unwrap(), vec![MainType::Meta]);
}

#[test]
fn test_decode_units_meta_content() {
    assert_eq!(
        decode_units(5).unwrap(),
        vec![MainType::Meta, MainType::Content]
    );
}

#[test]
fn test_decode_units_meta_semantic() {
    assert_eq!(
        decode_units(6).unwrap(),
        vec![MainType::Meta, MainType::Semantic]
    );
}

#[test]
fn test_decode_units_all() {
    assert_eq!(
        decode_units(7).unwrap(),
        vec![MainType::Meta, MainType::Semantic, MainType::Content]
    );
}

#[test]
fn test_decode_units_invalid() {
    assert!(decode_units(8).is_err());
    assert!(decode_units(255).is_err());
}

#[test]
fn test_decode_units_roundtrip_with_encode_units() {
    for unit_id in 0..=7u32 {
        let types = decode_units(unit_id).unwrap();
        let encoded = encode_units(&types).unwrap();
        assert_eq!(encoded, unit_id, "roundtrip failed for unit_id={unit_id}");
    }
}

#[test]
fn test_decompose_single_meta_unit() {
    // A single Meta-Code unit passes through unchanged
    let result = iscc_decompose("AAAYPXW445FTYNJ3").unwrap();
    assert_eq!(result, vec!["AAAYPXW445FTYNJ3"]);
}

#[test]
fn test_decompose_single_unit_with_prefix() {
    // Accepts "ISCC:" prefix and returns without prefix
    let result = iscc_decompose("ISCC:AAAYPXW445FTYNJ3").unwrap();
    assert_eq!(result, vec!["AAAYPXW445FTYNJ3"]);
}

#[test]
fn test_decompose_single_unit_maintype() {
    // Verify the decomposed unit decodes to the expected MainType
    let result = iscc_decompose("AAAYPXW445FTYNJ3").unwrap();
    assert_eq!(result.len(), 1);
    let raw = decode_base32(&result[0]).unwrap();
    let (mt, _, _, _, _) = decode_header(&raw).unwrap();
    assert_eq!(mt, MainType::Meta);
}

#[test]
fn test_decompose_standard_iscc_code() {
    // test_0000_standard: Meta + Content(Text) + Data + Instance → composite
    let codes = [
        "AAAYPXW445FTYNJ3",
        "EAARMJLTQCUWAND2",
        "GABVVC5DMJJGYKZ4ZBYVNYABFFYXG",
        "IADWIK7A7JTUAQ2D6QARX7OBEIK3OOUAM42LOBLCZ4ZOGDLRHMDL6TQ",
    ];
    let composite = iscc_lib::gen_iscc_code_v0(
        &codes.iter().map(|s| *s as &str).collect::<Vec<&str>>(),
        false,
    )
    .unwrap();

    let decomposed = iscc_decompose(&composite.iscc).unwrap();

    // Should produce 4 units: Meta, Content, Data, Instance
    assert_eq!(decomposed.len(), 4);

    // Verify MainTypes in order
    let main_types: Vec<MainType> = decomposed
        .iter()
        .map(|code| {
            let raw = decode_base32(code).unwrap();
            let (mt, _, _, _, _) = decode_header(&raw).unwrap();
            mt
        })
        .collect();
    assert_eq!(
        main_types,
        vec![
            MainType::Meta,
            MainType::Content,
            MainType::Data,
            MainType::Instance
        ]
    );

    // Data and Instance are always the last two
    let raw_data = decode_base32(&decomposed[2]).unwrap();
    let (mt_d, _, _, _, _) = decode_header(&raw_data).unwrap();
    assert_eq!(mt_d, MainType::Data);

    let raw_inst = decode_base32(&decomposed[3]).unwrap();
    let (mt_i, _, _, _, _) = decode_header(&raw_inst).unwrap();
    assert_eq!(mt_i, MainType::Instance);
}

#[test]
fn test_decompose_no_meta() {
    // test_0001_no_meta: Content(Text) + Data + Instance → composite (no Meta)
    let codes = [
        "EAARMJLTQCUWAND2",
        "GABVVC5DMJJGYKZ4ZBYVNYABFFYXG",
        "IADWIK7A7JTUAQ2D6QARX7OBEIK3OOUAM42LOBLCZ4ZOGDLRHMDL6TQ",
    ];
    let composite = iscc_lib::gen_iscc_code_v0(
        &codes.iter().map(|s| *s as &str).collect::<Vec<&str>>(),
        false,
    )
    .unwrap();

    let decomposed = iscc_decompose(&composite.iscc).unwrap();

    // Should produce 3 units: Content, Data, Instance (no Meta)
    assert_eq!(decomposed.len(), 3);

    let main_types: Vec<MainType> = decomposed
        .iter()
        .map(|code| {
            let raw = decode_base32(code).unwrap();
            let (mt, _, _, _, _) = decode_header(&raw).unwrap();
            mt
        })
        .collect();
    assert_eq!(
        main_types,
        vec![MainType::Content, MainType::Data, MainType::Instance]
    );
}

#[test]
fn test_decompose_sum_only() {
    // test_0002: Data + Instance only (Sum SubType)
    let codes = [
        "GABVVC5DMJJGYKZ4ZBYVNYABFFYXG",
        "IADWIK7A7JTUAQ2D6QARX7OBEIK3OOUAM42LOBLCZ4ZOGDLRHMDL6TQ",
    ];
    let composite = iscc_lib::gen_iscc_code_v0(
        &codes.iter().map(|s| *s as &str).collect::<Vec<&str>>(),
        false,
    )
    .unwrap();

    let decomposed = iscc_decompose(&composite.iscc).unwrap();

    // Should produce 2 units: Data, Instance
    assert_eq!(decomposed.len(), 2);

    let main_types: Vec<MainType> = decomposed
        .iter()
        .map(|code| {
            let raw = decode_base32(code).unwrap();
            let (mt, _, _, _, _) = decode_header(&raw).unwrap();
            mt
        })
        .collect();
    assert_eq!(main_types, vec![MainType::Data, MainType::Instance]);
}

fn make_truncated_iscc(
    mtype: MainType,
    stype: SubType,
    length_field: u32,
    body_len: usize,
) -> String {
    let header = encode_header(mtype, stype, Version::V0, length_field).unwrap();
    let mut raw = header;
    raw.extend(vec![0xABu8; body_len]);
    encode_base32(&raw)
}

#[test]
fn test_decompose_truncated_standard_unit() {
    // Meta-Code header for 64 bits (8 bytes expected), but only 4 body bytes provided.
    // encode_length(Meta, 64) = 64/32 - 1 = 1
    let length_field = encode_length(MainType::Meta, 64).unwrap();
    let iscc = make_truncated_iscc(MainType::Meta, SubType::Unspecified, length_field, 4);
    let result = iscc_decompose(&iscc);
    assert!(
        result.is_err(),
        "expected error for truncated standard unit"
    );
    let err = result.unwrap_err().to_string();
    assert!(
        err.contains("truncated ISCC body"),
        "error should mention truncation: {err:?}"
    );
}

#[test]
fn test_decompose_truncated_wide_mode() {
    // ISCC-CODE Wide header expects 32 body bytes, provide only 16.
    // For Wide ISCC-CODE, length field is unit_id (0 = no optional units)
    let iscc = make_truncated_iscc(MainType::Iscc, SubType::Wide, 0, 16);
    let result = iscc_decompose(&iscc);
    assert!(result.is_err(), "expected error for truncated wide mode");
    let err = result.unwrap_err().to_string();
    assert!(
        err.contains("truncated ISCC body"),
        "error should mention truncation: {err:?}"
    );
}

#[test]
fn test_decompose_truncated_dynamic_units() {
    // ISCC-CODE with Meta+Content (unit_id=5, bit0=Content+bit2=Meta)
    // Dynamic units: 2 × 8 = 16 bytes, static: 16 bytes, total: 32 bytes needed
    // Provide only 8 body bytes (enough for 1 dynamic unit, not all)
    let unit_id = 5; // Meta + Content
    let iscc = make_truncated_iscc(MainType::Iscc, SubType::Unspecified, unit_id, 8);
    let result = iscc_decompose(&iscc);
    assert!(
        result.is_err(),
        "expected error for truncated dynamic units"
    );
    let err = result.unwrap_err().to_string();
    assert!(
        err.contains("truncated ISCC body"),
        "error should mention truncation: {err:?}"
    );
}

#[test]
fn test_decompose_truncated_static_units() {
    // ISCC-CODE with Content only (unit_id=1)
    // Dynamic: 1 × 8 = 8, static: 16, total: 24 bytes needed
    // Provide only 16 body bytes (dynamic ok, but static Data+Instance missing)
    let unit_id = 1; // Content only
    let iscc = make_truncated_iscc(MainType::Iscc, SubType::Unspecified, unit_id, 16);
    let result = iscc_decompose(&iscc);
    assert!(result.is_err(), "expected error for truncated static units");
    let err = result.unwrap_err().to_string();
    assert!(
        err.contains("truncated ISCC body"),
        "error should mention truncation: {err:?}"
    );
}

#[test]
fn test_decompose_empty_body() {
    // Meta-Code header for 64 bits but zero body bytes
    let length_field = encode_length(MainType::Meta, 64).unwrap();
    let iscc = make_truncated_iscc(MainType::Meta, SubType::Unspecified, length_field, 0);
    let result = iscc_decompose(&iscc);
    assert!(result.is_err(), "expected error for empty body");
    let err = result.unwrap_err().to_string();
    assert!(
        err.contains("truncated ISCC body"),
        "error should mention truncation: {err:?}"
    );
}

#[test]
fn test_decompose_valid_still_works() {
    // A valid ISCC-CODE should still decompose correctly (regression guard)
    // Build: Meta(64) + Content-Text(64) + Data(64) + Instance(64)
    let meta_body = [0x11u8; 8];
    let content_body = [0x22u8; 8];
    let data_body = [0x33u8; 8];
    let instance_body = [0x44u8; 8];

    let meta_code =
        encode_component(MainType::Meta, SubType::Unspecified, Version::V0, 64, &meta_body).unwrap();
    let content_code = encode_component(
        MainType::Content,
        SubType::Unspecified,
        Version::V0,
        64,
        &content_body,
    )
    .unwrap();
    let data_code =
        encode_component(MainType::Data, SubType::Unspecified, Version::V0, 64, &data_body).unwrap();
    let instance_code = encode_component(
        MainType::Instance,
        SubType::Unspecified,
        Version::V0,
        64,
        &instance_body,
    )
    .unwrap();

    // Concatenate as a sequence of ISCC-UNITs (not a single ISCC-CODE)
    let sequence = format!("{meta_code}{content_code}{data_code}{instance_code}");
    let raw = decode_base32(&sequence).unwrap();
    let full_iscc = encode_base32(&raw);

    let result = iscc_decompose(&full_iscc);
    assert!(
        result.is_ok(),
        "valid ISCC sequence should decompose: {result:?}"
    );
    let units = result.unwrap();
    assert_eq!(units.len(), 4, "should decompose into 4 units");
}

fn bits_to_u32(bits: &[bool]) -> u32 {
    extract_bits(&bits_bytes(bits), 0, bits.len())
}

fn bytes_to_bits(bytes: &[u8]) -> Vec<bool> {
    (0..bytes.len() * 8).map(|i| get_bit(bytes, i)).collect()
}

#[test]
fn test_maintype_try_from() {
    for v in 0..=7u8 {
        assert!(MainType::from_value(v).is_ok());
    }
    assert!(MainType::from_value(8).is_err());
}

#[test]
fn test_subtype_try_from() {
    for v in 0..=7u8 {
        assert!(SubType::from_value(v).is_ok());
    }
    assert!(SubType::from_value(8).is_err());
}

#[test]
fn test_version_try_from() {
    assert!(Version::from_value(0).is_ok());
    assert!(Version::from_value(1).is_err());
}

#[test]
fn test_bits_to_u32() {
    assert_eq!(bits_to_u32(&[false, false, false, false]), 0);
    assert_eq!(bits_to_u32(&[false, true, true, true]), 7);
    assert_eq!(bits_to_u32(&[true, false, false, false]), 8);
    assert_eq!(bits_to_u32(&[true, true, true, true]), 15);
}

#[test]
fn test_bytes_bits_roundtrip() {
    let data = vec![0x00, 0x01, 0xFF, 0xAB];
    let bits = bytes_to_bits(&data);
    assert_eq!(bits.len(), 32);
    let bytes = bits_bytes(&bits);
    assert_eq!(bytes, data);
}

#[test]
fn test_decode_header_rejects_out_of_range_main_type() {
    // main-type varnibble 256: 110 + (256 - 72) in 9 bits, then three zero varnibbles
    assert!(decode_header(&[0xCB, 0x80, 0x00, 0x00]).is_err());
}
