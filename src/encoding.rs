//! RFC 4648 text encodings of bytes: base32 for identifiers, base64 for metadata.
use crate::bits::{bit_at, bits_value};
use crate::IsccError;
use vstd::prelude::*;

verus! {

#[verifier::external_type_specification]
#[verifier::external_body]
pub struct ExDecodeError(data_encoding::DecodeError);

/// The base32 alphabet of RFC 4648, section 6.
pub open spec fn base32_alphabet() -> Seq<char> {
    seq![
        'A', 'B', 'C', 'D', 'E', 'F', 'G', 'H', 'I', 'J', 'K', 'L', 'M', 'N', 'O', 'P',
        'Q', 'R', 'S', 'T', 'U', 'V', 'W', 'X', 'Y', 'Z', '2', '3', '4', '5', '6', '7',
    ]
}

/// The base64url alphabet of RFC 4648, section 5.
pub open spec fn base64url_alphabet() -> Seq<char> {
    seq![
        'A', 'B', 'C', 'D', 'E', 'F', 'G', 'H', 'I', 'J', 'K', 'L', 'M', 'N', 'O', 'P',
        'Q', 'R', 'S', 'T', 'U', 'V', 'W', 'X', 'Y', 'Z', 'a', 'b', 'c', 'd', 'e', 'f',
        'g', 'h', 'i', 'j', 'k', 'l', 'm', 'n', 'o', 'p', 'q', 'r', 's', 't', 'u', 'v',
        'w', 'x', 'y', 'z', '0', '1', '2', '3', '4', '5', '6', '7', '8', '9', '-', '_',
    ]
}

/// The standard base64 alphabet of RFC 4648, section 4.
pub open spec fn base64_alphabet() -> Seq<char> {
    base64url_alphabet().subrange(0, 62) + seq!['+', '/']
}

/// Group `k` of `width` bits of `bytes`, the bits past the end read as zero.
pub open spec fn bit_group(bytes: Seq<u8>, width: nat, k: int) -> nat {
    bits_value(
        Seq::new(
            width,
            |t: int|
                if width * k + t < 8 * bytes.len() {
                    bit_at(bytes, width * k + t)
                } else {
                    false
                },
        ),
    )
}

/// `bytes` written with one symbol per group of `width` bits and no padding.
pub open spec fn radix_text(bytes: Seq<u8>, width: nat, alphabet: Seq<char>) -> Seq<char> {
    Seq::new(
        ((8 * bytes.len() + width - 1) / (width as int)) as nat,
        |k: int| alphabet[bit_group(bytes, width, k) as int],
    )
}

/// Unpadded upper-case base32 text of `bytes`.
pub open spec fn base32_text(bytes: Seq<u8>) -> Seq<char> {
    radix_text(bytes, 5, base32_alphabet())
}

/// Unpadded base64url text of `bytes`.
pub open spec fn base64url_text(bytes: Seq<u8>) -> Seq<char> {
    radix_text(bytes, 6, base64url_alphabet())
}

/// Standard base64 text of `bytes`, padded with `=` to a multiple of four symbols.
pub open spec fn base64_text(bytes: Seq<u8>) -> Seq<char> {
    let t = radix_text(bytes, 6, base64_alphabet());
    t + Seq::new(((4 - t.len() % 4) % 4) as nat, |i: int| '=')
}

/// Whether every character is an ASCII upper-case letter or digit.
pub open spec fn upper_alnum(s: Seq<char>) -> bool {
    forall|i: int| 0 <= i < s.len() ==> ('A' <= #[trigger] s[i] <= 'Z' || '0' <= s[i] <= '9')
}

/// Upper-case form of a string, as Unicode defines it.
pub uninterp spec fn upper_of(s: Seq<char>) -> Seq<char>;

/// Relies on data_encoding::BASE32_NOPAD.encode: RFC 4648 base32, upper case, without padding.
#[verifier::external_body]
fn base32_nopad_encode(data: &[u8]) -> (r: String)
    ensures
        r@ == base32_text(data@),
{
    data_encoding::BASE32_NOPAD.encode(data)
}

/// Relies on data_encoding::BASE32_NOPAD.decode, which accepts exactly the canonical
/// encodings: the right length, alphabet symbols only, zero trailing bits.
#[verifier::external_body]
fn base32_nopad_decode(s: &str) -> (r: Result<Vec<u8>, data_encoding::DecodeError>)
    ensures
        r is Ok ==> s@ == base32_text(r->Ok_0@),
        forall|b: Seq<u8>| #[trigger] base32_text(b) == s@ ==> r is Ok && r->Ok_0@ == b,
{
    data_encoding::BASE32_NOPAD.decode(s.as_bytes())
}

/// Relies on data_encoding::BASE64URL_NOPAD.encode: RFC 4648 base64url without padding.
#[verifier::external_body]
fn base64url_nopad_encode(data: &[u8]) -> (r: String)
    ensures
        r@ == base64url_text(data@),
{
    data_encoding::BASE64URL_NOPAD.encode(data)
}

/// Relies on data_encoding::BASE64.encode: RFC 4648 standard base64 with padding.
#[verifier::external_body]
fn base64_padded_encode(data: &[u8]) -> (r: String)
    ensures
        r@ == base64_text(data@),
{
    data_encoding::BASE64.encode(data)
}

/// What standard padded base64 decoding gives for `s`, if it accepts it.
pub uninterp spec fn base64_decode_of(s: Seq<char>) -> Option<Seq<u8>>;

/// Relies on data_encoding::BASE64.decode: it accepts the canonical padded encoding of any
/// bytes and gives those bytes back (it also accepts some other texts, such as several padded
/// blocks in a row).
#[verifier::external_body]
fn base64_padded_decode(s: &str) -> (r: Result<Vec<u8>, data_encoding::DecodeError>)
    ensures
        r is Ok <==> base64_decode_of(s@) is Some,
        r is Ok ==> r->Ok_0@ == base64_decode_of(s@)->0,
        forall|b: Seq<u8>| #[trigger] base64_text(b) == s@ ==> r is Ok && r->Ok_0@ == b,
{
    data_encoding::BASE64.decode(s.as_bytes())
}

/// Relies on str::to_uppercase: the result depends on the characters alone, and
/// ASCII upper-case letters and digits are their own upper case.
#[verifier::external_body]
fn uppercase(s: &str) -> (r: String)
    ensures
        r@ == upper_of(s@),
        upper_alnum(s@) ==> r@ == s@,
{
    s.to_uppercase()
}

proof fn lemma_base32_text_upper(b: Seq<u8>)
    ensures
        upper_alnum(base32_text(b)),
{
    let t = base32_text(b);
    assert forall|i: int| 0 <= i < t.len() implies ('A' <= #[trigger] t[i] <= 'Z' || '0' <= t[i]
        <= '9') by {
        let g = bit_group(b, 5, i);
        crate::bits::lemma_bits_value_bound(
            Seq::new(
                5,
                |t: int|
                    if 5 * i + t < 8 * b.len() {
                        bit_at(b, 5 * i + t)
                    } else {
                        false
                    },
            ),
        );
        vstd::arithmetic::power2::lemma2_to64();
        assert(g < 32);
    }
}

/// Encodes bytes as upper-case base32 without padding.
pub fn encode_base32(data: &[u8]) -> (r: String)
    ensures
        r@ == base32_text(data@),
{
    base32_nopad_encode(data)
}

/// Decodes base32 text in any letter case.
pub fn decode_base32(code: &str) -> (r: Result<Vec<u8>, IsccError>)
    ensures
        r is Ok ==> upper_of(code@) == base32_text(r->Ok_0@),
        forall|b: Seq<u8>| #[trigger] base32_text(b) == upper_of(code@) ==> r is Ok && r->Ok_0@ == b,
        forall|b: Seq<u8>| #[trigger] base32_text(b) == code@ ==> r is Ok && r->Ok_0@ == b,
{
    let upper = uppercase(code);
    proof {
        assert forall|b: Seq<u8>| #[trigger] base32_text(b) == code@ implies upper@ == code@ by {
            lemma_base32_text_upper(b);
        }
    }
    match base32_nopad_decode(upper.as_str()) {
        Ok(v) => Ok(v),
        Err(_) => Err(IsccError::invalid("base32 decode error")),
    }
}

/// Decodes standard padded base64 text.
pub fn decode_base64_padded(s: &str) -> (r: Result<Vec<u8>, IsccError>)
    ensures
        r is Ok <==> base64_decode_of(s@) is Some,
        r is Ok ==> r->Ok_0@ == base64_decode_of(s@)->0,
        forall|b: Seq<u8>| #[trigger] base64_text(b) == s@ ==> r is Ok && r->Ok_0@ == b,
{
    match base64_padded_decode(s) {
        Ok(v) => Ok(v),
        Err(_) => Err(IsccError::invalid("invalid base64 in Data-URL")),
    }
}

/// Encodes bytes as base64url without padding.
pub fn encode_base64(data: &[u8]) -> (r: String)
    ensures
        r@ == base64url_text(data@),
{
    base64url_nopad_encode(data)
}

/// Encodes bytes as standard base64 with padding.
pub fn encode_base64_padded(data: &[u8]) -> (r: String)
    ensures
        r@ == base64_text(data@),
{
    base64_padded_encode(data)
}

} // verus!
