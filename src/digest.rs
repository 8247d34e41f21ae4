//! Cryptographic and fast hashes, and hex text.
use vstd::prelude::*;

verus! {

#[verifier::external_type_specification]
#[verifier::external_body]
pub struct ExHasher(blake3::Hasher);

/// The 32-byte BLAKE3 hash of `data`.
pub uninterp spec fn blake3_of(data: Seq<u8>) -> Seq<u8>;

/// The xxHash32 hash, seed 0, of `data`.
pub uninterp spec fn xxh32_of(data: Seq<u8>) -> u32;

/// The bytes fed so far to a streaming BLAKE3 hasher.
pub uninterp spec fn hasher_input(h: blake3::Hasher) -> Seq<u8>;

/// Relies on blake3::hash: the 32-byte BLAKE3 hash of the input.
#[verifier::external_body]
pub(crate) fn blake3_hash(data: &[u8]) -> (r: Vec<u8>)
    ensures
        r@ == blake3_of(data@),
        r@.len() == 32,
{
    blake3::hash(data).as_bytes().to_vec()
}

/// Relies on blake3::Hasher::new: a hasher that has been fed nothing.
#[verifier::external_body]
pub(crate) fn blake3_hasher_new() -> (r: blake3::Hasher)
    ensures
        hasher_input(r) == Seq::<u8>::empty(),
{
    blake3::Hasher::new()
}

/// Relies on blake3::Hasher::update: feeds `data` after what came before.
#[verifier::external_body]
pub(crate) fn blake3_hasher_update(h: &mut blake3::Hasher, data: &[u8])
    ensures
        hasher_input(*final(h)) == hasher_input(*old(h)) + data@,
{
    h.update(data);
}

/// Relies on blake3::Hasher::finalize: the hash of all bytes fed, the same as `blake3::hash`
/// of their concatenation.
#[verifier::external_body]
pub(crate) fn blake3_hasher_finalize(h: &blake3::Hasher) -> (r: Vec<u8>)
    ensures
        r@ == blake3_of(hasher_input(*h)),
        r@.len() == 32,
{
    h.finalize().as_bytes().to_vec()
}

/// Relies on xxhash_rust::xxh32::xxh32 with seed 0.
#[verifier::external_body]
pub(crate) fn xxh32(data: &[u8]) -> (r: u32)
    ensures
        r == xxh32_of(data@),
{
    xxhash_rust::xxh32::xxh32(data, 0)
}

/// Lower-case hexadecimal digits.
pub open spec fn hex_digits() -> Seq<char> {
    seq!['0', '1', '2', '3', '4', '5', '6', '7', '8', '9', 'a', 'b', 'c', 'd', 'e', 'f']
}

/// Two lower-case hex digits per byte, high nibble first.
pub open spec fn hex_text(data: Seq<u8>) -> Seq<char> {
    Seq::new(
        2 * data.len(),
        |i: int|
            hex_digits()[if i % 2 == 0 {
                data[i / 2] / 16
            } else {
                data[i / 2] % 16
            } as int],
    )
}

/// Relies on hex::encode: two lower-case hex digits per byte, high nibble first.
#[verifier::external_body]
pub(crate) fn hex_encode(data: &[u8]) -> (r: String)
    ensures
        r@ == hex_text(data@),
{
    hex::encode(data)
}

/// The BLAKE3 multihash of `data` as hex: `1e20` then the digest.
pub open spec fn multihash_text(data: Seq<u8>) -> Seq<char> {
    hex_text(seq![0x1eu8, 0x20u8] + blake3_of(data))
}

/// The BLAKE3 multihash of `data` as hex text.
pub fn multi_hash_blake3(data: &[u8]) -> (r: String)
    ensures
        r@ == multihash_text(data@),
{
    let digest = blake3_hash(data);
    let mut bytes: Vec<u8> = Vec::new();
    bytes.push(0x1e);
    bytes.push(0x20);
    let mut i: usize = 0;
    while i < digest.len()
        invariant
            i <= digest@.len(),
            bytes@ == seq![0x1eu8, 0x20u8] + digest@.subrange(0, i as int),
        decreases digest@.len() - i,
    {
        bytes.push(digest[i]);
        i = i + 1;
        assert(bytes@ =~= seq![0x1eu8, 0x20u8] + digest@.subrange(0, i as int));
    }
    assert(digest@.subrange(0, digest@.len() as int) =~= digest@);
    hex_encode(bytes.as_slice())
}

} // verus!
