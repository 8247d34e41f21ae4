//! The code generators: one identifier unit per kind of content.
use crate::cdc::{alg_cdc_chunks, cdc_chunks, DATA_AVG_CHUNK_SIZE};
use crate::codec::{
    all_optional, decode_length, encode_header, encode_units, header_bytes, length_bits,
    units_code, VARNIBBLE_MAX,
};
use crate::codec::{
    component_text, decode_header, decoded_header, encodable, encode_component, iscc_prefix,
    strip_iscc_prefix, strip_prefix, MainType, SubType, Version, MAX_CODE_BYTES,
};
use crate::encoding::{base32_text, decode_base32, upper_of};
use crate::digest::{blake3_hash, blake3_of, multi_hash_blake3, multihash_text, xxh32, xxh32_of};
use crate::minhash::{alg_minhash_256, minhash_digest};
use crate::simhash::{byte_views, sliding_window, windows};
use crate::text::{collapse_text, string_from_chars, text_collapse};
use crate::IsccError;
use vstd::prelude::*;
use vstd::utf8::encode_utf8;

verus! {

/// Result of a Meta-Code.
#[derive(Debug, Clone, PartialEq, Eq)]
#[non_exhaustive]
pub struct MetaCodeResult {
    pub iscc: String,
    pub name: String,
    pub description: Option<String>,
    pub meta: Option<String>,
    pub metahash: String,
}

/// Result of a Text-Code.
#[derive(Debug, Clone, PartialEq, Eq)]
#[non_exhaustive]
pub struct TextCodeResult {
    pub iscc: String,
    pub characters: usize,
}

/// Result of an Image-Code.
#[derive(Debug, Clone, PartialEq, Eq)]
#[non_exhaustive]
pub struct ImageCodeResult {
    pub iscc: String,
}

/// Result of an Audio-Code.
#[derive(Debug, Clone, PartialEq, Eq)]
#[non_exhaustive]
pub struct AudioCodeResult {
    pub iscc: String,
}

/// Result of a Video-Code.
#[derive(Debug, Clone, PartialEq, Eq)]
#[non_exhaustive]
pub struct VideoCodeResult {
    pub iscc: String,
}

/// Result of a Mixed-Code.
#[derive(Debug, Clone, PartialEq, Eq)]
#[non_exhaustive]
pub struct MixedCodeResult {
    pub iscc: String,
    pub parts: Vec<String>,
}

/// Result of a Data-Code.
#[derive(Debug, Clone, PartialEq, Eq)]
#[non_exhaustive]
pub struct DataCodeResult {
    pub iscc: String,
}

/// Result of an Instance-Code.
#[derive(Debug, Clone, PartialEq, Eq)]
#[non_exhaustive]
pub struct InstanceCodeResult {
    pub iscc: String,
    pub datahash: String,
    pub filesize: u64,
}

/// Result of an ISCC-CODE.
#[derive(Debug, Clone, PartialEq, Eq)]
#[non_exhaustive]
pub struct IsccCodeResult {
    pub iscc: String,
}

/// Result of an ISCC-SUM: a composite of data and instance units with file facts.
#[derive(Debug, Clone, PartialEq, Eq)]
#[non_exhaustive]
pub struct SumCodeResult {
    pub iscc: String,
    pub datahash: String,
    pub filesize: u64,
}

impl ImageCodeResult {
    /// A result holding `iscc`.
    pub fn new(iscc: String) -> (r: ImageCodeResult)
        ensures
            r.iscc == iscc,
    {
        ImageCodeResult { iscc }
    }
}

/// Number of characters per n-gram of text features.
pub const TEXT_NGRAM_SIZE: usize = 13;

/// Byte limit of a normalized name.
pub const META_TRIM_NAME: usize = 128;

/// Byte limit of a normalized description.
pub const META_TRIM_DESCRIPTION: usize = 4096;

/// Byte limit of metadata.
pub const META_TRIM_META: usize = 128000;

/// Suggested read size when streaming files.
pub const IO_READ_SIZE: usize = 4194304;

/// `"ISCC:"` followed by `code`.
pub fn with_prefix(code: &str) -> (r: String)
    ensures
        r@ == iscc_prefix() + code@,
{
    let p = String::from_str("ISCC:");
    proof {
        reveal_strlit("ISCC:");
    }
    assert(p@ == iscc_prefix());
    p.concat(code)
}

/// The text features: xxHash32 of each 13-character n-gram.
pub open spec fn text_features(t: Seq<char>) -> Seq<u32> {
    windows(t, TEXT_NGRAM_SIZE as nat).map_values(|ng: Seq<char>| xxh32_of(encode_utf8(ng)))
}

/// Generates a Text-Code: MinHash of the n-gram features of the collapsed text.
pub fn gen_text_code_v0(text: &str, bits: u32) -> (r: Result<TextCodeResult, IsccError>)
    ensures
        r is Ok <==> encodable(MainType::Content, bits as nat),
        r is Ok ==> r->Ok_0.iscc@ == iscc_prefix() + component_text(
            MainType::Content,
            SubType::TEXT,
            bits as nat,
            minhash_digest(text_features(collapse_text(text@))),
        ),
        r is Ok ==> r->Ok_0.characters as nat == collapse_text(text@).len(),
{
    let collapsed = text_collapse(text);
    let characters = collapsed.as_str().unicode_len();
    let ngrams = match sliding_window(collapsed.as_str(), TEXT_NGRAM_SIZE) {
        Ok(v) => v,
        Err(e) => {
            return Err(e);
        },
    };
    let ghost wins = windows(collapsed@, TEXT_NGRAM_SIZE as nat);
    let mut features: Vec<u32> = Vec::new();
    let mut i: usize = 0;
    while i < ngrams.len()
        invariant
            i <= ngrams@.len(),
            ngrams@.map_values(|w: String| w@) == wins,
            features@ == wins.subrange(0, i as int).map_values(
                |ng: Seq<char>| xxh32_of(encode_utf8(ng)),
            ),
        decreases ngrams@.len() - i,
    {
        let ng = ngrams[i].as_str();
        assert(ng@ == wins[i as int]);
        let f = xxh32(ng.as_bytes());
        features.push(f);
        i = i + 1;
        assert(features@ =~= wins.subrange(0, i as int).map_values(
            |ng: Seq<char>| xxh32_of(encode_utf8(ng)),
        ));
    }
    assert(wins.subrange(0, wins.len() as int) =~= wins);
    let digest = alg_minhash_256(features.as_slice());
    let component = encode_component(
        MainType::Content,
        SubType::TEXT,
        Version::V0,
        bits,
        digest.as_slice(),
    )?;
    Ok(TextCodeResult { iscc: with_prefix(component.as_str()), characters })
}

/// The data features: xxHash32 of each content-defined chunk.
pub open spec fn data_features(data: Seq<u8>) -> Seq<u32> {
    cdc_chunks(data, false, DATA_AVG_CHUNK_SIZE as nat).map_values(|c: Seq<u8>| xxh32_of(c))
}

/// Generates a Data-Code: MinHash of the hashes of the content-defined chunks.
pub fn gen_data_code_v0(data: &[u8], bits: u32) -> (r: Result<DataCodeResult, IsccError>)
    ensures
        r is Ok <==> encodable(MainType::Data, bits as nat),
        r is Ok ==> r->Ok_0.iscc@ == iscc_prefix() + component_text(
            MainType::Data,
            SubType::Unspecified,
            bits as nat,
            minhash_digest(data_features(data@)),
        ),
{
    let chunks = match alg_cdc_chunks(data, false, DATA_AVG_CHUNK_SIZE) {
        Ok(c) => c,
        Err(e) => {
            return Err(e);
        },
    };
    let ghost cs = cdc_chunks(data@, false, DATA_AVG_CHUNK_SIZE as nat);
    let mut features: Vec<u32> = Vec::new();
    let mut i: usize = 0;
    while i < chunks.len()
        invariant
            i <= chunks@.len(),
            chunks@.map_values(|c: &[u8]| c@) == cs,
            features@ == cs.subrange(0, i as int).map_values(|c: Seq<u8>| xxh32_of(c)),
        decreases chunks@.len() - i,
    {
        let c = chunks[i];
        assert(c@ == cs[i as int]);
        features.push(xxh32(c));
        i = i + 1;
        assert(features@ =~= cs.subrange(0, i as int).map_values(|c: Seq<u8>| xxh32_of(c)));
    }
    assert(cs.subrange(0, cs.len() as int) =~= cs);
    let digest = alg_minhash_256(features.as_slice());
    let component = encode_component(
        MainType::Data,
        SubType::Unspecified,
        Version::V0,
        bits,
        digest.as_slice(),
    )?;
    Ok(DataCodeResult { iscc: with_prefix(component.as_str()) })
}

/// Generates an Instance-Code: the BLAKE3 hash of the data, with its multihash and size.
pub fn gen_instance_code_v0(data: &[u8], bits: u32) -> (r: Result<InstanceCodeResult, IsccError>)
    ensures
        r is Ok <==> encodable(MainType::Instance, bits as nat),
        r is Ok ==> r->Ok_0.iscc@ == iscc_prefix() + component_text(
            MainType::Instance,
            SubType::Unspecified,
            bits as nat,
            blake3_of(data@),
        ),
        r is Ok ==> r->Ok_0.datahash@ == multihash_text(data@),
        r is Ok ==> r->Ok_0.filesize == data@.len(),
{
    let digest = blake3_hash(data);
    let datahash = multi_hash_blake3(data);
    let filesize = data.len() as u64;
    let component = encode_component(
        MainType::Instance,
        SubType::Unspecified,
        Version::V0,
        bits,
        digest.as_slice(),
    )?;
    Ok(InstanceCodeResult { iscc: with_prefix(component.as_str()), datahash, filesize })
}

/// The four bytes of `v` in big-endian order (two's complement).
pub open spec fn be_bytes(v: i32) -> Seq<u8> {
    let u: nat = (if v < 0 {
        v + 0x1_0000_0000
    } else {
        v as int
    }) as nat;
    seq![(u / 0x100_0000) as u8, ((u / 0x1_0000) % 256) as u8, ((u / 256) % 256) as u8, (u % 256) as u8]
}

pub fn be_bytes_of(v: i32) -> (r: Vec<u8>)
    ensures
        r@ == be_bytes(v),
{
    let u: u32 = if v < 0 {
        (v as i64 + 0x1_0000_0000i64) as u32
    } else {
        v as u32
    };
    let mut out: Vec<u8> = Vec::new();
    out.push((u / 0x100_0000) as u8);
    out.push(((u / 0x1_0000) % 256) as u8);
    out.push(((u / 256) % 256) as u8);
    out.push((u % 256) as u8);
    assert(out@ =~= be_bytes(v));
    out
}

/// Start of part `i` when `len` items are split into `n` parts, the first `len % n` one longer.
pub open spec fn part_start(len: nat, n: nat, i: nat) -> nat {
    i * (len / n) + if i < len % n {
        i
    } else {
        len % n
    }
}

proof fn lemma_part_bounds(len: nat, n: nat, i: nat)
    requires
        n > 0,
        i < n,
    ensures
        part_start(len, n, i) <= part_start(len, n, i + 1) <= len,
{
    vstd::arithmetic::div_mod::lemma_fundamental_div_mod(len as int, n as int);
    let base = len / n;
    let rem = len % n;
    assert((i + 1) * base == i * base + base) by (nonlinear_arith);
    assert((i + 1) * base <= n * base) by (nonlinear_arith)
        requires
            i + 1 <= n,
    ;
    assert(n * base == base * n) by (nonlinear_arith);
}

/// Part `i` of `s` split into `n` parts as evenly as possible, longer parts first.
pub open spec fn split_part<T>(s: Seq<T>, n: nat, i: nat) -> Seq<T> {
    s.subrange(part_start(s.len(), n, i) as int, part_start(s.len(), n, i + 1) as int)
}

/// Splits `slice` into `n` parts as evenly as possible; the first `len % n` parts get one more.
pub fn array_split<T>(slice: &[T], n: usize) -> (r: Vec<&[T]>)
    requires
        n > 0,
    ensures
        r@.len() == n,
        forall|i: int| 0 <= i < n ==> (#[trigger] r@[i])@ == split_part(slice@, n as nat, i as nat),
{
    let len = slice.len();
    let base = len / n;
    let remainder = len % n;
    let mut parts: Vec<&[T]> = Vec::new();
    let mut offset: usize = 0;
    let mut i: usize = 0;
    while i < n
        invariant
            i <= n,
            len == slice@.len(),
            base == len / n,
            remainder == len % n,
            offset as nat == part_start(len as nat, n as nat, i as nat),
            offset <= len,
            parts@.len() == i,
            forall|k: int|
                0 <= k < i ==> (#[trigger] parts@[k])@ == split_part(slice@, n as nat, k as nat),
        decreases n - i,
    {
        proof {
            vstd::arithmetic::div_mod::lemma_fundamental_div_mod(len as int, n as int);
            if i < remainder {
                assert(base * 2 <= len) by (nonlinear_arith)
                    requires
                        n >= 2,
                        len == n * base + remainder,
                        base >= 0,
                        remainder >= 0,
                ;
            }
        }
        let size = if i < remainder {
            base + 1
        } else {
            base
        };
        proof {
            assert((i + 1) * base == i * base + base) by (nonlinear_arith);
            assert((i + 1) * base + (if i + 1 < remainder {
                i + 1
            } else {
                remainder as int
            }) <= len) by (nonlinear_arith)
                requires
                    i < n,
                    base == len / n,
                    remainder == len % n,
                    n > 0,
            {
                vstd::arithmetic::div_mod::lemma_fundamental_div_mod(len as int, n as int);
                assert(n * base == base * n) by (nonlinear_arith);
                assert((i + 1) * base <= n * base) by (nonlinear_arith)
                    requires
                        i + 1 <= n,
                        base >= 0,
                ;
            }
        }
        let part = &slice[offset..offset + size];
        parts.push(part);
        offset = offset + size;
        i = i + 1;
    }
    parts
}

/// SimHash of a part; four zero bytes for an empty part.
pub open spec fn part_simhash(ds: Seq<Seq<u8>>) -> Seq<u8> {
    if ds.len() == 0 {
        seq![0u8, 0u8, 0u8, 0u8]
    } else {
        crate::simhash::simhash(ds)
    }
}

/// Order of integers for sorting.
pub open spec fn int_leq(a: i32, b: i32) -> bool {
    a <= b
}

/// The audio digest: SimHash of all features, of each quarter, and of each third of the
/// sorted features; each feature read as four big-endian bytes.
pub open spec fn audio_digest(cv: Seq<i32>) -> Seq<u8> {
    if cv.len() == 0 {
        Seq::new(32, |i: int| 0u8)
    } else {
        let d = cv.map_values(|v: i32| be_bytes(v));
        let s = cv.sort_by(|a: i32, b: i32| int_leq(a, b)).map_values(|v: i32| be_bytes(v));
        crate::simhash::simhash(d) + part_simhash(split_part(d, 4, 0)) + part_simhash(
            split_part(d, 4, 1),
        ) + part_simhash(split_part(d, 4, 2)) + part_simhash(split_part(d, 4, 3)) + part_simhash(
            split_part(s, 3, 0),
        ) + part_simhash(split_part(s, 3, 1)) + part_simhash(split_part(s, 3, 2))
    }
}

/// Relies on slice::sort: the result is in ascending order and holds the same items.
#[verifier::external_body]
fn sort_ascending(v: &mut Vec<i32>)
    ensures
        vstd::relations::sorted_by(final(v)@, |a: i32, b: i32| int_leq(a, b)),
        final(v)@.to_multiset() == old(v)@.to_multiset(),
{
    v.sort();
}

proof fn lemma_int_leq_total()
    ensures
        vstd::relations::total_ordering(|a: i32, b: i32| int_leq(a, b)),
{
}

fn copy_i32s(s: &[i32]) -> (r: Vec<i32>)
    ensures
        r@ == s@,
{
    let mut out: Vec<i32> = Vec::new();
    let mut i: usize = 0;
    while i < s.len()
        invariant
            i <= s@.len(),
            out@ == s@.subrange(0, i as int),
        decreases s@.len() - i,
    {
        out.push(s[i]);
        i = i + 1;
    }
    assert(s@.subrange(0, s@.len() as int) =~= s@);
    out
}

fn digests_of(values: &Vec<i32>) -> (r: Vec<Vec<u8>>)
    ensures
        byte_views(r@) == values@.map_values(|v: i32| be_bytes(v)),
        forall|k: int| 0 <= k < r@.len() ==> (#[trigger] r@[k])@.len() == 4,
        r@.len() == values@.len(),
{
    let mut out: Vec<Vec<u8>> = Vec::new();
    let mut i: usize = 0;
    while i < values.len()
        invariant
            i <= values@.len(),
            byte_views(out@) == values@.subrange(0, i as int).map_values(|v: i32| be_bytes(v)),
            forall|k: int| 0 <= k < out@.len() ==> (#[trigger] out@[k])@.len() == 4,
            out@.len() == i,
        decreases values@.len() - i,
    {
        let b = be_bytes_of(values[i]);
        let ghost bv = b@;
        let ghost prev = byte_views(out@);
        out.push(b);
        assert(byte_views(out@) =~= prev.push(bv));
        assert(values@.subrange(0, i + 1).map_values(|v: i32| be_bytes(v)) =~= values@.subrange(
            0,
            i as int,
        ).map_values(|v: i32| be_bytes(v)).push(bv));
        i = i + 1;
    }
    assert(values@.subrange(0, values@.len() as int) =~= values@);
    out
}

fn append_part_simhash(out: &mut Vec<u8>, part: &[Vec<u8>])
    requires
        forall|k: int| 0 <= k < part@.len() ==> (#[trigger] part@[k])@.len() == 4,
    ensures
        final(out)@ == old(out)@ + part_simhash(byte_views(part@)),
{
    if part.len() == 0 {
        out.push(0);
        out.push(0);
        out.push(0);
        out.push(0);
        assert(final(out)@ =~= old(out)@ + part_simhash(byte_views(part@)));
    } else {
        let h = crate::simhash::alg_simhash_inner(part);
        crate::bits::append_range(out, h.as_slice(), 0, h.len());
        assert(h@.subrange(0, h@.len() as int) =~= h@);
    }
}

/// Computes the 32-byte audio digest of Chromaprint features.
pub fn soft_hash_audio_v0(cv: &[i32]) -> (r: Vec<u8>)
    ensures
        r@ == audio_digest(cv@),
{
    let values: Vec<i32> = copy_i32s(cv);
    let digests = digests_of(&values);
    if digests.len() == 0 {
        let mut z: Vec<u8> = Vec::new();
        let mut k: usize = 0;
        while k < 32
            invariant
                k <= 32,
                z@ == Seq::new(k as nat, |i: int| 0u8),
            decreases 32 - k,
        {
            z.push(0);
            k = k + 1;
            assert(z@ =~= Seq::new(k as nat, |i: int| 0u8));
        }
        return z;
    }
    let ghost d = cv@.map_values(|v: i32| be_bytes(v));
    assert(byte_views(digests@) == d);
    assert(crate::simhash::equal_lengths(d));
    let mut parts = crate::simhash::alg_simhash_inner(digests.as_slice());
    let quarters = array_split(digests.as_slice(), 4);
    proof {
        assert forall|i: int| 0 <= i < 4 implies byte_views(quarters@[i]@) == split_part(d, 4, i as nat)
            && forall|k: int| 0 <= k < quarters@[i]@.len() ==> (#[trigger] quarters@[i]@[k])@.len() == 4 by {
            let a = part_start(digests@.len() as nat, 4, i as nat) as int;
            let b = part_start(digests@.len() as nat, 4, (i + 1) as nat) as int;
            lemma_part_bounds(digests@.len() as nat, 4, i as nat);
            assert(quarters@[i]@ == digests@.subrange(a, b));
            assert(d.len() == digests@.len());
            assert(split_part(d, 4, i as nat) == d.subrange(a, b));
            assert(byte_views(digests@.subrange(a, b)) =~= d.subrange(a, b));
        }
    }
    append_part_simhash(&mut parts, quarters[0]);
    append_part_simhash(&mut parts, quarters[1]);
    append_part_simhash(&mut parts, quarters[2]);
    append_part_simhash(&mut parts, quarters[3]);
    let mut sorted_values = values;
    sort_ascending(&mut sorted_values);
    proof {
        lemma_int_leq_total();
        cv@.lemma_sort_by_ensures(|a: i32, b: i32| int_leq(a, b));
        vstd::seq_lib::lemma_sorted_unique(
            sorted_values@,
            cv@.sort_by(|a: i32, b: i32| int_leq(a, b)),
            |a: i32, b: i32| int_leq(a, b),
        );
    }
    let sorted_digests = digests_of(&sorted_values);
    let ghost sd = cv@.sort_by(|a: i32, b: i32| int_leq(a, b)).map_values(|v: i32| be_bytes(v));
    assert(byte_views(sorted_digests@) == sd);
    let thirds = array_split(sorted_digests.as_slice(), 3);
    proof {
        assert forall|i: int| 0 <= i < 3 implies byte_views(thirds@[i]@) == split_part(sd, 3, i as nat)
            && forall|k: int| 0 <= k < thirds@[i]@.len() ==> (#[trigger] thirds@[i]@[k])@.len() == 4 by {
            let a = part_start(sorted_digests@.len() as nat, 3, i as nat) as int;
            let b = part_start(sorted_digests@.len() as nat, 3, (i + 1) as nat) as int;
            lemma_part_bounds(sorted_digests@.len() as nat, 3, i as nat);
            assert(thirds@[i]@ == sorted_digests@.subrange(a, b));
            assert(sd.len() == sorted_digests@.len());
            assert(split_part(sd, 3, i as nat) == sd.subrange(a, b));
            assert(byte_views(sorted_digests@.subrange(a, b)) =~= sd.subrange(a, b));
        }
    }
    append_part_simhash(&mut parts, thirds[0]);
    append_part_simhash(&mut parts, thirds[1]);
    append_part_simhash(&mut parts, thirds[2]);
    parts
}

/// Generates an Audio-Code from Chromaprint features by multi-stage SimHash.
pub fn gen_audio_code_v0(cv: &[i32], bits: u32) -> (r: Result<AudioCodeResult, IsccError>)
    ensures
        r is Ok <==> encodable(MainType::Content, bits as nat),
        r is Ok ==> r->Ok_0.iscc@ == iscc_prefix() + component_text(
            MainType::Content,
            SubType::Audio,
            bits as nat,
            audio_digest(cv@),
        ),
{
    let digest = soft_hash_audio_v0(cv);
    let component = encode_component(
        MainType::Content,
        SubType::Audio,
        Version::V0,
        bits,
        digest.as_slice(),
    )?;
    Ok(AudioCodeResult { iscc: with_prefix(component.as_str()) })
}

/// The distinct frames of `s`, in order of first appearance.
pub open spec fn distinct_frames(s: Seq<Seq<i32>>) -> Seq<Seq<i32>>
    decreases s.len(),
{
    if s.len() == 0 {
        seq![]
    } else {
        let u = distinct_frames(s.drop_last());
        if u.contains(s.last()) {
            u
        } else {
            u.push(s.last())
        }
    }
}

/// Sum of column `c` over the frames `u`.
pub open spec fn column_sum(u: Seq<Seq<i32>>, c: int) -> int
    decreases u.len(),
{
    if u.len() == 0 {
        0
    } else {
        column_sum(u.drop_last(), c) + u.last()[c]
    }
}

/// The views of a list of frames.
pub open spec fn frame_views(v: Seq<Vec<i32>>) -> Seq<Seq<i32>> {
    v.map_values(|f: Vec<i32>| f@)
}

/// The video vector: column sums over the distinct frames.
pub open spec fn video_vector(frames: Seq<Seq<i32>>) -> Seq<i64> {
    Seq::new(frames[0].len(), |c: int| column_sum(distinct_frames(frames), c) as i64)
}

/// Whether all frames have the length of the first, which holds every compared position.
pub open spec fn frames_well_formed(frames: Seq<Seq<i32>>) -> bool {
    &&& frames.len() > 0
    &&& frames[0].len() >= crate::wtahash::WTA_VECTOR_LEN
    &&& forall|k: int| 0 <= k < frames.len() ==> (#[trigger] frames[k]).len() == frames[0].len()
}

fn same_frame(a: &Vec<i32>, b: &Vec<i32>) -> (r: bool)
    ensures
        r == (a@ == b@),
{
    if a.len() != b.len() {
        return false;
    }
    let mut i: usize = 0;
    while i < a.len()
        invariant
            i <= a@.len(),
            a@.len() == b@.len(),
            a@.subrange(0, i as int) == b@.subrange(0, i as int),
        decreases a@.len() - i,
    {
        if a[i] != b[i] {
            assert(a@[i as int] != b@[i as int]);
            return false;
        }
        assert(a@.subrange(0, i + 1) =~= a@.subrange(0, i as int).push(a@[i as int]));
        assert(b@.subrange(0, i + 1) =~= b@.subrange(0, i as int).push(b@[i as int]));
        i = i + 1;
    }
    assert(a@ =~= a@.subrange(0, i as int));
    assert(b@ =~= b@.subrange(0, i as int));
    true
}

proof fn lemma_distinct_bounds(s: Seq<Seq<i32>>, cols: nat)
    requires
        forall|k: int| 0 <= k < s.len() ==> (#[trigger] s[k]).len() == cols,
    ensures
        distinct_frames(s).len() <= s.len(),
        forall|k: int|
            0 <= k < distinct_frames(s).len() ==> (#[trigger] distinct_frames(s)[k]).len() == cols,
    decreases s.len(),
{
    if s.len() > 0 {
        lemma_distinct_bounds(s.drop_last(), cols);
    }
}

proof fn lemma_column_sum_bound(u: Seq<Seq<i32>>, c: int)
    requires
        0 <= c,
        forall|k: int| 0 <= k < u.len() ==> c < (#[trigger] u[k]).len(),
    ensures
        -(u.len() * 0x8000_0000) <= column_sum(u, c) <= u.len() * 0x8000_0000,
    decreases u.len(),
{
    if u.len() > 0 {
        assert forall|k: int| 0 <= k < u.drop_last().len() implies c < (
        #[trigger] u.drop_last()[k]).len() by {
            assert(u.drop_last()[k] == u[k]);
        }
        lemma_column_sum_bound(u.drop_last(), c);
        assert(u.last() == u[u.len() - 1]);
    }
}

/// Computes the video digest: winner-take-all hash of the column sums of the distinct frames.
fn video_digest(frame_sigs: &[Vec<i32>], bits: u32) -> (r: Vec<u8>)
    requires
        frames_well_formed(frame_views(frame_sigs@)),
        frame_sigs@.len() <= 0xffff_ffff,
        bits % 8 == 0,
    ensures
        r@ == crate::bits::pack(
            crate::wtahash::wta_bits(video_vector(frame_views(frame_sigs@)), bits as nat),
        ),
{
    let ghost fs = frame_views(frame_sigs@);
    let cols = frame_sigs[0].len();
    // Distinct frames, in order of first appearance.
    let mut unique: Vec<&Vec<i32>> = Vec::new();
    let mut j: usize = 0;
    while j < frame_sigs.len()
        invariant
            j <= frame_sigs@.len(),
            fs == frame_views(frame_sigs@),
            unique@.map_values(|f: &Vec<i32>| f@) == distinct_frames(fs.subrange(0, j as int)),
        decreases frame_sigs@.len() - j,
    {
        let f = &frame_sigs[j];
        let ghost u = unique@.map_values(|f: &Vec<i32>| f@);
        assert(fs.subrange(0, j + 1).drop_last() =~= fs.subrange(0, j as int));
        assert(fs.subrange(0, j + 1).last() == f@);
        let mut found = false;
        let mut k: usize = 0;
        while k < unique.len()
            invariant
                k <= unique@.len(),
                u == unique@.map_values(|f: &Vec<i32>| f@),
                found == u.subrange(0, k as int).contains(f@),
            decreases unique@.len() - k,
        {
            let same = same_frame(unique[k], f);
            proof {
                assert(u.subrange(0, k + 1) =~= u.subrange(0, k as int).push(u[k as int]));
                if u.subrange(0, k as int).contains(f@) {
                    let t = choose|t: int| 0 <= t < k && #[trigger] u.subrange(0, k as int)[t] == f@;
                    assert(u.subrange(0, k + 1)[t] == f@);
                }
                if u.subrange(0, k + 1).contains(f@) && !same {
                    let t = choose|t: int| 0 <= t < k + 1 && #[trigger] u.subrange(0, k + 1)[t] == f@;
                    assert(t < k);
                    assert(u.subrange(0, k as int)[t] == f@);
                }
                if same {
                    assert(u.subrange(0, k + 1)[k as int] == f@);
                }
            }
            found = found || same;
            k = k + 1;
        }
        assert(u.subrange(0, u.len() as int) =~= u);
        if !found {
            unique.push(f);
            assert(unique@.map_values(|f: &Vec<i32>| f@) =~= u.push(f@));
        }
        j = j + 1;
    }
    assert(fs.subrange(0, fs.len() as int) =~= fs);
    let ghost du = distinct_frames(fs);
    proof {
        lemma_distinct_bounds(fs, cols as nat);
    }
    // Column-wise sums.
    let mut vecsum: Vec<i64> = Vec::new();
    let mut c: usize = 0;
    while c < cols
        invariant
            c <= cols,
            vecsum@.len() == c,
            forall|t: int| 0 <= t < c ==> vecsum@[t] == 0,
        decreases cols - c,
    {
        vecsum.push(0);
        c = c + 1;
    }
    let mut u: usize = 0;
    while u < unique.len()
        invariant
            u <= unique@.len(),
            du == unique@.map_values(|f: &Vec<i32>| f@),
            du.len() <= 0xffff_ffff,
            forall|k: int| 0 <= k < du.len() ==> (#[trigger] du[k]).len() == cols,
            vecsum@.len() == cols,
            forall|t: int| 0 <= t < cols ==> vecsum@[t] == column_sum(du.subrange(0, u as int), t),
        decreases unique@.len() - u,
    {
        let sig = unique[u];
        assert(sig@ == du[u as int]);
        let ghost sub = du.subrange(0, u + 1);
        assert(sub.drop_last() =~= du.subrange(0, u as int));
        let mut c: usize = 0;
        while c < cols
            invariant
                c <= cols,
                u < du.len(),
                du.len() <= 0xffff_ffff,
                sig@ == du[u as int],
                sig@.len() == cols,
                sub == du.subrange(0, u + 1),
                sub.drop_last() == du.subrange(0, u as int),
                forall|k: int| 0 <= k < du.len() ==> (#[trigger] du[k]).len() == cols,
                vecsum@.len() == cols,
                forall|t: int| 0 <= t < c ==> vecsum@[t] == column_sum(sub, t),
                forall|t: int| c <= t < cols ==> vecsum@[t] == column_sum(du.subrange(0, u as int), t),
            decreases cols - c,
        {
            proof {
                lemma_column_sum_bound(du.subrange(0, u as int), c as int);
                assert(u * 0x8000_0000 <= 0xffff_ffff * 0x8000_0000) by (nonlinear_arith)
                    requires
                        u <= 0xffff_ffff,
                ;
            }
            let v = vecsum[c] + sig[c] as i64;
            vecsum.set(c, v);
            c = c + 1;
        }
        u = u + 1;
    }
    assert(du.subrange(0, du.len() as int) =~= du);
    assert(vecsum@ =~= video_vector(fs));
    crate::wtahash::alg_wtahash(vecsum.as_slice(), bits)
}

/// Whether `r` is the error for a video without frames.
pub open spec fn is_no_frames_error<T>(r: Result<T, IsccError>) -> bool {
    r matches Err(IsccError::InvalidInput(m)) && m@ == "frame_sigs must not be empty"@
}

/// Whether frame signatures can be hashed: well formed and few enough for 64-bit sums.
pub open spec fn video_input_ok(frames: Seq<Seq<i32>>) -> bool {
    frames_well_formed(frames) && frames.len() <= 0xffff_ffff
}

/// Tests whether non-empty frame signatures can be hashed.
fn check_frames(frame_sigs: &[Vec<i32>]) -> (r: bool)
    requires
        frame_sigs@.len() > 0,
    ensures
        r == video_input_ok(frame_views(frame_sigs@)),
{
    let ghost fs = frame_views(frame_sigs@);
    if frame_sigs.len() > 0xffff_ffff {
        return false;
    }
    let cols = frame_sigs[0].len();
    if cols < crate::wtahash::WTA_VECTOR_LEN {
        return false;
    }
    let mut k: usize = 0;
    while k < frame_sigs.len()
        invariant
            k <= frame_sigs@.len(),
            fs == frame_views(frame_sigs@),
            cols == fs[0].len(),
            forall|j: int| 0 <= j < k ==> (#[trigger] fs[j]).len() == cols,
        decreases frame_sigs@.len() - k,
    {
        if frame_sigs[k].len() != cols {
            assert(fs[k as int].len() != fs[0].len());
            return false;
        }
        k = k + 1;
    }
    true
}

/// The video digest of `bits` bits of frame signatures. No frame, frames of unequal lengths or
/// shorter than the compared positions, and a bit count that is not whole bytes are errors.
pub fn soft_hash_video_v0(frame_sigs: &[Vec<i32>], bits: u32) -> (r: Result<Vec<u8>, IsccError>)
    ensures
        r is Ok <==> frame_sigs@.len() > 0 && video_input_ok(frame_views(frame_sigs@)) && bits % 8
            == 0,
        frame_sigs@.len() == 0 ==> is_no_frames_error(r),
        r is Ok ==> r->Ok_0@ == crate::bits::pack(
            crate::wtahash::wta_bits(video_vector(frame_views(frame_sigs@)), bits as nat),
        ),
{
    if frame_sigs.len() == 0 {
        return Err(IsccError::invalid("frame_sigs must not be empty"));
    }
    if !check_frames(frame_sigs) {
        return Err(IsccError::invalid("frame signatures must have equal lengths of at least 380"));
    }
    if bits % 8 != 0 {
        return Err(IsccError::invalid("bits must be a multiple of 8"));
    }
    Ok(video_digest(frame_sigs, bits))
}

/// Generates a Video-Code from MPEG-7 frame signatures.
pub fn gen_video_code_v0(frame_sigs: &[Vec<i32>], bits: u32) -> (r: Result<VideoCodeResult, IsccError>)
    ensures
        r is Ok <==> frame_sigs@.len() > 0 && video_input_ok(frame_views(frame_sigs@)) && encodable(
            MainType::Content,
            bits as nat,
        ),
        frame_sigs@.len() == 0 ==> is_no_frames_error(r),
        r is Ok ==> r->Ok_0.iscc@ == iscc_prefix() + component_text(
            MainType::Content,
            SubType::Video,
            bits as nat,
            crate::bits::pack(
                crate::wtahash::wta_bits(video_vector(frame_views(frame_sigs@)), bits as nat),
            ),
        ),
{
    if frame_sigs.len() == 0 {
        return Err(IsccError::invalid("frame_sigs must not be empty"));
    }
    if !check_frames(frame_sigs) {
        return Err(IsccError::invalid("frame signatures must have equal lengths of at least 380"));
    }
    if bits % 32 != 0 || bits < 32 {
        return Err(IsccError::invalid("invalid bit length (must be multiple of 32, >= 32)"));
    }
    let digest = video_digest(frame_sigs, bits);
    let component = encode_component(
        MainType::Content,
        SubType::Video,
        Version::V0,
        bits,
        digest.as_slice(),
    )?;
    Ok(VideoCodeResult { iscc: with_prefix(component.as_str()) })
}

/// The bytes that an identifier string (with or without prefix) stands for, if any: those whose
/// base32 text is the string, else those whose text is its upper-case form.
pub open spec fn code_bytes(c: Seq<char>) -> Option<Seq<u8>> {
    if exists|raw: Seq<u8>| #[trigger] base32_text(raw) == strip_iscc_prefix(c) {
        Some(choose|raw: Seq<u8>| #[trigger] base32_text(raw) == strip_iscc_prefix(c))
    } else if exists|raw: Seq<u8>| #[trigger] base32_text(raw) == upper_of(strip_iscc_prefix(c)) {
        Some(choose|raw: Seq<u8>| #[trigger] base32_text(raw) == upper_of(strip_iscc_prefix(c)))
    } else {
        None
    }
}

/// Decodes an identifier string, with or without prefix, to its bytes.
pub fn decode_code(code: &str) -> (r: Result<Vec<u8>, IsccError>)
    ensures
        r is Ok <==> code_bytes(code@) is Some,
        r is Ok ==> r->Ok_0@ == code_bytes(code@)->0,
{
    let clean = strip_prefix(code);
    let raw = decode_base32(clean)?;
    proof {
        if exists|x: Seq<u8>| #[trigger] base32_text(x) == strip_iscc_prefix(code@) {
            let c = choose|x: Seq<u8>| #[trigger] base32_text(x) == strip_iscc_prefix(code@);
            assert(base32_text(c) == clean@);
        } else {
            let c = choose|x: Seq<u8>| #[trigger] base32_text(x) == upper_of(strip_iscc_prefix(code@));
            assert(base32_text(raw@) == upper_of(strip_iscc_prefix(code@)));
            assert(base32_text(c) == upper_of(clean@));
        }
    }
    Ok(raw)
}

/// Whether a code string can take part in a Mixed-Code: it decodes to a content unit.
pub open spec fn mixable(c: Seq<char>) -> bool {
    &&& code_bytes(c) is Some
    &&& code_bytes(c)->0.len() <= MAX_CODE_BYTES
    &&& decoded_header(code_bytes(c)->0) is Some
    &&& decoded_header(code_bytes(c)->0) matches Some((m, st, v, l, t)) && m == MainType::Content
}

/// The `nbytes`-byte entry of a content unit: its first byte, then as many body bytes as fit,
/// padded with zeros.
pub open spec fn mixed_entry(raw: Seq<u8>, nbytes: nat) -> Seq<u8> {
    let body = match decoded_header(raw) {
        Some((m, st, v, l, t)) => t,
        None => seq![],
    };
    let take = if nbytes - 1 <= body.len() {
        (nbytes - 1) as nat
    } else {
        body.len()
    };
    seq![raw[0]] + body.subrange(0, take as int) + Seq::new((nbytes - 1 - take) as nat, |i: int| 0u8)
}

/// The texts of a list of string slices.
pub open spec fn str_views(codes: Seq<&str>) -> Seq<Seq<char>> {
    codes.map_values(|c: &str| c@)
}

/// The Mixed-Code digest: SimHash of the entries of the codes.
pub open spec fn mixed_digest(codes: Seq<Seq<char>>, nbytes: nat) -> Seq<u8> {
    crate::simhash::simhash(
        Seq::new(codes.len(), |i: int| mixed_entry(code_bytes(codes[i])->0, nbytes)),
    )
}

/// Generates a Mixed-Code from two or more Content-Codes by SimHash of their leading bytes.
pub fn gen_mixed_code_v0(codes: &[&str], bits: u32) -> (r: Result<MixedCodeResult, IsccError>)
    ensures
        r is Ok <==> encodable(MainType::Content, bits as nat) && codes@.len() >= 2 && forall|i: int|
            0 <= i < codes@.len() ==> mixable(#[trigger] codes@[i]@),
        r is Ok ==> r->Ok_0.iscc@ == iscc_prefix() + component_text(
            MainType::Content,
            SubType::Mixed,
            bits as nat,
            mixed_digest(str_views(codes@), (bits / 8) as nat),
        ),
        r is Ok ==> r->Ok_0.parts@.map_values(|p: String| p@) == str_views(codes@),
{
    if bits % 32 != 0 || bits < 32 {
        return Err(IsccError::invalid("invalid bit length (must be multiple of 32, >= 32)"));
    }
    if codes.len() < 2 {
        return Err(IsccError::invalid("at least 2 Content-Codes required for mixing"));
    }
    let nbytes = (bits / 8) as usize;
    let ghost cs = str_views(codes@);
    let mut prepared: Vec<Vec<u8>> = Vec::new();
    let mut i: usize = 0;
    while i < codes.len()
        invariant
            i <= codes@.len(),
            cs == str_views(codes@),
            nbytes == bits / 8,
            nbytes >= 4,
            nbytes <= 0x2000_0000,
            forall|k: int| 0 <= k < i ==> mixable(#[trigger] codes@[k]@),
            byte_views(prepared@) == Seq::new(
                i as nat,
                |k: int| mixed_entry(code_bytes(cs[k])->0, nbytes as nat),
            ),
            forall|k: int| 0 <= k < prepared@.len() ==> (#[trigger] prepared@[k])@.len() == nbytes,
        decreases codes@.len() - i,
    {
        let code = codes[i];
        assert(code@ == cs[i as int]);
        let raw = decode_code(code)?;
        if raw.len() > MAX_CODE_BYTES {
            return Err(IsccError::invalid("ISCC code too long"));
        }
        let (mtype, _stype, _ver, _blen, body) = decode_header(raw.as_slice())?;
        if mtype != MainType::Content {
            return Err(IsccError::invalid("all codes must be Content-Codes"));
        }
        proof {
            crate::codec::lemma_header_nonempty(raw@);
        }
        let take = if nbytes - 1 <= body.len() {
            nbytes - 1
        } else {
            body.len()
        };
        let mut entry: Vec<u8> = Vec::new();
        entry.push(raw[0]);
        crate::bits::append_range(&mut entry, body.as_slice(), 0, take);
        let ghost filled = entry@;
        while entry.len() < nbytes
            invariant
                filled.len() <= entry@.len() <= nbytes,
                entry@ == filled + Seq::new((entry@.len() - filled.len()) as nat, |t: int| 0u8),
            decreases nbytes - entry@.len(),
        {
            entry.push(0);
            assert(entry@ =~= filled + Seq::new((entry@.len() - filled.len()) as nat, |t: int| 0u8));
        }
        assert(entry@ =~= mixed_entry(raw@, nbytes as nat));
        let ghost prev = byte_views(prepared@);
        let ghost ev = entry@;
        prepared.push(entry);
        assert(byte_views(prepared@) =~= prev.push(ev));
        i = i + 1;
        assert(byte_views(prepared@) =~= Seq::new(
            i as nat,
            |k: int| mixed_entry(code_bytes(cs[k])->0, nbytes as nat),
        ));
    }
    let digest = crate::simhash::alg_simhash_inner(prepared.as_slice());
    let component = encode_component(
        MainType::Content,
        SubType::Mixed,
        Version::V0,
        bits,
        digest.as_slice(),
    )?;
    let mut parts: Vec<String> = Vec::new();
    let mut k: usize = 0;
    while k < codes.len()
        invariant
            k <= codes@.len(),
            parts@.map_values(|p: String| p@) == str_views(codes@).subrange(0, k as int),
        decreases codes@.len() - k,
    {
        let ghost prev = parts@.map_values(|p: String| p@);
        let p = codes[k].to_owned();
        parts.push(p);
        assert(parts@.map_values(|p: String| p@) =~= prev.push(codes@[k as int]@));
        k = k + 1;
        assert(parts@.map_values(|p: String| p@) =~= str_views(codes@).subrange(0, k as int));
    }
    assert(str_views(codes@).subrange(0, codes@.len() as int) =~= str_views(codes@));
    Ok(MixedCodeResult { iscc: with_prefix(component.as_str()), parts })
}

/// A decoded unit: main type, subtype, raw length field and body.
pub type UnitRec = (MainType, SubType, nat, Seq<u8>);

/// A decoded unit as held in memory.
pub type UnitVal = (MainType, SubType, u32, Vec<u8>);

pub open spec fn rec_main(x: UnitRec) -> MainType {
    let (m, s, l, t) = x;
    m
}

pub open spec fn rec_sub(x: UnitRec) -> SubType {
    let (m, s, l, t) = x;
    s
}

pub open spec fn rec_len(x: UnitRec) -> nat {
    let (m, s, l, t) = x;
    l
}

pub open spec fn rec_tail(x: UnitRec) -> Seq<u8> {
    let (m, s, l, t) = x;
    t
}

pub open spec fn rec_key(x: UnitRec) -> nat {
    rec_main(x).spec_value()
}

/// The spec view of a decoded unit.
pub open spec fn unit_view(x: UnitVal) -> UnitRec {
    let (m, s, l, t) = x;
    (m, s, l as nat, t@)
}

/// The spec views of a list of decoded units.
pub open spec fn unit_views(v: Seq<UnitVal>) -> Seq<UnitRec> {
    v.map_values(|x: UnitVal| unit_view(x))
}

/// The decoded unit of a code string: at least 16 bytes without prefix, decodable.
pub open spec fn unit_record(c: Seq<char>) -> Option<UnitRec> {
    if encode_utf8(strip_iscc_prefix(c)).len() < 16 {
        None
    } else {
        match code_bytes(c) {
            None => None,
            Some(raw) => if raw.len() > MAX_CODE_BYTES {
                None
            } else {
                match decoded_header(raw) {
                    None => None,
                    Some((m, s, v, l, t)) => Some((m, s, l, t)),
                }
            },
        }
    }
}

/// Position at which `x` goes into `t`, after every unit whose main type is not greater.
pub open spec fn insert_pos(x: UnitRec, t: Seq<UnitRec>) -> nat
    decreases t.len(),
{
    if t.len() == 0 || rec_key(t.last()) <= rec_key(x) {
        t.len()
    } else {
        insert_pos(x, t.drop_last())
    }
}

/// Units ordered by main type, units of equal main type kept in input order.
pub open spec fn sort_units(s: Seq<UnitRec>) -> Seq<UnitRec>
    decreases s.len(),
{
    if s.len() == 0 {
        seq![]
    } else {
        let t = sort_units(s.drop_last());
        t.insert(insert_pos(s.last(), t) as int, s.last())
    }
}

proof fn lemma_insert_pos_bound(x: UnitRec, t: Seq<UnitRec>)
    ensures
        insert_pos(x, t) <= t.len(),
    decreases t.len(),
{
    if t.len() > 0 && rec_key(t.last()) > rec_key(x) {
        lemma_insert_pos_bound(x, t.drop_last());
    }
}

proof fn lemma_sort_units_len(s: Seq<UnitRec>)
    ensures
        sort_units(s).len() == s.len(),
    decreases s.len(),
{
    if s.len() > 0 {
        lemma_sort_units_len(s.drop_last());
        lemma_insert_pos_bound(s.last(), sort_units(s.drop_last()));
    }
}

/// Subtypes of the semantic and content units, in order.
pub open spec fn content_subtypes(u: Seq<UnitRec>) -> Seq<SubType>
    decreases u.len(),
{
    if u.len() == 0 {
        seq![]
    } else {
        let rest = content_subtypes(u.drop_last());
        if rec_main(u.last()) == MainType::Semantic || rec_main(u.last()) == MainType::Content {
            rest.push(rec_sub(u.last()))
        } else {
            rest
        }
    }
}

/// Whether sorted units make a wide composite.
pub open spec fn is_wide(u: Seq<UnitRec>, wide: bool) -> bool {
    wide && u.len() == 2 && rec_main(u[0]) == MainType::Data && rec_main(u[1]) == MainType::Instance
        && length_bits(rec_main(u[0]), rec_len(u[0]), rec_sub(u[0])) >= 128 && length_bits(
        rec_main(u[1]),
        rec_len(u[1]),
        rec_sub(u[1]),
    ) >= 128
}

/// The subtype of the composite of sorted units, if they agree.
pub open spec fn composite_subtype(u: Seq<UnitRec>, wide: bool) -> Option<SubType> {
    if is_wide(u, wide) {
        Some(SubType::Wide)
    } else {
        let sc = content_subtypes(u);
        if sc.len() > 0 {
            if forall|i: int| 0 <= i < sc.len() ==> #[trigger] sc[i] == sc[0] {
                Some(sc[0])
            } else {
                None
            }
        } else if u.len() == 2 {
            Some(SubType::Sum)
        } else {
            Some(SubType::IsccNone)
        }
    }
}

/// The first `n` bytes of each unit's body (or all it has), concatenated.
pub open spec fn composite_body(u: Seq<UnitRec>, n: nat) -> Seq<u8>
    decreases u.len(),
{
    if u.len() == 0 {
        seq![]
    } else {
        let t = rec_tail(u.last());
        composite_body(u.drop_last(), n) + t.subrange(
            0,
            (if n <= t.len() {
                n
            } else {
                t.len()
            }) as int,
        )
    }
}

/// The main types of units.
pub open spec fn unit_types(u: Seq<UnitRec>) -> Seq<MainType> {
    u.map_values(|x: UnitRec| rec_main(x))
}

/// The bytes of the composite of sorted units, if they make one.
pub open spec fn composite_bytes(u: Seq<UnitRec>, wide: bool) -> Option<Seq<u8>> {
    let n = u.len();
    let types = unit_types(u);
    if n < 2 || types[n - 2] != MainType::Data || types[n - 1] != MainType::Instance {
        None
    } else if composite_subtype(u, wide) is None {
        None
    } else if !all_optional(types.subrange(0, n - 2)) {
        None
    } else {
        Some(
            header_bytes(
                MainType::Iscc.spec_value(),
                composite_subtype(u, wide)->0.spec_value(),
                0,
                units_code(types.subrange(0, n - 2)),
            ) + composite_body(
                u,
                if is_wide(u, wide) {
                    16
                } else {
                    8
                },
            ),
        )
    }
}

/// The records of all codes, if every code decodes.
pub open spec fn unit_records(codes: Seq<Seq<char>>) -> Option<Seq<UnitRec>> {
    if forall|i: int| 0 <= i < codes.len() ==> #[trigger] unit_record(codes[i]) is Some {
        Some(Seq::new(codes.len(), |i: int| unit_record(codes[i])->0))
    } else {
        None
    }
}

/// The bytes of the ISCC-CODE of `codes`, if they make one.
pub open spec fn iscc_code_bytes(codes: Seq<Seq<char>>, wide: bool) -> Option<Seq<u8>> {
    if codes.len() < 2 || unit_records(codes) is None {
        None
    } else {
        composite_bytes(sort_units(unit_records(codes)->0), wide)
    }
}

fn decode_unit(code: &str) -> (r: Result<UnitVal, IsccError>)
    ensures
        r is Ok <==> unit_record(code@) is Some,
        r is Ok ==> unit_view(r->Ok_0) == unit_record(code@)->0,
        r is Ok ==> r->Ok_0.2 <= VARNIBBLE_MAX,
{
    let clean = strip_prefix(code);
    let clean_len = clean.as_bytes().len();
    assert(clean_len == encode_utf8(strip_iscc_prefix(code@)).len());
    if clean_len < 16 {
        return Err(IsccError::invalid("ISCC unit code too short (min 16 chars)"));
    }
    let raw = decode_code(code)?;
    if raw.len() > MAX_CODE_BYTES {
        return Err(IsccError::invalid("ISCC code too long"));
    }
    let (mt, st, _vs, ln, tail) = decode_header(raw.as_slice())?;
    Ok((mt, st, ln, tail))
}

proof fn lemma_insert_pos_prefix(x: UnitRec, t: Seq<UnitRec>, p: int)
    requires
        0 <= p <= t.len(),
        forall|k: int| p <= k < t.len() ==> rec_key(#[trigger] t[k]) > rec_key(x),
    ensures
        insert_pos(x, t) == insert_pos(x, t.subrange(0, p)),
    decreases t.len(),
{
    if p < t.len() {
        assert(t.drop_last() =~= t.subrange(0, t.len() - 1));
        assert forall|k: int| p <= k < t.drop_last().len() implies rec_key(
            #[trigger] t.drop_last()[k],
        ) > rec_key(x) by {
            assert(t.drop_last()[k] == t[k]);
        }
        lemma_insert_pos_prefix(x, t.drop_last(), p);
        assert(t.drop_last().subrange(0, p) =~= t.subrange(0, p));
    } else {
        assert(t.subrange(0, p) =~= t);
    }
}

/// Generates an ISCC-CODE from unit codes: sorted by main type, Data and Instance last, the
/// subtype agreed by the content units, and the leading body bytes of each unit.
pub fn gen_iscc_code_v0(codes: &[&str], wide: bool) -> (r: Result<IsccCodeResult, IsccError>)
    ensures
        r is Ok <==> iscc_code_bytes(str_views(codes@), wide) is Some,
        r is Ok ==> r->Ok_0.iscc@ == iscc_prefix() + base32_text(
            iscc_code_bytes(str_views(codes@), wide)->0,
        ),
{
    let ghost cs = str_views(codes@);
    if codes.len() < 2 {
        return Err(IsccError::invalid("at least 2 ISCC unit codes required"));
    }
    // Decode, keeping the units sorted by main type (stable).
    let mut decoded: Vec<UnitVal> = Vec::new();
    let mut i: usize = 0;
    while i < codes.len()
        invariant
            i <= codes@.len(),
            cs == str_views(codes@),
            forall|k: int| 0 <= k < i ==> #[trigger] unit_record(cs[k]) is Some,
            unit_views(decoded@) == sort_units(
                Seq::new(i as nat, |k: int| unit_record(cs[k])->0),
            ),
            forall|k: int| 0 <= k < decoded@.len() ==> (#[trigger] decoded@[k]).2 <= VARNIBBLE_MAX,
        decreases codes@.len() - i,
    {
        assert(codes@[i as int]@ == cs[i as int]);
        let rec = decode_unit(codes[i]);
        let rec = match rec {
            Ok(x) => x,
            Err(e) => {
                proof {
                    assert(!(forall|k: int| 0 <= k < cs.len() ==> #[trigger] unit_record(cs[k]) is Some));
                }
                return Err(e);
            },
        };
        let ghost x = unit_view(rec);
        let ghost prefix = Seq::new(i as nat, |k: int| unit_record(cs[k])->0);
        let ghost t = unit_views(decoded@);
        let key = rec.0.value();
        let mut p: usize = decoded.len();
        proof {
            lemma_sort_units_len(prefix);
        }
        while p > 0 && decoded[p - 1].0.value() > key
            invariant
                p <= decoded@.len(),
                t == unit_views(decoded@),
                key == rec_key(x),
                forall|k: int| p <= k < t.len() ==> rec_key(#[trigger] t[k]) > rec_key(x),
            decreases p,
        {
            p = p - 1;
        }
        proof {
            lemma_insert_pos_prefix(x, t, p as int);
            if p > 0 {
                assert(t.subrange(0, p as int).last() == t[p - 1]);
            }
            assert(insert_pos(x, t.subrange(0, p as int)) == p);
            let next = Seq::new((i + 1) as nat, |k: int| unit_record(cs[k])->0);
            assert(next.drop_last() =~= prefix);
            assert(next.last() == x);
        }
        decoded.insert(p, rec);
        proof {
            assert(unit_views(decoded@) =~= t.insert(p as int, x));
        }
        i = i + 1;
    }
    let ghost recs = Seq::new(codes@.len(), |k: int| unit_record(cs[k])->0);
    assert(unit_records(cs) == Some(recs));
    let ghost u = sort_units(recs);
    proof {
        lemma_sort_units_len(recs);
    }
    let n = decoded.len();
    assert(u.len() == n);
    let ghost types = unit_types(u);
    if decoded[n - 2].0 != MainType::Data || decoded[n - 1].0 != MainType::Instance {
        assert(types[n - 2] == rec_main(u[n - 2]));
        return Err(IsccError::invalid("Data-Code and Instance-Code are mandatory"));
    }
    let is_wide_mode = wide && n == 2 && decode_length(decoded[0].0, decoded[0].2, decoded[0].1)
        >= 128 && decode_length(decoded[1].0, decoded[1].2, decoded[1].1) >= 128;
    assert(is_wide_mode == is_wide(u, wide));
    let st: SubType;
    if is_wide_mode {
        st = SubType::Wide;
    } else {
        let mut sc_first: Option<SubType> = None;
        let mut agree = true;
        let mut k: usize = 0;
        while k < n
            invariant
                k <= n,
                n == decoded@.len(),
                u == unit_views(decoded@),
                sc_first matches Some(f) ==> content_subtypes(u.subrange(0, k as int)).len() > 0
                    && f == content_subtypes(u.subrange(0, k as int))[0],
                sc_first is None ==> content_subtypes(u.subrange(0, k as int)).len() == 0,
                agree == forall|j: int|
                    0 <= j < content_subtypes(u.subrange(0, k as int)).len() ==> #[trigger] content_subtypes(
                        u.subrange(0, k as int),
                    )[j] == content_subtypes(u.subrange(0, k as int))[0],
            decreases n - k,
        {
            let ghost before = content_subtypes(u.subrange(0, k as int));
            assert(u.subrange(0, k + 1).drop_last() =~= u.subrange(0, k as int));
            assert(u.subrange(0, k + 1).last() == unit_view(decoded@[k as int]));
            let m = decoded[k].0;
            if m == MainType::Semantic || m == MainType::Content {
                let s1 = decoded[k].1;
                match sc_first {
                    Some(f) => {
                        let ghost after = before.push(s1);
                        assert(content_subtypes(u.subrange(0, k + 1)) == after);
                        assert(after[0] == before[0]);
                        if s1 != f {
                            agree = false;
                            assert(after[after.len() - 1] != after[0]);
                        } else {
                            proof {
                                if agree {
                                    assert forall|j: int| 0 <= j < after.len() implies #[trigger] after[j]
                                        == after[0] by {
                                        if j < before.len() {
                                            assert(after[j] == before[j]);
                                        }
                                    }
                                } else {
                                    let j = choose|j: int|
                                        0 <= j < before.len() && #[trigger] before[j] != before[0];
                                    assert(after[j] == before[j]);
                                }
                            }
                        }
                    },
                    None => {
                        sc_first = Some(s1);
                        assert(before.push(s1) =~= seq![s1]);
                    },
                }
            }
            k = k + 1;
        }
        assert(u.subrange(0, n as int) =~= u);
        match sc_first {
            Some(f) => {
                if !agree {
                    return Err(IsccError::invalid("mixed SubTypes among Content/Semantic units"));
                }
                st = f;
            },
            None => {
                if n == 2 {
                    st = SubType::Sum;
                } else {
                    st = SubType::IsccNone;
                }
            },
        }
    }
    assert(composite_subtype(u, wide) == Some(st));
    let mut optional: Vec<MainType> = Vec::new();
    let mut k: usize = 0;
    while k < n - 2
        invariant
            k <= n - 2,
            n == decoded@.len(),
            u == unit_views(decoded@),
            types == unit_types(u),
            optional@ == types.subrange(0, k as int),
        decreases n - 2 - k,
    {
        optional.push(decoded[k].0);
        k = k + 1;
        assert(optional@ =~= types.subrange(0, k as int));
    }
    let encoded_length = encode_units(optional.as_slice())?;
    let bytes_per_unit: usize = if is_wide_mode {
        16
    } else {
        8
    };
    let mut code_bytes: Vec<u8> = encode_header(MainType::Iscc, st, Version::V0, encoded_length)?;
    let ghost header = code_bytes@;
    let mut k: usize = 0;
    while k < n
        invariant
            k <= n,
            n == decoded@.len(),
            u == unit_views(decoded@),
            code_bytes@ == header + composite_body(u.subrange(0, k as int), bytes_per_unit as nat),
        decreases n - k,
    {
        let tail = decoded[k].3.as_slice();
        let take = if bytes_per_unit <= tail.len() {
            bytes_per_unit
        } else {
            tail.len()
        };
        assert(u.subrange(0, k + 1).drop_last() =~= u.subrange(0, k as int));
        assert(u.subrange(0, k + 1).last() == unit_view(decoded@[k as int]));
        crate::bits::append_range(&mut code_bytes, tail, 0, take);
        k = k + 1;
    }
    assert(u.subrange(0, n as int) =~= u);
    let code = crate::encoding::encode_base32(code_bytes.as_slice());
    Ok(IsccCodeResult { iscc: with_prefix(code.as_str()) })
}

/// Whether the main types strictly increase.
pub open spec fn strictly_increasing(t: Seq<MainType>) -> bool {
    forall|i: int, j: int| 0 <= i < j < t.len() ==> #[trigger] t[i].spec_value() < #[trigger] t[j].spec_value()
}

proof fn lemma_units_of_code(t: Seq<MainType>)
    requires
        all_optional(t),
        strictly_increasing(t),
    ensures
        crate::codec::units_of(units_code(t)) == t,
{
    let m = MainType::Meta;
    let s = MainType::Semantic;
    let c = MainType::Content;
    assert(t.len() <= 3) by {
        if t.len() > 3 {
            assert(t[0].spec_value() < t[1].spec_value());
            assert(t[1].spec_value() < t[2].spec_value());
            assert(t[2].spec_value() < t[3].spec_value());
        }
    }
    if t.len() >= 2 {
        assert(t[0].spec_value() < t[1].spec_value());
    }
    if t.len() == 3 {
        assert(t[1].spec_value() < t[2].spec_value());
    }
    if t.len() == 0 {
        assert(crate::codec::units_of(0) =~= t);
    } else if t.len() == 1 {
        assert(t =~= seq![t[0]]);
        assert(t.contains(t[0]));
        if t[0] == m {
            assert(!t.contains(s) && !t.contains(c));
            assert(crate::codec::units_of(4) =~= t);
        } else if t[0] == s {
            assert(!t.contains(m) && !t.contains(c));
            assert(crate::codec::units_of(2) =~= t);
        } else {
            assert(!t.contains(m) && !t.contains(s));
            assert(crate::codec::units_of(1) =~= t);
        }
    } else if t.len() == 2 {
        assert(t.contains(t[0]) && t.contains(t[1]));
        if t[0] == m && t[1] == s {
            assert(!t.contains(c));
            assert(crate::codec::units_of(6) =~= t);
        } else if t[0] == m && t[1] == c {
            assert(!t.contains(s));
            assert(crate::codec::units_of(5) =~= t);
        } else {
            assert(t[0] == s && t[1] == c);
            assert(!t.contains(m));
            assert(crate::codec::units_of(3) =~= t);
        }
    } else {
        assert(t[0] == m && t[1] == s && t[2] == c);
        assert(t.contains(t[0]) && t.contains(t[1]) && t.contains(t[2]));
        assert(crate::codec::units_of(7) =~= t);
    }
}

proof fn lemma_composite_body_parts(u: Seq<UnitRec>)
    requires
        forall|k: int| 0 <= k < u.len() ==> rec_tail(#[trigger] u[k]).len() >= 8,
    ensures
        composite_body(u, 8).len() == 8 * u.len(),
        forall|k: int|
            0 <= k < u.len() ==> composite_body(u, 8).subrange(8 * k, 8 * k + 8) == rec_tail(
                #[trigger] u[k],
            ).subrange(0, 8),
    decreases u.len(),
{
    if u.len() > 0 {
        let w = u.drop_last();
        assert forall|k: int| 0 <= k < w.len() implies rec_tail(#[trigger] w[k]).len() >= 8 by {
            assert(w[k] == u[k]);
        }
        lemma_composite_body_parts(w);
        let b = composite_body(u, 8);
        let bw = composite_body(w, 8);
        let last = rec_tail(u.last()).subrange(0, 8);
        assert(b == bw + last);
        assert forall|k: int| 0 <= k < u.len() implies b.subrange(8 * k, 8 * k + 8) == rec_tail(
            #[trigger] u[k],
        ).subrange(0, 8) by {
            if k < w.len() {
                assert(w[k] == u[k]);
                assert(b.subrange(8 * k, 8 * k + 8) =~= bw.subrange(8 * k, 8 * k + 8));
            } else {
                assert(b.subrange(8 * k, 8 * k + 8) =~= last);
            }
        }
    }
}

/// The subtype that decomposition gives the `k`-th unit of a composite of subtype `st`.
pub open spec fn decomposed_subtype(m: MainType, st: SubType) -> SubType {
    if m == MainType::Semantic || m == MainType::Content {
        st
    } else {
        SubType::Unspecified
    }
}

proof fn lemma_component_prefix(m: MainType, s: SubType, d: Seq<u8>, t: Seq<u8>)
    requires
        d.len() >= 8,
        t.len() == 8,
        d.subrange(0, 8) == t,
    ensures
        component_text(m, s, 64, d) == component_text(m, s, 64, t),
{
    reveal(crate::codec::component_bytes);
    assert(t.subrange(0, 8) =~= t);
}

proof fn lemma_composite_entry(u: Seq<UnitRec>, st: SubType, body: Seq<u8>, k: int)
    requires
        u.len() >= 2,
        0 <= k < u.len(),
        body.len() == 8 * u.len(),
        body.subrange(8 * k, 8 * k + 8) == rec_tail(u[k]).subrange(0, 8),
        k < u.len() - 2 ==> rec_main(u[k]) == MainType::Meta || rec_main(u[k]) == MainType::Semantic
            || rec_main(u[k]) == MainType::Content,
        k == u.len() - 2 ==> rec_main(u[k]) == MainType::Data,
        k == u.len() - 1 ==> rec_main(u[k]) == MainType::Instance,
    ensures
        (if k < u.len() - 2 {
            component_text(
                rec_main(u[k]),
                if rec_main(u[k]) == MainType::Meta {
                    SubType::Unspecified
                } else {
                    st
                },
                64,
                body.subrange(8 * k, body.len() as int),
            )
        } else if k == u.len() - 2 {
            component_text(
                MainType::Data,
                SubType::Unspecified,
                64,
                body.subrange(body.len() - 16, body.len() - 8),
            )
        } else {
            component_text(
                MainType::Instance,
                SubType::Unspecified,
                64,
                body.subrange(body.len() - 8, body.len() as int),
            )
        }) == component_text(
            rec_main(u[k]),
            decomposed_subtype(rec_main(u[k]), st),
            64,
            rec_tail(u[k]).subrange(0, 8),
        ),
{
    let tk = rec_tail(u[k]).subrange(0, 8);
    if k < u.len() - 2 {
        let d = body.subrange(8 * k, body.len() as int);
        assert(d.subrange(0, 8) =~= tk);
        lemma_component_prefix(
            rec_main(u[k]),
            decomposed_subtype(rec_main(u[k]), st),
            d,
            tk,
        );
    } else if k == u.len() - 2 {
        let d = body.subrange(body.len() - 16, body.len() - 8);
        assert(d.subrange(0, 8) =~= tk);
        lemma_component_prefix(MainType::Data, SubType::Unspecified, d, tk);
    } else {
        let d = body.subrange(body.len() - 8, body.len() as int);
        assert(d.subrange(0, 8) =~= tk);
        lemma_component_prefix(MainType::Instance, SubType::Unspecified, d, tk);
    }
}

/// Decomposing the bytes of a (not wide) composite of sorted units of distinct main types,
/// each with at least 8 body bytes, gives back one 64-bit unit string per unit, in order:
/// the unit's main type, the composite's subtype for semantic and content units, and the
/// unit's first 8 body bytes.
#[verifier::rlimit(50)]
pub proof fn lemma_decompose_composite(u: Seq<UnitRec>, wide: bool)
    requires
        composite_bytes(u, wide) is Some,
        !is_wide(u, wide),
        composite_subtype(u, wide) != Some(SubType::Wide),
        strictly_increasing(unit_types(u).subrange(0, u.len() - 2)),
        forall|k: int| 0 <= k < u.len() ==> rec_tail(#[trigger] u[k]).len() >= 8,
    ensures
        crate::codec::decompose_units(composite_bytes(u, wide)->0) == Some(
            Seq::new(
                u.len(),
                |k: int|
                    component_text(
                        rec_main(u[k]),
                        decomposed_subtype(rec_main(u[k]), composite_subtype(u, wide)->0),
                        64,
                        rec_tail(u[k]).subrange(0, 8),
                    ),
            ),
        ),
{
    let n = u.len();
    let types = unit_types(u);
    let opt = types.subrange(0, n - 2);
    let st = composite_subtype(u, wide)->0;
    let l = units_code(opt);
    let body = composite_body(u, 8);
    let bytes = composite_bytes(u, wide)->0;
    assert(bytes == header_bytes(MainType::Iscc.spec_value(), st.spec_value(), 0, l) + body);
    crate::codec::lemma_header_then_body(MainType::Iscc, st, l, body);
    crate::codec::lemma_header_nonempty(bytes);
    assert(crate::codec::decompose_units(bytes) == crate::codec::composite_units(st, l, body));
    lemma_units_of_code(opt);
    lemma_composite_body_parts(u);
    let expected = Seq::new(
        n,
        |k: int|
            component_text(
                rec_main(u[k]),
                decomposed_subtype(rec_main(u[k]), st),
                64,
                rec_tail(u[k]).subrange(0, 8),
            ),
    );
    reveal(crate::codec::composite_units);
    let units = crate::codec::units_of(l);
    assert(units == opt);
    let got = crate::codec::composite_units(st, l, body)->0;
    assert(got.len() == n);
    assert forall|k: int| 0 <= k < n implies got[k] == expected[k] by {
        assert(types[k] == rec_main(u[k]));
        if k < n - 2 {
            assert(opt[k] == types[k]);
        }
        lemma_composite_entry(u, st, body, k);
    }
    assert(got =~= expected);
}

/// Decomposing the bytes of a wide composite gives back the two 128-bit unit strings of its
/// Data and Instance units, from their first 16 body bytes.
pub proof fn lemma_decompose_wide(u: Seq<UnitRec>, wide: bool)
    requires
        composite_bytes(u, wide) is Some,
        is_wide(u, wide),
        rec_tail(u[0]).len() >= 16,
        rec_tail(u[1]).len() >= 16,
    ensures
        crate::codec::decompose_units(composite_bytes(u, wide)->0) == Some(
            seq![
                component_text(MainType::Data, SubType::Unspecified, 128, rec_tail(u[0]).subrange(0, 16)),
                component_text(MainType::Instance, SubType::Unspecified, 128, rec_tail(u[1]).subrange(0, 16)),
            ],
        ),
{
    let types = unit_types(u);
    let opt = types.subrange(0, 0);
    assert(opt =~= Seq::<MainType>::empty());
    assert(units_code(opt) == 0);
    let body = composite_body(u, 16);
    let t0 = rec_tail(u[0]).subrange(0, 16);
    let t1 = rec_tail(u[1]).subrange(0, 16);
    let w = u.drop_last();
    assert(w.len() == 1);
    assert(w.drop_last() =~= Seq::<UnitRec>::empty());
    assert(w.last() == u[0]);
    assert(composite_body(w.drop_last(), 16) == Seq::<u8>::empty());
    assert(composite_body(w, 16) == composite_body(w.drop_last(), 16) + t0);
    assert(composite_body(w, 16) =~= t0);
    assert(u.last() == u[1]);
    assert(body =~= t0 + t1);
    let bytes = composite_bytes(u, wide)->0;
    assert(bytes == header_bytes(MainType::Iscc.spec_value(), SubType::Wide.spec_value(), 0, 0) + body);
    crate::codec::lemma_header_then_body(MainType::Iscc, SubType::Wide, 0, body);
    crate::codec::lemma_header_nonempty(bytes);
    assert(crate::codec::decompose_units(bytes) == crate::codec::composite_units(SubType::Wide, 0, body));
    reveal(crate::codec::composite_units);
    assert(body.subrange(0, 16) =~= t0);
    assert(body.subrange(16, 32) =~= t1);
}

} // verus!
