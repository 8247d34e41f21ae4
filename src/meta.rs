//! Meta-Codes: similarity hashes of a name, a description and metadata.
use crate::codec::{component_text, encodable, encode_component, iscc_prefix, MainType, SubType, Version};
use crate::digest::{blake3_hash, blake3_of, multi_hash_blake3, multihash_text};
use crate::encoding::{base64_decode_of, base64_text, decode_base64_padded, encode_base64_padded};
use crate::generate::{with_prefix, MetaCodeResult, META_TRIM_DESCRIPTION, META_TRIM_NAME};
use crate::simhash::{alg_simhash_inner, byte_views, equal_lengths, simhash, sliding_window, sliding_window_bytes, windows};
use crate::text::{
    clean_text, collapse_text, join_with, string_from_chars, text_clean, text_collapse,
    text_remove_newlines, text_strip, text_trim, trim, utf8_prefix, words,
};
use crate::IsccError;
use vstd::prelude::*;
use vstd::utf8::encode_utf8;

verus! {

#[verifier::external_type_specification]
#[verifier::external_body]
pub struct ExJsonError(serde_json::Error);

/// The canonical serialization of JSON text (keys sorted, compact), if it parses.
pub uninterp spec fn json_canonical_of(s: Seq<char>) -> Option<Seq<u8>>;

/// Whether JSON text parses to an object that has the key `key`.
pub uninterp spec fn json_has_key_of(s: Seq<char>, key: Seq<char>) -> bool;

/// Relies on serde_json::from_str to a Value and serde_json::to_vec: the value written back
/// compactly, object keys in sorted order.
#[verifier::external_body]
fn json_canonical(s: &str) -> (r: Result<Vec<u8>, serde_json::Error>)
    ensures
        r is Ok <==> json_canonical_of(s@) is Some,
        r is Ok ==> r->Ok_0@ == json_canonical_of(s@)->0,
{
    serde_json::from_str::<serde_json::Value>(s).and_then(|v| serde_json::to_vec(&v))
}

/// Relies on serde_json::from_str to a Value and Value::get: whether the value has `key`.
#[verifier::external_body]
fn json_has_key(s: &str, key: &str) -> (r: bool)
    ensures
        r == json_has_key_of(s@, key@),
{
    serde_json::from_str::<serde_json::Value>(s).map(|v| v.get(key).is_some()).unwrap_or(false)
}

/// The normalized name: cleaned, on one line, at most 128 bytes, trimmed.
pub open spec fn meta_name(s: Seq<char>) -> Seq<char> {
    trim(utf8_prefix(join_with(words(clean_text(s)), ' '), META_TRIM_NAME as nat))
}

/// The normalized description: cleaned, at most 4096 bytes, trimmed.
pub open spec fn meta_description(s: Seq<char>) -> Seq<char> {
    trim(utf8_prefix(clean_text(s), META_TRIM_DESCRIPTION as nat))
}

/// SimHash of the BLAKE3 hashes of the 3-character n-grams of collapsed text.
pub open spec fn text_simhash(t: Seq<char>) -> Seq<u8> {
    simhash(windows(collapse_text(t), 3).map_values(|ng: Seq<char>| blake3_of(encode_utf8(ng))))
}

/// SimHash of the BLAKE3 hashes of the 4-byte n-grams of `b`.
pub open spec fn bytes_simhash(b: Seq<u8>) -> Seq<u8> {
    simhash(windows(b, 4).map_values(|ng: Seq<u8>| blake3_of(ng)))
}

/// The first 16 bytes of `a` and of `b` in alternating 4-byte stripes.
pub open spec fn interleave(a: Seq<u8>, b: Seq<u8>) -> Seq<u8> {
    Seq::new(
        32,
        |i: int|
            if (i / 4) % 2 == 0 {
                a[(i / 8) * 4 + i % 4]
            } else {
                b[(i / 8) * 4 + i % 4]
            },
    )
}

/// The prefix of a Data-URL.
pub open spec fn data_prefix() -> Seq<char> {
    seq!['d', 'a', 't', 'a', ':']
}

/// Whether `s` starts with `"data:"`.
pub open spec fn is_data_url(s: Seq<char>) -> bool {
    s.len() >= 5 && s.subrange(0, 5) == data_prefix()
}

/// What follows the first comma of `s`, if it has one.
pub open spec fn after_comma(s: Seq<char>) -> Option<Seq<char>>
    decreases s.len(),
{
    if s.len() == 0 {
        None
    } else if s[0] == ',' {
        Some(s.subrange(1, s.len() as int))
    } else {
        after_comma(s.subrange(1, s.len() as int))
    }
}

/// The metadata bytes: the payload of a Data-URL, else canonical JSON; `None` if malformed.
pub open spec fn meta_bytes(m: Seq<char>) -> Option<Seq<u8>> {
    if is_data_url(m) {
        match after_comma(m) {
            None => None,
            Some(p) => base64_decode_of(p),
        }
    } else {
        json_canonical_of(m)
    }
}

/// The metadata payload (`Some(None)` for none), or `None` where the metadata is malformed.
pub open spec fn meta_payload(meta: Option<Seq<char>>) -> Option<Option<Seq<u8>>> {
    match meta {
        None => Some(None),
        Some(m) => match meta_bytes(m) {
            None => None,
            Some(b) => if is_data_url(m) && b.len() == 0 {
                Some(None)
            } else {
                Some(Some(b))
            },
        },
    }
}

/// The Data-URL reported for metadata `m` with payload `p`.
pub open spec fn meta_url(m: Seq<char>, p: Seq<u8>) -> Seq<char> {
    if is_data_url(m) {
        m
    } else {
        data_prefix() + (if json_has_key_of(m, "@context"@) {
            "application/ld+json"@
        } else {
            "application/json"@
        }) + ";base64,"@ + base64_text(p)
    }
}

/// The Meta-Code digest of normalized name and description and an optional payload.
pub open spec fn meta_digest(name: Seq<char>, desc: Seq<char>, payload: Option<Seq<u8>>) -> Seq<u8> {
    match payload {
        Some(p) => interleave(text_simhash(name), bytes_simhash(p)),
        None => if desc.len() == 0 {
            text_simhash(name)
        } else {
            interleave(text_simhash(name), text_simhash(desc))
        },
    }
}

/// The metahash of normalized name and description and an optional payload.
pub open spec fn meta_hash(name: Seq<char>, desc: Seq<char>, payload: Option<Seq<u8>>) -> Seq<char> {
    match payload {
        Some(p) => multihash_text(p),
        None => multihash_text(
            encode_utf8(
                trim(
                    if desc.len() == 0 {
                        name
                    } else {
                        name + seq![' '] + desc
                    },
                ),
            ),
        ),
    }
}

/// The view of an optional string slice.
pub open spec fn opt_view(o: Option<&str>) -> Option<Seq<char>> {
    match o {
        Some(s) => Some(s@),
        None => None,
    }
}

/// Interleaves the first 16 bytes of two digests in 4-byte stripes.
pub fn interleave_digests(a: &[u8], b: &[u8]) -> (r: Vec<u8>)
    requires
        a@.len() >= 16,
        b@.len() >= 16,
    ensures
        r@ == interleave(a@, b@),
{
    let mut result: Vec<u8> = Vec::new();
    let mut i: usize = 0;
    while i < 32
        invariant
            i <= 32,
            a@.len() >= 16,
            b@.len() >= 16,
            result@ == interleave(a@, b@).subrange(0, i as int),
        decreases 32 - i,
    {
        let src = (i / 8) * 4 + i % 4;
        let v = if (i / 4) % 2 == 0 {
            a[src]
        } else {
            b[src]
        };
        result.push(v);
        i = i + 1;
        assert(result@ =~= interleave(a@, b@).subrange(0, i as int));
    }
    result
}

fn text_ngram_simhash(text: &str) -> (r: Vec<u8>)
    ensures
        r@ == text_simhash(text@),
        r@.len() == 32,
{
    let collapsed = text_collapse(text);
    let ngrams = match sliding_window(collapsed.as_str(), 3) {
        Ok(v) => v,
        Err(_) => Vec::new(),
    };
    let ghost wins = windows(collapsed@, 3);
    let mut hashes: Vec<Vec<u8>> = Vec::new();
    let mut i: usize = 0;
    while i < ngrams.len()
        invariant
            i <= ngrams@.len(),
            ngrams@.map_values(|w: String| w@) == wins,
            byte_views(hashes@) == wins.subrange(0, i as int).map_values(
                |ng: Seq<char>| blake3_of(encode_utf8(ng)),
            ),
            forall|k: int| 0 <= k < hashes@.len() ==> (#[trigger] hashes@[k])@.len() == 32,
        decreases ngrams@.len() - i,
    {
        let ng = ngrams[i].as_str();
        assert(ng@ == wins[i as int]);
        let h = blake3_hash(ng.as_bytes());
        let ghost prev = byte_views(hashes@);
        let ghost hv = h@;
        hashes.push(h);
        assert(byte_views(hashes@) =~= prev.push(hv));
        i = i + 1;
        assert(byte_views(hashes@) =~= wins.subrange(0, i as int).map_values(
            |ng: Seq<char>| blake3_of(encode_utf8(ng)),
        ));
    }
    assert(wins.subrange(0, wins.len() as int) =~= wins);
    let r = alg_simhash_inner(hashes.as_slice());
    assert(wins.len() > 0);
    r
}

fn bytes_ngram_simhash(data: &[u8]) -> (r: Vec<u8>)
    ensures
        r@ == bytes_simhash(data@),
        r@.len() == 32,
{
    let ngrams = match sliding_window_bytes(data, 4) {
        Ok(v) => v,
        Err(_) => Vec::new(),
    };
    let ghost wins = windows(data@, 4);
    let mut hashes: Vec<Vec<u8>> = Vec::new();
    let mut i: usize = 0;
    while i < ngrams.len()
        invariant
            i <= ngrams@.len(),
            byte_views(ngrams@) == wins,
            byte_views(hashes@) == wins.subrange(0, i as int).map_values(|ng: Seq<u8>| blake3_of(ng)),
            forall|k: int| 0 <= k < hashes@.len() ==> (#[trigger] hashes@[k])@.len() == 32,
        decreases ngrams@.len() - i,
    {
        let ng = ngrams[i].as_slice();
        assert(ng@ == wins[i as int]);
        let h = blake3_hash(ng);
        let ghost prev = byte_views(hashes@);
        let ghost hv = h@;
        hashes.push(h);
        assert(byte_views(hashes@) =~= prev.push(hv));
        i = i + 1;
        assert(byte_views(hashes@) =~= wins.subrange(0, i as int).map_values(
            |ng: Seq<u8>| blake3_of(ng),
        ));
    }
    assert(wins.subrange(0, wins.len() as int) =~= wins);
    let r = alg_simhash_inner(hashes.as_slice());
    assert(wins.len() > 0);
    r
}

/// Whether `s` starts with `"data:"`.
fn starts_with_data(s: &str) -> (r: bool)
    ensures
        r == is_data_url(s@),
{
    let n = s.unicode_len();
    if n >= 5 && s.get_char(0) == 'd' && s.get_char(1) == 'a' && s.get_char(2) == 't' && s.get_char(3)
        == 'a' && s.get_char(4) == ':' {
        assert(s@.subrange(0, 5) =~= data_prefix());
        true
    } else {
        proof {
            if n >= 5 && s@.subrange(0, 5) == data_prefix() {
                assert(s@[0] == s@.subrange(0, 5)[0]);
                assert(s@[1] == s@.subrange(0, 5)[1]);
                assert(s@[2] == s@.subrange(0, 5)[2]);
                assert(s@[3] == s@.subrange(0, 5)[3]);
                assert(s@[4] == s@.subrange(0, 5)[4]);
            }
        }
        false
    }
}

/// Decodes the base64 payload after the first comma of a Data-URL.
pub fn decode_data_url(data_url: &str) -> (r: Result<Vec<u8>, IsccError>)
    ensures
        r is Ok <==> (after_comma(data_url@) matches Some(p) && base64_decode_of(p) is Some),
        r is Ok ==> r->Ok_0@ == base64_decode_of(after_comma(data_url@)->0)->0,
{
    let n = data_url.unicode_len();
    let mut i: usize = 0;
    assert(data_url@.subrange(0, n as int) =~= data_url@);
    while i < n && data_url.get_char(i) != ','
        invariant
            i <= n,
            n == data_url@.len(),
            after_comma(data_url@) == after_comma(data_url@.subrange(i as int, n as int)),
        decreases n - i,
    {
        assert(data_url@.subrange(i as int, n as int).subrange(1, n - i) =~= data_url@.subrange(
            i + 1,
            n as int,
        ));
        i = i + 1;
    }
    if i == n {
        assert(data_url@.subrange(i as int, n as int).len() == 0);
        return Err(IsccError::invalid("Data-URL missing comma separator"));
    }
    let payload = data_url.substring_char(i + 1, n);
    assert(data_url@.subrange(i as int, n as int).subrange(1, n - i) =~= payload@);
    decode_base64_padded(payload)
}

/// Builds the Data-URL of canonical JSON bytes.
fn build_meta_data_url(json_bytes: &[u8], meta_str: &str) -> (r: String)
    ensures
        r@ == data_prefix() + (if json_has_key_of(meta_str@, "@context"@) {
            "application/ld+json"@
        } else {
            "application/json"@
        }) + ";base64,"@ + base64_text(json_bytes@),
{
    let media_type = if json_has_key(meta_str, "@context") {
        "application/ld+json"
    } else {
        "application/json"
    };
    let b64 = encode_base64_padded(json_bytes);
    let head = String::from_str("data:");
    proof {
        reveal_strlit("data:");
    }
    assert(head@ =~= data_prefix());
    let with_type = head.concat(media_type);
    let with_sep = with_type.concat(";base64,");
    with_sep.concat(b64.as_str())
}

/// Generates a Meta-Code from a name, an optional description and optional metadata (a
/// Data-URL or JSON text).
pub fn gen_meta_code_v0(name: &str, description: Option<&str>, meta: Option<&str>, bits: u32) -> (r:
    Result<MetaCodeResult, IsccError>)
    ensures
        r is Ok <==> meta_name(name@).len() > 0 && meta_payload(opt_view(meta)) is Some && encodable(
            MainType::Meta,
            bits as nat,
        ),
        r is Ok ==> ({
            let n = meta_name(name@);
            let d = match description {
                Some(s) => meta_description(s@),
                None => meta_description(Seq::<char>::empty()),
            };
            let p = meta_payload(opt_view(meta))->0;
            let res = r->Ok_0;
            &&& res.iscc@ == iscc_prefix() + component_text(
                MainType::Meta,
                SubType::Unspecified,
                bits as nat,
                meta_digest(n, d, p),
            )
            &&& res.name@ == n
            &&& (res.description matches Some(x) ==> x@ == d && d.len() > 0)
            &&& (res.description is None ==> d.len() == 0)
            &&& res.metahash@ == meta_hash(n, d, p)
            &&& (p matches Some(pb) ==> res.meta matches Some(u) && u@ == meta_url(meta->0@, pb))
            &&& (p is None ==> res.meta is None)
        }),
{
    let ghost name_in = name;
    let cleaned = text_clean(name);
    let one_line = text_remove_newlines(cleaned.as_str());
    let name = text_trim(one_line.as_str(), META_TRIM_NAME);
    if name.as_str().unicode_len() == 0 {
        return Err(IsccError::invalid("name is empty after normalization"));
    }
    let desc_clean = match description {
        Some(d) => text_clean(d),
        None => {
            let empty = String::new();
            text_clean(empty.as_str())
        },
    };
    let desc = text_trim(desc_clean.as_str(), META_TRIM_DESCRIPTION);
    let has_desc = desc.as_str().unicode_len() > 0;
    let mut payload: Option<Vec<u8>> = None;
    let mut meta_value: Option<String> = None;
    match meta {
        Some(meta_str) => {
            if starts_with_data(meta_str) {
                let decoded = decode_data_url(meta_str)?;
                if decoded.len() > 0 {
                    payload = Some(decoded);
                    meta_value = Some(meta_str.to_owned());
                }
            } else {
                let bytes = match json_canonical(meta_str) {
                    Ok(b) => b,
                    Err(_) => {
                        return Err(IsccError::invalid("invalid JSON in meta"));
                    },
                };
                meta_value = Some(build_meta_data_url(bytes.as_slice(), meta_str));
                payload = Some(bytes);
            }
        },
        None => {},
    }
    let name_hash = text_ngram_simhash(name.as_str());
    let digest: Vec<u8>;
    let metahash: String;
    match &payload {
        Some(p) => {
            let meta_hash = bytes_ngram_simhash(p.as_slice());
            digest = interleave_digests(name_hash.as_slice(), meta_hash.as_slice());
            metahash = multi_hash_blake3(p.as_slice());
        },
        None => {
            if has_desc {
                let desc_hash = text_ngram_simhash(desc.as_str());
                digest = interleave_digests(name_hash.as_slice(), desc_hash.as_slice());
                let spaced = name.clone().concat(" ");
                let joined = spaced.concat(desc.as_str());
                proof {
                    reveal_strlit(" ");
                }
                assert(joined@ =~= name@ + seq![' '] + desc@);
                let trimmed = text_strip(joined.as_str());
                metahash = multi_hash_blake3(trimmed.as_str().as_bytes());
            } else {
                digest = name_hash;
                let trimmed = text_strip(name.as_str());
                metahash = multi_hash_blake3(trimmed.as_str().as_bytes());
            }
        },
    }
    let ghost n = meta_name(name_in@);
    let ghost d = match description {
        Some(s) => meta_description(s@),
        None => meta_description(Seq::<char>::empty()),
    };
    let ghost pp = meta_payload(opt_view(meta))->0;
    assert(name@ == n);
    assert(desc@ == d);
    assert(has_desc == (d.len() > 0));
    assert(payload matches Some(v) ==> pp == Some(v@));
    assert(payload is None ==> pp is None);
    assert(digest@ == meta_digest(n, d, pp));
    assert(metahash@ == meta_hash(n, d, pp));
    assert(pp matches Some(pb) ==> meta_value matches Some(u) && u@ == meta_url(meta->0@, pb));
    let component = encode_component(
        MainType::Meta,
        SubType::Unspecified,
        Version::V0,
        bits,
        digest.as_slice(),
    )?;
    Ok(
        MetaCodeResult {
            iscc: with_prefix(component.as_str()),
            name,
            description: if has_desc {
                Some(desc)
            } else {
                None
            },
            meta: meta_value,
            metahash,
        },
    )
}

} // verus!
