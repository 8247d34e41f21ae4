//! Bit-majority SimHash over equal-length digests, and sliding-window n-grams.
use crate::bits::{bit_at, bits_to_bytes, get_bit, pack, pad_bits};
use crate::IsccError;
use vstd::prelude::*;

verus! {

/// Whether all digests have the length of the first.
pub open spec fn equal_lengths(ds: Seq<Seq<u8>>) -> bool {
    forall|k: int| 0 <= k < ds.len() ==> #[trigger] ds[k].len() == ds[0].len()
}

/// Number of digests whose bit `i` is set.
pub open spec fn count_set(ds: Seq<Seq<u8>>, i: int) -> nat
    decreases ds.len(),
{
    if ds.len() == 0 {
        0
    } else {
        count_set(ds.drop_last(), i) + if bit_at(ds.last(), i) {
            1nat
        } else {
            0nat
        }
    }
}

/// The SimHash bits: bit `i` is set where at least half the digests have it set.
pub open spec fn simhash_bits(ds: Seq<Seq<u8>>) -> Seq<bool> {
    Seq::new(8 * ds[0].len(), |i: int| 2 * count_set(ds, i) >= ds.len())
}

/// The SimHash of a list of digests; 32 zero bytes for no digest.
pub open spec fn simhash(ds: Seq<Seq<u8>>) -> Seq<u8> {
    if ds.len() == 0 {
        Seq::new(32, |i: int| 0u8)
    } else {
        pack(simhash_bits(ds))
    }
}

/// The views of a list of byte vectors.
pub open spec fn byte_views(v: Seq<Vec<u8>>) -> Seq<Seq<u8>> {
    v.map_values(|d: Vec<u8>| d@)
}

proof fn lemma_pad_whole_bytes(bits: Seq<bool>)
    requires
        bits.len() % 8 == 0,
    ensures
        pad_bits(bits) == bits,
{
    assert(pad_bits(bits) =~= bits);
}

/// SimHash of digests that the caller has checked to be of equal length.
pub fn alg_simhash_inner(hash_digests: &[Vec<u8>]) -> (r: Vec<u8>)
    requires
        equal_lengths(byte_views(hash_digests@)),
        hash_digests@.len() > 0 ==> hash_digests@[0]@.len() * 8 <= usize::MAX,
    ensures
        r@ == simhash(byte_views(hash_digests@)),
{
    let ghost ds = byte_views(hash_digests@);
    if hash_digests.len() == 0 {
        let mut z: Vec<u8> = Vec::new();
        let mut k: usize = 0;
        while k < 32
            invariant
                k <= 32,
                z@ == Seq::new(k as nat, |i: int| 0u8),
            decreases 32 - k,
        {
            z.push(0);
            k = k + 1;
            assert(z@ =~= Seq::new(k as nat, |i: int| 0u8));
        }
        return z;
    }
    let n_bytes = hash_digests[0].len();
    let n_bits = n_bytes * 8;
    let n = hash_digests.len();
    let mut counts: Vec<usize> = Vec::new();
    let mut i: usize = 0;
    while i < n_bits
        invariant
            i <= n_bits,
            counts@.len() == i,
            forall|k: int| 0 <= k < i ==> counts@[k] == 0,
        decreases n_bits - i,
    {
        counts.push(0);
        i = i + 1;
    }
    let mut j: usize = 0;
    while j < n
        invariant
            j <= n,
            n == hash_digests@.len(),
            ds == byte_views(hash_digests@),
            equal_lengths(ds),
            n_bytes == ds[0].len(),
            n_bits == n_bytes * 8,
            counts@.len() == n_bits,
            forall|k: int| 0 <= k < n_bits ==> counts@[k] == count_set(ds.subrange(0, j as int), k),
            forall|k: int| 0 <= k < n_bits ==> counts@[k] <= j,
        decreases n - j,
    {
        let digest = hash_digests[j].as_slice();
        assert(digest@ == ds[j as int]);
        assert(ds.subrange(0, j + 1).drop_last() == ds.subrange(0, j as int));
        let mut i: usize = 0;
        while i < n_bits
            invariant
                i <= n_bits,
                j < n,
                n == hash_digests@.len(),
                ds == byte_views(hash_digests@),
                digest@ == ds[j as int],
                digest@.len() == n_bytes,
                n_bits == n_bytes * 8,
                counts@.len() == n_bits,
                forall|k: int|
                    0 <= k < i ==> counts@[k] == count_set(ds.subrange(0, j + 1), k),
                forall|k: int|
                    i <= k < n_bits ==> counts@[k] == count_set(ds.subrange(0, j as int), k),
                forall|k: int| 0 <= k < n_bits ==> counts@[k] <= j + 1,
                forall|k: int| i <= k < n_bits ==> counts@[k] <= j,
            decreases n_bits - i,
        {
            assert(ds.subrange(0, j + 1).drop_last() == ds.subrange(0, j as int));
            assert(ds.subrange(0, j + 1).last() == ds[j as int]);
            assert(count_set(ds.subrange(0, j + 1), i as int) == count_set(
                ds.subrange(0, j as int),
                i as int,
            ) + if bit_at(ds[j as int], i as int) {
                1nat
            } else {
                0nat
            });
            if get_bit(digest, i) {
                let c = counts[i];
                counts.set(i, c + 1);
            }
            i = i + 1;
        }
        j = j + 1;
    }
    assert(ds.subrange(0, n as int) == ds);
    let mut bits: Vec<bool> = Vec::new();
    let mut i: usize = 0;
    while i < n_bits
        invariant
            i <= n_bits,
            n == ds.len(),
            n_bits == 8 * ds[0].len(),
            counts@.len() == n_bits,
            forall|k: int| 0 <= k < n_bits ==> counts@[k] == count_set(ds, k),
            forall|k: int| 0 <= k < n_bits ==> counts@[k] <= n,
            bits@ == simhash_bits(ds).subrange(0, i as int),
        decreases n_bits - i,
    {
        let c = counts[i];
        bits.push(c >= n - c);
        i = i + 1;
        assert(bits@ =~= simhash_bits(ds).subrange(0, i as int));
    }
    assert(bits@ =~= simhash_bits(ds));
    proof {
        lemma_pad_whole_bytes(bits@);
    }
    bits_to_bytes(&bits)
}

/// SimHash of equal-length digests; digests of unequal length are an error.
pub fn alg_simhash(hash_digests: &[Vec<u8>]) -> (r: Result<Vec<u8>, IsccError>)
    requires
        hash_digests@.len() > 0 ==> hash_digests@[0]@.len() * 8 <= usize::MAX,
    ensures
        r is Ok <==> equal_lengths(byte_views(hash_digests@)),
        r is Ok ==> r->Ok_0@ == simhash(byte_views(hash_digests@)),
{
    let ghost ds = byte_views(hash_digests@);
    if hash_digests.len() >= 2 {
        let expected_len = hash_digests[0].len();
        let mut i: usize = 1;
        while i < hash_digests.len()
            invariant
                1 <= i <= hash_digests@.len(),
                ds == byte_views(hash_digests@),
                expected_len == ds[0].len(),
                forall|k: int| 0 <= k < i ==> #[trigger] ds[k].len() == ds[0].len(),
            decreases hash_digests@.len() - i,
        {
            if hash_digests[i].len() != expected_len {
                assert(ds[i as int].len() != ds[0].len());
                return Err(IsccError::invalid("All hash digests must have equal length"));
            }
            i = i + 1;
        }
    }
    Ok(alg_simhash_inner(hash_digests))
}

/// Overlapping windows of `width` items, advancing by one; a shorter input is one window.
pub open spec fn windows<T>(s: Seq<T>, width: nat) -> Seq<Seq<T>> {
    let count = if s.len() >= width {
        s.len() - width + 1
    } else {
        1
    };
    Seq::new(
        count as nat,
        |i: int|
            s.subrange(
                i,
                if i + width <= s.len() {
                    i + width
                } else {
                    s.len() as int
                },
            ),
    )
}

/// The characters of `s`, in order.
pub fn str_chars(s: &str) -> (r: Vec<char>)
    ensures
        r@ == s@,
{
    let mut out: Vec<char> = Vec::new();
    for c in it: s.chars()
        invariant
            out@ == it.seq().subrange(0, it.index() as int),
    {
        out.push(c);
    }
    out
}

/// Windows of `width` characters of `seq`, advancing one character at a time.
pub fn sliding_window(seq: &str, width: usize) -> (r: Result<Vec<String>, IsccError>)
    ensures
        r is Ok <==> width >= 2,
        r is Ok ==> r->Ok_0@.map_values(|w: String| w@) == windows(seq@, width as nat),
{
    if width < 2 {
        return Err(IsccError::invalid("Sliding window width must be 2 or bigger."));
    }
    let chars = str_chars(seq);
    let len = chars.len();
    let count = if len >= width {
        len - width + 1
    } else {
        1
    };
    let ghost spec = windows(seq@, width as nat);
    let mut out: Vec<String> = Vec::new();
    let mut i: usize = 0;
    while i < count
        invariant
            i <= count,
            chars@ == seq@,
            len == chars@.len(),
            width >= 2,
            count == (if len >= width {
                len - width + 1
            } else {
                1
            }),
            spec == windows(seq@, width as nat),
            out@.map_values(|w: String| w@) == spec.subrange(0, i as int),
        decreases count - i,
    {
        let end = if i + width <= len {
            i + width
        } else {
            len
        };
        let piece = &chars.as_slice()[i..end];
        assert(piece@ == chars@.subrange(i as int, end as int));
        let w = crate::text::string_from_chars(piece);
        assert(w@ == spec[i as int]);
        let ghost prev = out@;
        out.push(w);
        assert(out@.map_values(|w: String| w@) =~= prev.map_values(|w: String| w@).push(w@));
        i = i + 1;
        assert(out@.map_values(|w: String| w@) =~= spec.subrange(0, i as int));
    }
    assert(spec.subrange(0, count as int) =~= spec);
    Ok(out)
}

/// Windows of `width` bytes of `data`, advancing one byte at a time.
pub fn sliding_window_bytes(data: &[u8], width: usize) -> (r: Result<Vec<Vec<u8>>, IsccError>)
    ensures
        r is Ok <==> width >= 2,
        r is Ok ==> byte_views(r->Ok_0@) == windows(data@, width as nat),
{
    if width < 2 {
        return Err(IsccError::invalid("Sliding window width must be 2 or bigger."));
    }
    let len = data.len();
    let count = if len >= width {
        len - width + 1
    } else {
        1
    };
    let ghost spec = windows(data@, width as nat);
    let mut out: Vec<Vec<u8>> = Vec::new();
    let mut i: usize = 0;
    while i < count
        invariant
            i <= count,
            len == data@.len(),
            width >= 2,
            count == (if len >= width {
                len - width + 1
            } else {
                1
            }),
            spec == windows(data@, width as nat),
            byte_views(out@) == spec.subrange(0, i as int),
        decreases count - i,
    {
        let end = if i + width <= len {
            i + width
        } else {
            len
        };
        let w = crate::bits::copy_range(data, i, end);
        assert(w@ == spec[i as int]);
        let ghost prev = out@;
        out.push(w);
        assert(byte_views(out@) =~= byte_views(prev).push(w@));
        i = i + 1;
        assert(byte_views(out@) =~= spec.subrange(0, i as int));
    }
    assert(spec.subrange(0, count as int) =~= spec);
    Ok(out)
}

} // verus!
