//! Bit sequences read and written most significant bit first.
use vstd::arithmetic::div_mod::lemma_fundamental_div_mod_converse;
use vstd::arithmetic::power2::{lemma2_to64, lemma_pow2_pos, lemma_pow2_unfold, pow2};
use vstd::bits::lemma_u8_shr_is_div;
use vstd::prelude::*;

verus! {

/// Integer value of a bit sequence, most significant bit first.
pub open spec fn bits_value(bits: Seq<bool>) -> nat
    decreases bits.len(),
{
    if bits.len() == 0 {
        0
    } else {
        2 * bits_value(bits.drop_last()) + (if bits.last() {
            1nat
        } else {
            0nat
        })
    }
}

/// The `n` low bits of `v`, most significant first.
pub open spec fn nat_bits(v: nat, n: nat) -> Seq<bool>
    decreases n,
{
    if n == 0 {
        seq![]
    } else {
        nat_bits(v / 2, (n - 1) as nat).push(v % 2 == 1)
    }
}

/// Bit `i` of a byte sequence, counting from the most significant bit of the first byte.
pub open spec fn bit_at(bytes: Seq<u8>, i: int) -> bool {
    (bytes[i / 8] as nat / pow2((7 - i % 8) as nat)) % 2 == 1
}

/// The `n` bits of `bytes` that start at bit `pos`.
pub open spec fn bits_of(bytes: Seq<u8>, pos: int, n: nat) -> Seq<bool> {
    Seq::new(n, |k: int| bit_at(bytes, pos + k))
}

/// `bits` followed by zero bits up to the next multiple of eight.
pub open spec fn pad_bits(bits: Seq<bool>) -> Seq<bool> {
    bits + Seq::new(((8 - bits.len() % 8) % 8) as nat, |k: int| false)
}

/// Bytes whose bits, most significant first, are `bits` (of a length that is a multiple of 8).
pub open spec fn pack(bits: Seq<bool>) -> Seq<u8> {
    Seq::new(bits.len() / 8, |j: int| bits_value(bits.subrange(8 * j, 8 * j + 8)) as u8)
}

pub proof fn lemma_nat_bits_len(v: nat, n: nat)
    ensures
        nat_bits(v, n).len() == n,
    decreases n,
{
    if n > 0 {
        lemma_nat_bits_len(v / 2, (n - 1) as nat);
    }
}

pub proof fn lemma_bits_value_bound(bits: Seq<bool>)
    ensures
        bits_value(bits) < pow2(bits.len()),
    decreases bits.len(),
{
    if bits.len() > 0 {
        lemma_bits_value_bound(bits.drop_last());
        lemma_pow2_unfold(bits.len());
    } else {
        lemma_pow2_pos(0);
        lemma2_to64();
    }
}

pub proof fn lemma_nat_bits_value(v: nat, n: nat)
    requires
        v < pow2(n),
    ensures
        bits_value(nat_bits(v, n)) == v,
    decreases n,
{
    if n == 0 {
        lemma2_to64();
    } else {
        lemma_pow2_unfold(n);
        let s = nat_bits(v / 2, (n - 1) as nat);
        assert(nat_bits(v, n).drop_last() == s);
        lemma_nat_bits_value(v / 2, (n - 1) as nat);
    }
}

pub proof fn lemma_bits_value_concat(a: Seq<bool>, b: Seq<bool>)
    ensures
        bits_value(a + b) == bits_value(a) * pow2(b.len()) + bits_value(b),
    decreases b.len(),
{
    if b.len() == 0 {
        assert(a + b == a);
        lemma2_to64();
    } else {
        let b1 = b.drop_last();
        assert((a + b).drop_last() == a + b1);
        assert((a + b).last() == b.last());
        lemma_bits_value_concat(a, b1);
        lemma_pow2_unfold(b.len());
        assert(b.drop_last() == b1);
        let x: nat = if b.last() {
            1
        } else {
            0
        };
        assert(bits_value(a + b) == 2 * bits_value(a + b1) + x);
        assert(bits_value(b) == 2 * bits_value(b1) + x);
        let va = bits_value(a);
        let p = pow2(b1.len());
        assert(2 * (va * p) == va * (2 * p)) by (nonlinear_arith);
    }
}

/// Bit `k` of a byte built from eight bits is the `k`-th of those bits.
pub proof fn lemma_bit_of_byte(c: Seq<bool>, k: int)
    requires
        c.len() == 8,
        0 <= k < 8,
    ensures
        (bits_value(c) / pow2((7 - k) as nat)) % 2 == 1 <==> c[k],
{
    let a = c.subrange(0, k + 1);
    let b = c.subrange(k + 1, 8);
    assert(c == a + b);
    lemma_bits_value_concat(a, b);
    lemma_bits_value_bound(b);
    lemma_pow2_pos(b.len());
    lemma_fundamental_div_mod_converse(
        bits_value(c) as int,
        pow2(b.len()) as int,
        bits_value(a) as int,
        bits_value(b) as int,
    );
    assert(a.last() == c[k]);
}

/// Reading a bit of packed bits gives that bit back.
pub proof fn lemma_pack_bit(bits: Seq<bool>, i: int)
    requires
        bits.len() % 8 == 0,
        0 <= i < bits.len(),
    ensures
        bit_at(pack(bits), i) == bits[i],
{
    let j = i / 8;
    let k = i % 8;
    let c = bits.subrange(8 * j, 8 * j + 8);
    lemma_bits_value_bound(c);
    lemma2_to64();
    assert(pack(bits)[j] as nat == bits_value(c));
    lemma_bit_of_byte(c, k);
    assert(c[k] == bits[i]);
}

/// Bits read from bytes that begin with `pack(bits)` are those bits.
pub proof fn lemma_read_packed(data: Seq<u8>, bits: Seq<bool>, pos: int, n: nat)
    requires
        bits.len() % 8 == 0,
        bits.len() / 8 <= data.len(),
        data.subrange(0, (bits.len() / 8) as int) == pack(bits),
        0 <= pos,
        pos + n <= bits.len(),
    ensures
        bits_of(data, pos, n) == bits.subrange(pos, pos + n),
{
    assert forall|k: int| 0 <= k < n implies bits_of(data, pos, n)[k] == bits[pos + k] by {
        let i = pos + k;
        lemma_pack_bit(bits, i);
        assert(data[i / 8] == pack(bits)[i / 8]);
    }
    assert(bits_of(data, pos, n) == bits.subrange(pos, pos + n));
}

/// Reads bit `pos` of `data`, most significant bit of each byte first.
pub fn get_bit(data: &[u8], pos: usize) -> (r: bool)
    requires
        pos < data@.len() * 8,
    ensures
        r == bit_at(data@, pos as int),
{
    let byte = data[pos / 8];
    let shift: u8 = (7 - pos % 8) as u8;
    proof {
        lemma_u8_shr_is_div(byte, shift);
        assert((byte >> shift) & 1u8 == (byte >> shift) % 2) by (bit_vector);
    }
    (byte >> shift) & 1u8 == 1u8
}

/// Reads `count` bits starting at bit `pos` as an unsigned integer.
pub fn extract_bits(data: &[u8], pos: usize, count: usize) -> (r: u32)
    requires
        count <= 16,
        pos + count <= data@.len() * 8,
        pos + count <= usize::MAX,
    ensures
        r as nat == bits_value(bits_of(data@, pos as int, count as nat)),
        (r as nat) < pow2(count as nat),
{
    let mut value: u32 = 0;
    let mut i: usize = 0;
    while i < count
        invariant
            i <= count,
            count <= 16,
            pos + count <= data@.len() * 8,
            pos + count <= usize::MAX,
            value as nat == bits_value(bits_of(data@, pos as int, i as nat)),
        decreases count - i,
    {
        proof {
            lemma_bits_value_bound(bits_of(data@, pos as int, i as nat));
            vstd::arithmetic::power2::lemma_pow2_strictly_increases(i as nat, 16);
            lemma2_to64();
        }
        let b = get_bit(data, pos + i);
        let ghost prev = bits_of(data@, pos as int, i as nat);
        value = value * 2 + if b {
            1
        } else {
            0
        };
        i = i + 1;
        assert(bits_of(data@, pos as int, i as nat).drop_last() == prev);
    }
    proof {
        lemma_bits_value_bound(bits_of(data@, pos as int, count as nat));
    }
    value
}

/// A copy of `data[start..end]`.
pub fn copy_range(data: &[u8], start: usize, end: usize) -> (r: Vec<u8>)
    requires
        start <= end <= data@.len(),
    ensures
        r@ == data@.subrange(start as int, end as int),
{
    let mut out: Vec<u8> = Vec::new();
    let mut i: usize = start;
    while i < end
        invariant
            start <= i <= end,
            end <= data@.len(),
            out@ == data@.subrange(start as int, i as int),
        decreases end - i,
    {
        out.push(data[i]);
        i = i + 1;
    }
    out
}

/// Appends `data[start..end]` to `out`.
pub fn append_range(out: &mut Vec<u8>, data: &[u8], start: usize, end: usize)
    requires
        start <= end <= data@.len(),
    ensures
        final(out)@ == old(out)@ + data@.subrange(start as int, end as int),
{
    let mut i: usize = start;
    while i < end
        invariant
            start <= i <= end,
            end <= data@.len(),
            out@ == old(out)@ + data@.subrange(start as int, i as int),
        decreases end - i,
    {
        out.push(data[i]);
        i = i + 1;
    }
}

/// Appends the `n` low bits of `v`, most significant first.
pub fn push_bits(out: &mut Vec<bool>, v: u32, n: u32)
    requires
        n <= 32,
    ensures
        final(out)@ == old(out)@ + nat_bits(v as nat, n as nat),
    decreases n,
{
    if n > 0 {
        push_bits(out, v / 2, n - 1);
        out.push(v % 2 == 1);
    } else {
        assert(old(out)@ + nat_bits(v as nat, 0) == old(out)@);
    }
}

/// Packs a bit sequence into bytes, padding the last byte with zero bits.
pub fn bits_to_bytes(bits: &Vec<bool>) -> (r: Vec<u8>)
    ensures
        r@ == pack(pad_bits(bits@)),
{
    let ghost padded = pad_bits(bits@);
    let n = bits.len();
    let nbytes = if n % 8 == 0 {
        n / 8
    } else {
        n / 8 + 1
    };
    assert(padded.len() == nbytes * 8);
    let mut out: Vec<u8> = Vec::new();
    let mut j: usize = 0;
    while j < nbytes
        invariant
            j <= nbytes,
            n == bits@.len(),
            padded == pad_bits(bits@),
            padded.len() == nbytes * 8,
            out@.len() == j,
            forall|t: int| 0 <= t < j ==> out@[t] == pack(padded)[t],
        decreases nbytes - j,
    {
        let mut byte: u32 = 0;
        let mut k: usize = 0;
        while k < 8
            invariant
                j < nbytes,
                k <= 8,
                n == bits@.len(),
                padded == pad_bits(bits@),
                padded.len() == nbytes * 8,
                byte as nat == bits_value(padded.subrange(8 * j, 8 * j + k)),
            decreases 8 - k,
        {
            proof {
                lemma_bits_value_bound(padded.subrange(8 * j, 8 * j + k));
                vstd::arithmetic::power2::lemma_pow2_strictly_increases(k as nat, 8);
                lemma2_to64();
            }
            let idx = 8 * j + k;
            let bit = if idx < n {
                bits[idx]
            } else {
                false
            };
            assert(bit == padded[idx as int]);
            let ghost prev = padded.subrange(8 * j, 8 * j + k);
            byte = byte * 2 + if bit {
                1
            } else {
                0
            };
            k = k + 1;
            assert(padded.subrange(8 * j, 8 * j + k).drop_last() == prev);
        }
        proof {
            lemma_bits_value_bound(padded.subrange(8 * j, 8 * j + 8));
            lemma2_to64();
        }
        out.push(byte as u8);
        j = j + 1;
    }
    assert(out@ == pack(padded));
    out
}

} // verus!
