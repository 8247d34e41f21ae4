//! 64-dimensional MinHash over 32-bit features, compressed to 256 bits.
use crate::bits::{bits_to_bytes, pack, pad_bits};
use vstd::arithmetic::power2::pow2;
use vstd::bits::lemma_u64_shr_is_div;
use vstd::prelude::*;

verus! {

/// The Mersenne prime 2^61 - 1.
pub const MPRIME: u64 = 0x1fff_ffff_ffff_ffff;

/// Value of a dimension over no feature: 2^32 - 1.
pub const MAXH: u64 = 0xffff_ffff;

/// Multipliers of the 64 universal hash functions.
pub const MPA: [u64; 64] = [
    853146490016488653, 1849332765672628665, 1131688930666554379, 1936485333668353377,
    890837126813020267, 1988249303247129861, 1408894512544874755, 2140251716176616185,
    1755124413189049421, 1355916793659431597, 546586563822844083, 497603761441203021,
    2000709902557454173, 1057597903350092207, 1576204252850880253, 2078784234495706739,
    1022616668454863635, 2150082342606334489, 712341150087765807, 1511757510246096559,
    1525853819909660573, 1263771796138990131, 1215963627200985263, 590069150281426443,
    130824646248385081, 962725325544728503, 1702561325943522847, 296074222435072629,
    490211158716051523, 1255327197241792767, 699458998727907367, 32930168991409845,
    1985097843455124585, 362027841570125531, 1903252144040897835, 900391845076405289,
    547470123601853551, 1689373724032359119, 845594231933442371, 400331968021206285,
    174967108345233429, 876513700861085019, 505848386844809885, 1920468508342256199,
    1292611725303815789, 963317239501343903, 1730880032297268007, 284614929850059717,
    1185026248283273081, 2167288823816985197, 1214905315086686483, 1555253098157439857,
    1048013650291539723, 1238618594841147605, 1213502582686547311, 286300733803129311,
    1250358511639043529, 407534797452854371, 960869149538623787, 1722699901467253087,
    1325704236119824319, 196979859428570839, 1669408735473259699, 781336617016068757,
];

/// Addends of the 64 universal hash functions.
pub const MPB: [u64; 64] = [
    1089606993368836715, 726972438868274737, 66204585613901025, 1078410179646709132,
    1343470117098523467, 698653121981343911, 1248486536592473639, 1447963007834012793,
    1034598851883537815, 1474008409379745934, 793773480906057541, 980501101461882479,
    963941556313537655, 233651787311327325, 243905121737149907, 570269452476776142,
    297633284648631084, 1516796967247398557, 1494795672066692649, 1728741177365151059,
    1029197538967983408, 1660732464170610344, 1399769594446678069, 506465470557005705,
    1279720146829545181, 860096419955634036, 411519685280832908, 69539191273403207,
    1960489729088056217, 605092075716397684, 1017496016211653149, 1304834535101321372,
    949013511180032347, 1142776242221098779, 576980004709031232, 1071272177143100544,
    1494527341093835499, 1073290814142727850, 1285904200674942617, 1277176606329477335,
    343788427301735585, 2100915269685487331, 1227711252031557450, 18593166391963377,
    2101884148332688233, 191808277534686888, 2170124912729392024, 918430470748151293,
    1831024560113812361, 1951365515851067694, 744352348473654499, 1921518311887826722,
    2020165648600700886, 1764930142256726985, 1903893374912839788, 1449378957774802122,
    1435825328374066345, 833197549717762813, 2238991044337210799, 748955638857938366,
    1834583747494146901, 222012292803592982, 901238460725547841, 1501611130776083278,
];

/// Universal hash function `i` applied to feature `x`.
pub open spec fn perm_hash(i: int, x: u32) -> nat {
    ((((MPA@[i] as nat) * (x as nat) + (MPB@[i] as nat)) % 0x1_0000_0000_0000_0000) % (
    MPRIME as nat)) % 0x1_0000_0000
}

/// The least value of hash function `i` over `features`; `MAXH` for none.
pub open spec fn min_hash(features: Seq<u32>, i: int) -> nat
    decreases features.len(),
{
    if features.len() == 0 {
        MAXH as nat
    } else {
        let rest = min_hash(features.drop_last(), i);
        let h = perm_hash(i, features.last());
        if h < rest {
            h
        } else {
            rest
        }
    }
}

/// The 64-dimensional MinHash of `features`.
pub open spec fn minhash_vector(features: Seq<u32>) -> Seq<nat> {
    Seq::new(64, |i: int| min_hash(features, i))
}

/// The low `lsb` bits of each value, bit position as the outer order.
pub open spec fn compress_bits(m: Seq<nat>, lsb: nat) -> Seq<bool> {
    Seq::new(m.len() * lsb, |k: int| (m[k % m.len() as int] / pow2((k / m.len() as int) as nat)) % 2 == 1)
}

/// The 256-bit MinHash digest of `features`.
pub open spec fn minhash_digest(features: Seq<u32>) -> Seq<u8> {
    pack(compress_bits(minhash_vector(features), 4))
}

proof fn lemma_min_hash_bound(features: Seq<u32>, i: int)
    ensures
        min_hash(features, i) <= MAXH,
    decreases features.len(),
{
    if features.len() > 0 {
        lemma_min_hash_bound(features.drop_last(), i);
    }
}

/// Computes the 64-dimensional MinHash of `features`.
pub fn minhash(features: &[u32]) -> (r: Vec<u64>)
    ensures
        r@.len() == 64,
        forall|i: int| 0 <= i < 64 ==> r@[i] as nat == #[trigger] min_hash(features@, i),
{
    let mut out: Vec<u64> = Vec::new();
    let mut i: usize = 0;
    while i < 64
        invariant
            i <= 64,
            out@.len() == i,
            forall|k: int| 0 <= k < i ==> out@[k] as nat == #[trigger] min_hash(features@, k),
        decreases 64 - i,
    {
        let a = MPA[i];
        let b = MPB[i];
        let mut m: u64 = MAXH;
        let mut j: usize = 0;
        while j < features.len()
            invariant
                i < 64,
                j <= features@.len(),
                a == MPA@[i as int],
                b == MPB@[i as int],
                m as nat == min_hash(features@.subrange(0, j as int), i as int),
            decreases features@.len() - j,
        {
            let f = features[j] as u64;
            let h = ((a.wrapping_mul(f).wrapping_add(b)) % MPRIME) % 0x1_0000_0000;
            proof {
                let x = features@[j as int];
                assert(a.wrapping_mul(f) as nat == (a as nat * f as nat) % 0x1_0000_0000_0000_0000);
                assert(a.wrapping_mul(f).wrapping_add(b) as nat == ((a as nat * f as nat) % 0x1_0000_0000_0000_0000
                    + b as nat) % 0x1_0000_0000_0000_0000);
                assert(((a as nat * f as nat) % 0x1_0000_0000_0000_0000 + b as nat) % 0x1_0000_0000_0000_0000
                    == (a as nat * f as nat + b as nat) % 0x1_0000_0000_0000_0000) by {
                    vstd::arithmetic::div_mod::lemma_add_mod_noop(
                        (a as nat * f as nat) as int,
                        b as int,
                        0x1_0000_0000_0000_0000,
                    );
                    vstd::arithmetic::div_mod::lemma_mod_twice(b as int, 0x1_0000_0000_0000_0000);
                }
                assert(h as nat == perm_hash(i as int, x));
                assert(features@.subrange(0, j + 1).drop_last() == features@.subrange(0, j as int));
                assert(features@.subrange(0, j + 1).last() == x);
            }
            if h < m {
                m = h;
            }
            j = j + 1;
        }
        assert(features@.subrange(0, features@.len() as int) == features@);
        out.push(m);
        i = i + 1;
    }
    out
}

/// Packs the low `lsb` bits of each value, bit position as the outer order.
pub fn minhash_compress(mhash: &[u64], lsb: u32) -> (r: Vec<u8>)
    requires
        lsb <= 8,
        mhash@.len() == 64,
    ensures
        r@ == pack(pad_bits(compress_bits(mhash@.map_values(|h: u64| h as nat), lsb as nat))),
{
    let ghost m = mhash@.map_values(|h: u64| h as nat);
    let ghost target = compress_bits(m, lsb as nat);
    let mut bits: Vec<bool> = Vec::new();
    let mut bitpos: u32 = 0;
    while bitpos < lsb
        invariant
            bitpos <= lsb <= 8,
            mhash@.len() == 64,
            m == mhash@.map_values(|h: u64| h as nat),
            target == compress_bits(m, lsb as nat),
            m.len() == 64,
            target.len() == 64 * lsb,
            bits@ == target.subrange(0, 64 * bitpos as int),
        decreases lsb - bitpos,
    {
        let mut j: usize = 0;
        while j < 64
            invariant
                bitpos < lsb <= 8,
                j <= 64,
                mhash@.len() == 64,
                m == mhash@.map_values(|h: u64| h as nat),
                target == compress_bits(m, lsb as nat),
                m.len() == 64,
                target.len() == 64 * lsb,
                bits@ == target.subrange(0, 64 * bitpos + j),
            decreases 64 - j,
        {
            let h = mhash[j];
            let shift = bitpos as u64;
            proof {
                lemma_u64_shr_is_div(h, shift);
                assert((h >> shift) & 1u64 == (h >> shift) % 2) by (bit_vector);
                let k = 64 * bitpos + j;
                assert(k % 64 == j && k / 64 == bitpos) by (nonlinear_arith)
                    requires
                        k == 64 * bitpos + j,
                        j < 64,
                ;
                assert(m[j as int] == h as nat);
                assert(64 * bitpos + j < 64 * lsb) by (nonlinear_arith)
                    requires
                        bitpos < lsb,
                        j < 64,
                ;
                assert(target[k] == ((h as nat / pow2(bitpos as nat)) % 2 == 1));
            }
            bits.push((h >> shift) & 1u64 == 1u64);
            j = j + 1;
            assert(bits@ =~= target.subrange(0, 64 * bitpos + j));
        }
        bitpos = bitpos + 1;
    }
    assert(bits@ =~= target);
    bits_to_bytes(&bits)
}

/// The 256-bit MinHash digest of 32-bit features.
pub fn alg_minhash_256(features: &[u32]) -> (r: Vec<u8>)
    ensures
        r@ == minhash_digest(features@),
{
    let mhash = minhash(features);
    assert(mhash@.map_values(|h: u64| h as nat) =~= minhash_vector(features@));
    let r = minhash_compress(mhash.as_slice(), 4);
    assert(pad_bits(compress_bits(minhash_vector(features@), 4)) =~= compress_bits(
        minhash_vector(features@),
        4,
    ));
    r
}

} // verus!
