//! Content-defined chunking with a gear rolling hash and strict and relaxed mask phases.
use crate::IsccError;
use vstd::arithmetic::power2::{lemma2_to64, lemma_pow2_unfold, pow2};
use vstd::prelude::*;

verus! {

/// Gear table: a fixed pseudo-random value for each byte.
pub const CDC_GEAR: [u32; 256] = [
    1553318008, 574654857, 759734804, 310648967, 1393527547, 1195718329, 694400241, 1154184075,
    1319583805, 1298164590, 122602963, 989043992, 1918895050, 933636724, 1369634190, 1963341198,
    1565176104, 1296753019, 1105746212, 1191982839, 1195494369, 29065008, 1635524067, 722221599,
    1355059059, 564669751, 1620421856, 1100048288, 1018120624, 1087284781, 1723604070, 1415454125,
    737834957, 1854265892, 1605418437, 1697446953, 973791659, 674750707, 1669838606, 320299026,
    1130545851, 1725494449, 939321396, 748475270, 554975894, 1651665064, 1695413559, 671470969,
    992078781, 1935142196, 1062778243, 1901125066, 1935811166, 1644847216, 744420649, 2068980838,
    1988851904, 1263854878, 1979320293, 111370182, 817303588, 478553825, 694867320, 685227566,
    345022554, 2095989693, 1770739427, 165413158, 1322704750, 46251975, 710520147, 700507188,
    2104251000, 1350123687, 1593227923, 1756802846, 1179873910, 1629210470, 358373501, 807118919,
    751426983, 172199468, 174707988, 1951167187, 1328704411, 2129871494, 1242495143, 1793093310,
    1721521010, 306195915, 1609230749, 1992815783, 1790818204, 234528824, 551692332, 1930351755,
    110996527, 378457918, 638641695, 743517326, 368806918, 1583529078, 1767199029, 182158924,
    1114175764, 882553770, 552467890, 1366456705, 934589400, 1574008098, 1798094820, 1548210079,
    821697741, 601807702, 332526858, 1693310695, 136360183, 1189114632, 506273277, 397438002,
    620771032, 676183860, 1747529440, 909035644, 142389739, 1991534368, 272707803, 1905681287,
    1210958911, 596176677, 1380009185, 1153270606, 1150188963, 1067903737, 1020928348, 978324723,
    962376754, 1368724127, 1133797255, 1367747748, 1458212849, 537933020, 1295159285, 2104731913,
    1647629177, 1691336604, 922114202, 170715530, 1608833393, 62657989, 1140989235, 381784875,
    928003604, 449509021, 1057208185, 1239816707, 525522922, 476962140, 102897870, 132620570,
    419788154, 2095057491, 1240747817, 1271689397, 973007445, 1380110056, 1021668229, 12064370,
    1186917580, 1017163094, 597085928, 2018803520, 1795688603, 1722115921, 2015264326, 506263638,
    1002517905, 1229603330, 1376031959, 763839898, 1970623926, 1109937345, 524780807, 1976131071,
    905940439, 1313298413, 772929676, 1578848328, 1108240025, 577439381, 1293318580, 1512203375,
    371003697, 308046041, 320070446, 1252546340, 568098497, 1341794814, 1922466690, 480833267,
    1060838440, 969079660, 1836468543, 2049091118, 2023431210, 383830867, 2112679659, 231203270,
    1551220541, 1377927987, 275637462, 2110145570, 1700335604, 738389040, 1688841319, 1506456297,
    1243730675, 258043479, 599084776, 41093802, 792486733, 1897397356, 28077829, 1520357900,
    361516586, 1119263216, 209458355, 45979201, 363681532, 477245280, 2107748241, 601938891,
    244572459, 1689418013, 1141711990, 1485744349, 1181066840, 1950794776, 410494836, 1445347454,
    2137242950, 852679640, 1014566730, 1999335993, 1871390758, 1736439305, 231222289, 603972436,
    783045542, 370384393, 184356284, 709706295, 1453549767, 591603172, 768512391, 854125182,
];

/// Average chunk size used for data codes.
pub const DATA_AVG_CHUNK_SIZE: u32 = 1024;

/// Largest average chunk size accepted: eight times it still fits in a `u32`.
pub const CDC_MAX_AVG: u32 = 0x1fff_ffff;

/// Integer part of the base-2 logarithm of `a` (0 for `a < 2`).
pub open spec fn floor_log2(a: nat) -> nat
    decreases a,
{
    if a < 2 {
        0
    } else {
        1 + floor_log2(a / 2)
    }
}

/// The base-2 logarithm of `a`, rounded to the nearest integer: `k` or `k + 1` where
/// `2^k <= a < 2^(k+1)`, the latter where `a` exceeds `2^(k + 1/2)`.
pub open spec fn round_log2(a: nat) -> nat {
    let k = floor_log2(a);
    if a * a >= 2 * pow2(k) * pow2(k) {
        k + 1
    } else {
        k
    }
}

/// Chunking parameters for average size `a`: minimum, maximum, centre, strict mask, relaxed mask.
pub open spec fn cdc_params(a: nat) -> (nat, nat, nat, nat, nat) {
    let mi = a / 4;
    let b = round_log2(a);
    (
        mi,
        8 * a,
        (a - (mi + (mi + 1) / 2)) as nat,
        (pow2(b + 1) - 1) as nat,
        (pow2((b - 1) as nat) - 1) as nat,
    )
}

/// The rolling pattern after byte `b`.
pub open spec fn gear_step(p: u32, b: u8) -> u32 {
    (((p / 2) as nat + CDC_GEAR@[b as int] as nat) % 0x1_0000_0000) as u32
}

/// Scans from `i` towards `barrier`; yields the offset after the first byte at which the pattern
/// has no bit of `mask` set (and `true`), or the offset where the scan stopped (and `false`).
pub open spec fn scan(buf: Seq<u8>, i: nat, barrier: nat, pat: u32, mask: u32) -> (nat, u32, bool)
    decreases barrier - i,
{
    if i >= barrier || i >= buf.len() {
        (i, pat, false)
    } else {
        let next_pattern = gear_step(pat, buf[i as int]);
        if next_pattern & mask == 0 {
            (i + 1, next_pattern, true)
        } else {
            scan(buf, i + 1, barrier, next_pattern, mask)
        }
    }
}

/// The cut offset in `buf`: a strict phase from `mi` to `cs`, then a relaxed phase up to `ma`.
pub open spec fn cut_offset(buf: Seq<u8>, mi: nat, ma: nat, cs: nat, mask_s: u32, mask_l: u32) -> nat {
    let size = buf.len();
    let start = if mi < size {
        mi
    } else {
        size
    };
    let b1 = if cs < size {
        cs
    } else {
        size
    };
    let b2 = if ma < size {
        ma
    } else {
        size
    };
    let s1 = scan(buf, start, b1, 0, mask_s);
    if s1.2 {
        s1.0
    } else {
        scan(buf, s1.0, b2, s1.1, mask_l).0
    }
}

/// Length of the next chunk of `rest`, aligned to 4 bytes when `utf32` is set.
#[verifier::opaque]
pub open spec fn cut_point(rest: Seq<u8>, utf32: bool, a: nat) -> nat {
    let p = cdc_params(a);
    let c = cut_offset(rest, p.0, p.1, p.2, p.3 as u32, p.4 as u32);
    if utf32 {
        let c2 = (c - c % 4) as nat;
        if c2 == 0 {
            if rest.len() < 4 {
                rest.len()
            } else {
                4
            }
        } else {
            c2
        }
    } else {
        c
    }
}

/// The chunks of a non-empty `rest`.
pub open spec fn chunks_of(rest: Seq<u8>, utf32: bool, a: nat) -> Seq<Seq<u8>>
    decreases rest.len(),
{
    if rest.len() == 0 {
        seq![]
    } else {
        let c = cut_point(rest, utf32, a);
        if 1 <= c <= rest.len() {
            seq![rest.subrange(0, c as int)] + chunks_of(
                rest.subrange(c as int, rest.len() as int),
                utf32,
                a,
            )
        } else {
            seq![rest]
        }
    }
}

/// The chunks of `data`; empty data is one empty chunk.
pub open spec fn cdc_chunks(data: Seq<u8>, utf32: bool, a: nat) -> Seq<Seq<u8>> {
    if data.len() == 0 {
        seq![seq![]]
    } else {
        chunks_of(data, utf32, a)
    }
}

/// Whether `a` is an average chunk size that chunking accepts.
pub open spec fn valid_avg(a: nat) -> bool {
    2 <= a <= CDC_MAX_AVG
}

spec fn a_sq_bound(a: nat) -> bool {
    a * a <= 0x0400_0000_0000_0000
}

/// Computes the chunking parameters of average size `avg_size`.
pub fn alg_cdc_params(avg_size: u32) -> (r: (usize, usize, usize, u32, u32))
    requires
        2 <= avg_size <= CDC_MAX_AVG,
    ensures
        (r.0 as nat, r.1 as nat, r.2 as nat, r.3 as nat, r.4 as nat) == cdc_params(avg_size as nat),
{
    let min_size = avg_size / 4;
    let max_size = avg_size * 8;
    let offset = min_size + (min_size + 1) / 2;
    let center_size = avg_size - offset;
    let mut x: u32 = avg_size;
    let mut k: u32 = 0;
    let mut p: u64 = 1;
    proof {
        lemma2_to64();
    }
    while x >= 2
        invariant
            1 <= x <= avg_size,
            k + floor_log2(x as nat) == floor_log2(avg_size as nat),
            p == pow2(k as nat),
            p * (x as nat) <= avg_size,
            p <= avg_size,
            avg_size <= CDC_MAX_AVG,
        decreases x,
    {
        proof {
            lemma_pow2_unfold((k + 1) as nat);
            assert(2 * p * ((x / 2) as nat) <= p * (x as nat)) by (nonlinear_arith)
                requires
                    x >= 2,
            ;
            assert(p * 2 <= p * (x as nat)) by (nonlinear_arith)
                requires
                    x >= 2,
            ;
            lemma2_to64();
            if k > 29 {
                vstd::arithmetic::power2::lemma_pow2_strictly_increases(29, k as nat);
            }
        }
        x = x / 2;
        k = k + 1;
        p = p * 2;
    }
    proof {
        lemma2_to64();
        if k > 29 {
            vstd::arithmetic::power2::lemma_pow2_strictly_increases(29, k as nat);
        }
        assert(a_sq_bound(avg_size as nat)) by (nonlinear_arith)
            requires
                avg_size <= CDC_MAX_AVG,
        ;
        assert(p * p <= avg_size as nat * avg_size as nat) by (nonlinear_arith)
            requires
                p <= avg_size,
        ;
        assert((2 * p) * p == 2 * (p * p)) by (nonlinear_arith);
    }
    let a = avg_size as u64;
    let bits: u32;
    let pb: u64;
    if a * a >= 2 * p * p {
        bits = k + 1;
        pb = 2 * p;
    } else {
        bits = k;
        pb = p;
    }
    proof {
        lemma_pow2_unfold((k + 1) as nat);
        lemma_pow2_unfold((bits + 1) as nat);
        if bits >= 1 {
            lemma_pow2_unfold(bits as nat);
        }
    }
    assert(bits >= 1);
    let mask_s = (2 * pb - 1) as u32;
    let mask_l = (pb / 2 - 1) as u32;
    (min_size as usize, max_size as usize, center_size as usize, mask_s, mask_l)
}

/// Finds the cut offset of the next chunk in `buffer`.
pub fn alg_cdc_offset(
    buffer: &[u8],
    mi: usize,
    ma: usize,
    cs: usize,
    mask_s: u32,
    mask_l: u32,
) -> (r: usize)
    ensures
        r as nat == cut_offset(buffer@, mi as nat, ma as nat, cs as nat, mask_s, mask_l),
{
    let mut pattern: u32 = 0;
    let size = buffer.len();
    let mut i = if mi < size {
        mi
    } else {
        size
    };
    let b1 = if cs < size {
        cs
    } else {
        size
    };
    let b2 = if ma < size {
        ma
    } else {
        size
    };
    let ghost s1 = scan(buffer@, i as nat, b1 as nat, 0, mask_s);
    assert(cut_offset(buffer@, mi as nat, ma as nat, cs as nat, mask_s, mask_l) == if s1.2 {
        s1.0
    } else {
        scan(buffer@, s1.0, b2 as nat, s1.1, mask_l).0
    });
    while i < b1
        invariant
            b1 <= size == buffer@.len(),
            b2 == (if ma < size {
                ma
            } else {
                size
            }),
            scan(buffer@, i as nat, b1 as nat, pattern, mask_s) == s1,
            cut_offset(buffer@, mi as nat, ma as nat, cs as nat, mask_s, mask_l) == if s1.2 {
                s1.0
            } else {
                scan(buffer@, s1.0, b2 as nat, s1.1, mask_l).0
            },
        decreases b1 - i,
    {
        let ghost old_pattern = pattern;
        pattern = (pattern / 2).wrapping_add(CDC_GEAR[buffer[i] as usize]);
        assert(pattern == gear_step(old_pattern, buffer@[i as int]));
        if pattern & mask_s == 0 {
            return i + 1;
        }
        i = i + 1;
    }
    assert(s1 == (i as nat, pattern, false));
    let ghost s2 = scan(buffer@, i as nat, b2 as nat, pattern, mask_l);
    while i < b2
        invariant
            b2 <= size == buffer@.len(),
            scan(buffer@, i as nat, b2 as nat, pattern, mask_l) == s2,
            cut_offset(buffer@, mi as nat, ma as nat, cs as nat, mask_s, mask_l) == s2.0,
        decreases b2 - i,
    {
        let ghost old_pattern = pattern;
        pattern = (pattern / 2).wrapping_add(CDC_GEAR[buffer[i] as usize]);
        assert(pattern == gear_step(old_pattern, buffer@[i as int]));
        if pattern & mask_l == 0 {
            return i + 1;
        }
        i = i + 1;
    }
    i
}

proof fn lemma_scan_bounds(buf: Seq<u8>, i: nat, barrier: nat, pat: u32, mask: u32)
    ensures
        scan(buf, i, barrier, pat, mask).0 >= i,
        i < barrier && i < buf.len() ==> scan(buf, i, barrier, pat, mask).0 >= i + 1,
        !scan(buf, i, barrier, pat, mask).2 && i <= barrier <= buf.len() ==> scan(
            buf,
            i,
            barrier,
            pat,
            mask,
        ).0 == barrier,
        scan(buf, i, barrier, pat, mask).0 <= (if i >= barrier || i >= buf.len() {
            i
        } else if barrier < buf.len() {
            barrier
        } else {
            buf.len()
        }),
    decreases barrier - i,
{
    if !(i >= barrier || i >= buf.len()) {
        let next_pattern = gear_step(pat, buf[i as int]);
        if next_pattern & mask != 0 {
            lemma_scan_bounds(buf, i + 1, barrier, next_pattern, mask);
        }
    }
}

proof fn lemma_cut_offset_bounds(buf: Seq<u8>, mi: nat, ma: nat, cs: nat, ms: u32, ml: u32)
    requires
        buf.len() > 0,
        mi > 0 || cs > 0,
        mi <= ma,
        cs <= ma,
    ensures
        1 <= cut_offset(buf, mi, ma, cs, ms, ml) <= buf.len(),
        cut_offset(buf, mi, ma, cs, ms, ml) <= ma,
        cut_offset(buf, mi, ma, cs, ms, ml) >= (if mi < buf.len() {
            mi
        } else {
            buf.len()
        }),
{
    let size = buf.len();
    let start = if mi < size {
        mi
    } else {
        size
    };
    let b1 = if cs < size {
        cs
    } else {
        size
    };
    let b2 = if ma < size {
        ma
    } else {
        size
    };
    lemma_scan_bounds(buf, start, b1, 0, ms);
    let s1 = scan(buf, start, b1, 0, ms);
    lemma_scan_bounds(buf, s1.0, b2, s1.1, ml);
}

/// The chunk lengths that `cut_point` yields lie between 1 and the rest's length.
proof fn lemma_cut_point_bounds(rest: Seq<u8>, utf32: bool, a: nat)
    requires
        rest.len() > 0,
        valid_avg(a),
    ensures
        1 <= cut_point(rest, utf32, a) <= rest.len(),
        !utf32 ==> cut_point(rest, utf32, a) <= 8 * a,
        !utf32 && cut_point(rest, utf32, a) < rest.len() ==> cut_point(rest, utf32, a) >= a / 4,
        utf32 && cut_point(rest, utf32, a) < rest.len() ==> cut_point(rest, utf32, a) % 4 == 0,
{
    reveal(cut_point);
    let p = cdc_params(a);
    lemma_cut_offset_bounds(rest, p.0, p.1, p.2, p.3 as u32, p.4 as u32);
}

/// Splits `data` into content-defined chunks; empty data gives one empty chunk. With `utf32`
/// set, cut points are aligned to 4 bytes.
pub fn alg_cdc_chunks(data: &[u8], utf32: bool, avg_chunk_size: u32) -> (r: Result<
    Vec<&[u8]>,
    IsccError,
>)
    ensures
        r is Ok <==> valid_avg(avg_chunk_size as nat),
        r is Ok ==> r->Ok_0@.map_values(|c: &[u8]| c@) == cdc_chunks(
            data@,
            utf32,
            avg_chunk_size as nat,
        ),
{
    if avg_chunk_size < 2 || avg_chunk_size > CDC_MAX_AVG {
        return Err(IsccError::invalid("average chunk size must be between 2 and u32::MAX / 8"));
    }
    let mut chunks: Vec<&[u8]> = Vec::new();
    if data.len() == 0 {
        let empty = &data[0..0];
        assert(empty@ =~= Seq::<u8>::empty());
        chunks.push(empty);
        assert(chunks@.map_values(|c: &[u8]| c@) =~= seq![Seq::<u8>::empty()]);
        return Ok(chunks);
    }
    let (mi, ma, cs, mask_s, mask_l) = alg_cdc_params(avg_chunk_size);
    let ghost a = avg_chunk_size as nat;
    let mut pos: usize = 0;
    assert(data@.subrange(0, data@.len() as int) =~= data@);
    assert(chunks@.map_values(|c: &[u8]| c@) + chunks_of(data@, utf32, a) =~= chunks_of(
        data@,
        utf32,
        a,
    ));
    while pos < data.len()
        invariant
            pos <= data@.len(),
            valid_avg(a),
            a == avg_chunk_size,
            (mi as nat, ma as nat, cs as nat, mask_s as nat, mask_l as nat) == cdc_params(a),
            chunks@.map_values(|c: &[u8]| c@) + chunks_of(
                data@.subrange(pos as int, data@.len() as int),
                utf32,
                a,
            ) == chunks_of(data@, utf32, a),
        decreases data@.len() - pos,
    {
        let remaining = &data[pos..data.len()];
        let ghost rest = data@.subrange(pos as int, data@.len() as int);
        assert(remaining@ == rest);
        let mut cut = alg_cdc_offset(remaining, mi, ma, cs, mask_s, mask_l);
        if utf32 {
            cut = cut - cut % 4;
            if cut == 0 {
                cut = if remaining.len() < 4 {
                    remaining.len()
                } else {
                    4
                };
            }
        }
        proof {
            lemma_cut_point_bounds(rest, utf32, a);
            reveal(cut_point);
        }
        assert(cut as nat == cut_point(rest, utf32, a));
        let chunk = &data[pos..pos + cut];
        assert(chunk@ == rest.subrange(0, cut as int));
        let ghost prev = chunks@.map_values(|c: &[u8]| c@);
        chunks.push(chunk);
        pos = pos + cut;
        proof {
            let next = data@.subrange(pos as int, data@.len() as int);
            assert(rest.subrange(cut as int, rest.len() as int) =~= next);
            assert(chunks@.map_values(|c: &[u8]| c@) =~= prev.push(chunk@));
            assert(chunks_of(rest, utf32, a) == seq![chunk@] + chunks_of(next, utf32, a));
            assert(prev + (seq![chunk@] + chunks_of(next, utf32, a)) =~= prev.push(chunk@)
                + chunks_of(next, utf32, a));
        }
    }
    assert(data@.subrange(data@.len() as int, data@.len() as int) =~= Seq::<u8>::empty());
    assert(chunks@.map_values(|c: &[u8]| c@) + Seq::<Seq<u8>>::empty() =~= chunks@.map_values(
        |c: &[u8]| c@,
    ));
    Ok(chunks)
}

/// All chunks joined end to end.
pub open spec fn concat_all(s: Seq<Seq<u8>>) -> Seq<u8>
    decreases s.len(),
{
    if s.len() == 0 {
        seq![]
    } else {
        s[0] + concat_all(s.drop_first())
    }
}

proof fn lemma_chunks_of_laws(rest: Seq<u8>, utf32: bool, a: nat)
    requires
        valid_avg(a),
    ensures
        concat_all(chunks_of(rest, utf32, a)) == rest,
        rest.len() > 0 ==> chunks_of(rest, utf32, a).len() >= 1,
        forall|k: int|
            0 <= k < chunks_of(rest, utf32, a).len() ==> #[trigger] chunks_of(rest, utf32, a)[k].len()
                <= rest.len(),
        !utf32 ==> forall|k: int|
            0 <= k < chunks_of(rest, utf32, a).len() ==> #[trigger] chunks_of(rest, utf32, a)[k].len()
                <= 8 * a,
        !utf32 ==> forall|k: int|
            0 <= k < chunks_of(rest, utf32, a).len() - 1 ==> #[trigger] chunks_of(rest, utf32, a)[k].len()
                >= a / 4,
        utf32 ==> forall|k: int|
            0 <= k < chunks_of(rest, utf32, a).len() - 1 ==> #[trigger] chunks_of(rest, utf32, a)[k].len()
                % 4 == 0,
        utf32 && rest.len() % 4 == 0 ==> forall|k: int|
            0 <= k < chunks_of(rest, utf32, a).len() ==> #[trigger] chunks_of(rest, utf32, a)[k].len()
                % 4 == 0,
        forall|k: int|
            0 <= k < chunks_of(rest, utf32, a).len() ==> #[trigger] chunks_of(rest, utf32, a)[k].len()
                > 0,
    decreases rest.len(),
{
    if rest.len() > 0 {
        lemma_cut_point_bounds(rest, utf32, a);
        let c = cut_point(rest, utf32, a);
        let head = rest.subrange(0, c as int);
        let tail = rest.subrange(c as int, rest.len() as int);
        lemma_chunks_of_laws(tail, utf32, a);
        let cs = chunks_of(rest, utf32, a);
        let ts = chunks_of(tail, utf32, a);
        assert(cs == seq![head] + ts);
        assert(cs.drop_first() =~= ts);
        assert(head + tail =~= rest);
        if c == rest.len() {
            assert(tail.len() == 0);
            assert(ts.len() == 0);
        }
        assert forall|k: int| 1 <= k < cs.len() implies #[trigger] cs[k] == ts[k - 1] by {}
        if utf32 && rest.len() % 4 == 0 && c < rest.len() {
            assert(tail.len() % 4 == 0);
        }
    } else {
        assert(chunks_of(rest, utf32, a) =~= Seq::<Seq<u8>>::empty());
    }
}

/// Chunking loses and adds nothing: the chunks joined are the input, there is at least one
/// chunk, no chunk is longer than `8 * a` or the input, and every chunk but the last is at least
/// `a / 4` bytes long.
pub proof fn lemma_cdc_chunks_partition(data: Seq<u8>, a: nat)
    requires
        valid_avg(a),
    ensures
        concat_all(cdc_chunks(data, false, a)) == data,
        cdc_chunks(data, false, a).len() >= 1,
        forall|k: int|
            0 <= k < cdc_chunks(data, false, a).len() ==> #[trigger] cdc_chunks(data, false, a)[k].len()
                <= data.len() && cdc_chunks(data, false, a)[k].len() <= 8 * a,
        forall|k: int|
            0 <= k < cdc_chunks(data, false, a).len() - 1 ==> #[trigger] cdc_chunks(
                data,
                false,
                a,
            )[k].len() >= a / 4,
        data.len() == 0 ==> cdc_chunks(data, false, a) == seq![Seq::<u8>::empty()],
        data.len() > 0 ==> forall|k: int|
            0 <= k < cdc_chunks(data, false, a).len() ==> #[trigger] cdc_chunks(data, false, a)[k].len()
                > 0,
{
    lemma_chunks_of_laws(data, false, a);
    if data.len() == 0 {
        assert(data =~= Seq::<u8>::empty());
    }
    if data.len() == 0 {
        let s = cdc_chunks(data, false, a);
        assert(s.drop_first() =~= Seq::<Seq<u8>>::empty());
        assert(concat_all(s) == s[0] + concat_all(s.drop_first()));
        assert(s[0] + Seq::<u8>::empty() =~= data);
    }
}

/// With 4-byte alignment, the chunks joined are the input, there is at least one chunk, and
/// every chunk has a length that is a multiple of 4, except the last where the input's length
/// is not.
pub proof fn lemma_cdc_chunks_aligned(data: Seq<u8>, a: nat)
    requires
        valid_avg(a),
    ensures
        concat_all(cdc_chunks(data, true, a)) == data,
        forall|k: int|
            0 <= k < cdc_chunks(data, true, a).len() - 1 ==> #[trigger] cdc_chunks(
                data,
                true,
                a,
            )[k].len() % 4 == 0,
        cdc_chunks(data, true, a).len() >= 1,
        data.len() % 4 == 0 ==> forall|k: int|
            0 <= k < cdc_chunks(data, true, a).len() ==> #[trigger] cdc_chunks(data, true, a)[k].len()
                % 4 == 0,
{
    lemma_chunks_of_laws(data, true, a);
    if data.len() == 0 {
        let s = cdc_chunks(data, true, a);
        assert(s.drop_first() =~= Seq::<Seq<u8>>::empty());
        assert(concat_all(s) == s[0] + concat_all(s.drop_first()));
        assert(s[0] + Seq::<u8>::empty() =~= data);
    }
}

proof fn lemma_scan_extend(buf: Seq<u8>, ext: Seq<u8>, i: nat, b: nat, b2: nat, pat: u32, mask: u32)
    requires
        buf.len() <= ext.len(),
        ext.subrange(0, buf.len() as int) == buf,
        b <= buf.len(),
        b <= b2 <= ext.len(),
    ensures
        scan(buf, i, b, pat, mask).2 ==> scan(ext, i, b2, pat, mask) == scan(buf, i, b, pat, mask),
        b == b2 ==> scan(ext, i, b2, pat, mask) == scan(buf, i, b, pat, mask),
    decreases b - i,
{
    if i < b {
        assert(ext[i as int] == ext.subrange(0, buf.len() as int)[i as int]);
        let next_pattern = gear_step(pat, buf[i as int]);
        if next_pattern & mask != 0 {
            lemma_scan_extend(buf, ext, i + 1, b, b2, next_pattern, mask);
        }
    }
}

/// A cut found before the end of `x` stays where it is when more bytes follow.
proof fn lemma_cut_extend(x: Seq<u8>, y: Seq<u8>, a: nat)
    requires
        valid_avg(a),
        x.len() > 0,
        cut_point(x, false, a) < x.len(),
    ensures
        cut_point(x + y, false, a) == cut_point(x, false, a),
{
    reveal(cut_point);
    let p = cdc_params(a);
    let (mi, ma, cs, ms, ml) = (p.0, p.1, p.2, p.3 as u32, p.4 as u32);
    let z = x + y;
    assert(z.subrange(0, x.len() as int) =~= x);
    let start = if mi < x.len() {
        mi
    } else {
        x.len()
    };
    let start2 = if mi < z.len() {
        mi
    } else {
        z.len()
    };
    let b1 = if cs < x.len() {
        cs
    } else {
        x.len()
    };
    let b1z = if cs < z.len() {
        cs
    } else {
        z.len()
    };
    let b2 = if ma < x.len() {
        ma
    } else {
        x.len()
    };
    let b2z = if ma < z.len() {
        ma
    } else {
        z.len()
    };
    lemma_scan_bounds(x, start, b1, 0, ms);
    assert(start == start2);
    lemma_scan_extend(x, z, start, b1, b1z, 0, ms);
    let s1 = scan(x, start, b1, 0, ms);
    if !s1.2 {
        lemma_scan_bounds(x, s1.0, b2, s1.1, ml);
        assert(b1 == b1z);
        let s2 = scan(x, s1.0, b2, s1.1, ml);
        if !s2.2 {
            assert(b2 == b2z);
        }
        lemma_scan_extend(x, z, s1.0, b2, b2z, s1.1, ml);
    }
}

/// Chunking `s + t` gives the chunks of `s` but its last, then the chunks of that last chunk
/// followed by `t`.
pub proof fn lemma_chunks_append(s: Seq<u8>, t: Seq<u8>, a: nat)
    requires
        valid_avg(a),
        s.len() > 0,
    ensures
        chunks_of(s, false, a).len() > 0,
        chunks_of(s + t, false, a) == chunks_of(s, false, a).drop_last() + chunks_of(
            chunks_of(s, false, a).last() + t,
            false,
            a,
        ),
    decreases s.len(),
{
    lemma_cut_point_bounds(s, false, a);
    let c = cut_point(s, false, a);
    let head = s.subrange(0, c as int);
    let rest = s.subrange(c as int, s.len() as int);
    if c == s.len() {
        assert(rest.len() == 0);
        assert(chunks_of(rest, false, a) == Seq::<Seq<u8>>::empty());
        assert(head =~= s);
        assert(chunks_of(s, false, a) =~= seq![s]);
        assert(chunks_of(s, false, a).drop_last() =~= Seq::<Seq<u8>>::empty());
        assert(Seq::<Seq<u8>>::empty() + chunks_of(s + t, false, a) =~= chunks_of(s + t, false, a));
    } else {
        lemma_cut_extend(s, t, a);
        let z = s + t;
        lemma_cut_point_bounds(z, false, a);
        assert(z.subrange(0, c as int) =~= head);
        assert(z.subrange(c as int, z.len() as int) =~= rest + t);
        lemma_chunks_append(rest, t, a);
        let cr = chunks_of(rest, false, a);
        assert(chunks_of(s, false, a) == seq![head] + cr);
        assert((seq![head] + cr).drop_last() =~= seq![head] + cr.drop_last());
        assert((seq![head] + cr).last() == cr.last());
        assert(seq![head] + (cr.drop_last() + chunks_of(cr.last() + t, false, a)) =~= (seq![head]
            + cr.drop_last()) + chunks_of(cr.last() + t, false, a));
    }
}

/// The last chunk of a non-empty input is its own only chunk.
pub proof fn lemma_last_chunk_alone(s: Seq<u8>, a: nat)
    requires
        valid_avg(a),
        s.len() > 0,
    ensures
        chunks_of(s, false, a).len() > 0,
        chunks_of(s, false, a).last().len() > 0,
        chunks_of(chunks_of(s, false, a).last(), false, a) == seq![chunks_of(s, false, a).last()],
    decreases s.len(),
{
    lemma_cut_point_bounds(s, false, a);
    let c = cut_point(s, false, a);
    let rest = s.subrange(c as int, s.len() as int);
    if c == s.len() {
        assert(rest.len() == 0);
        assert(chunks_of(rest, false, a) == Seq::<Seq<u8>>::empty());
        assert(s.subrange(0, c as int) =~= s);
        assert(chunks_of(s, false, a) =~= seq![s]);
        assert(s.subrange(c as int, s.len() as int) =~= Seq::<u8>::empty());
        assert(chunks_of(s, false, a) =~= seq![s]);
    } else {
        lemma_last_chunk_alone(rest, a);
        let cr = chunks_of(rest, false, a);
        assert(chunks_of(s, false, a) == seq![s.subrange(0, c as int)] + cr);
        assert((seq![s.subrange(0, c as int)] + cr).last() == cr.last());
    }
}

} // verus!
