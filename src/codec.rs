//! Type enums, varnibble headers, length fields, unit sets and component strings.
use crate::encoding::{base32_text, upper_of};
pub use crate::encoding::{decode_base32, encode_base32, encode_base64};
use crate::bits::{
    bit_at, bits_of, bits_to_bytes, bits_value, copy_range, append_range, extract_bits, get_bit, nat_bits, pack, pad_bits,
    push_bits,
};
use crate::bits::{lemma_nat_bits_len, lemma_nat_bits_value, lemma_read_packed};
use crate::IsccError;
use vstd::arithmetic::power2::{lemma2_to64, pow2};
use vstd::prelude::*;

verus! {

/// The kind of an identifier unit.
#[derive(Debug, Clone, Copy, PartialEq, Eq, Structural)]
pub enum MainType {
    Meta,
    Semantic,
    Content,
    Data,
    Instance,
    Iscc,
    Id,
    Flake,
}

/// The sub-kind of a unit; its meaning depends on the main type.
#[derive(Debug, Clone, Copy, PartialEq, Eq, Structural)]
pub enum SubType {
    /// No specific subtype; also text in content and semantic context.
    Unspecified,
    Image,
    Audio,
    Video,
    Mixed,
    /// A composite of only the two mandatory units.
    Sum,
    /// A composite without one common content subtype.
    IsccNone,
    /// A composite of 128-bit data and instance units.
    Wide,
}

/// Version of the identifier scheme.
#[derive(Debug, Clone, Copy, PartialEq, Eq, Structural)]
pub enum Version {
    V0,
}

impl MainType {
    pub open spec fn spec_value(self) -> nat {
        match self {
            MainType::Meta => 0,
            MainType::Semantic => 1,
            MainType::Content => 2,
            MainType::Data => 3,
            MainType::Instance => 4,
            MainType::Iscc => 5,
            MainType::Id => 6,
            MainType::Flake => 7,
        }
    }

    pub open spec fn spec_from(v: nat) -> MainType {
        if v == 0 {
            MainType::Meta
        } else if v == 1 {
            MainType::Semantic
        } else if v == 2 {
            MainType::Content
        } else if v == 3 {
            MainType::Data
        } else if v == 4 {
            MainType::Instance
        } else if v == 5 {
            MainType::Iscc
        } else if v == 6 {
            MainType::Id
        } else {
            MainType::Flake
        }
    }

    /// The numeric value of this main type.
    pub fn value(self) -> (r: u32)
        ensures
            r as nat == self.spec_value(),
            r < 8,
            MainType::spec_from(r as nat) == self,
    {
        match self {
            MainType::Meta => 0,
            MainType::Semantic => 1,
            MainType::Content => 2,
            MainType::Data => 3,
            MainType::Instance => 4,
            MainType::Iscc => 5,
            MainType::Id => 6,
            MainType::Flake => 7,
        }
    }

    /// The main type with numeric value `v`, if there is one.
    pub fn from_value(v: u8) -> (r: Result<MainType, IsccError>)
        ensures
            r is Ok <==> v < 8,
            r is Ok ==> r->Ok_0 == MainType::spec_from(v as nat) && r->Ok_0.spec_value() == v,
    {
        match v {
            0 => Ok(MainType::Meta),
            1 => Ok(MainType::Semantic),
            2 => Ok(MainType::Content),
            3 => Ok(MainType::Data),
            4 => Ok(MainType::Instance),
            5 => Ok(MainType::Iscc),
            6 => Ok(MainType::Id),
            7 => Ok(MainType::Flake),
            _ => Err(IsccError::invalid("invalid MainType")),
        }
    }
}

impl SubType {
    /// Text content, in content and semantic context.
    pub const TEXT: SubType = SubType::Unspecified;

    pub open spec fn spec_value(self) -> nat {
        match self {
            SubType::Unspecified => 0,
            SubType::Image => 1,
            SubType::Audio => 2,
            SubType::Video => 3,
            SubType::Mixed => 4,
            SubType::Sum => 5,
            SubType::IsccNone => 6,
            SubType::Wide => 7,
        }
    }

    pub open spec fn spec_from(v: nat) -> SubType {
        if v == 0 {
            SubType::Unspecified
        } else if v == 1 {
            SubType::Image
        } else if v == 2 {
            SubType::Audio
        } else if v == 3 {
            SubType::Video
        } else if v == 4 {
            SubType::Mixed
        } else if v == 5 {
            SubType::Sum
        } else if v == 6 {
            SubType::IsccNone
        } else {
            SubType::Wide
        }
    }

    /// The numeric value of this subtype.
    pub fn value(self) -> (r: u32)
        ensures
            r as nat == self.spec_value(),
            r < 8,
            SubType::spec_from(r as nat) == self,
    {
        match self {
            SubType::Unspecified => 0,
            SubType::Image => 1,
            SubType::Audio => 2,
            SubType::Video => 3,
            SubType::Mixed => 4,
            SubType::Sum => 5,
            SubType::IsccNone => 6,
            SubType::Wide => 7,
        }
    }

    /// The subtype with numeric value `v`, if there is one.
    pub fn from_value(v: u8) -> (r: Result<SubType, IsccError>)
        ensures
            r is Ok <==> v < 8,
            r is Ok ==> r->Ok_0 == SubType::spec_from(v as nat) && r->Ok_0.spec_value() == v,
    {
        match v {
            0 => Ok(SubType::Unspecified),
            1 => Ok(SubType::Image),
            2 => Ok(SubType::Audio),
            3 => Ok(SubType::Video),
            4 => Ok(SubType::Mixed),
            5 => Ok(SubType::Sum),
            6 => Ok(SubType::IsccNone),
            7 => Ok(SubType::Wide),
            _ => Err(IsccError::invalid("invalid SubType")),
        }
    }
}

impl Version {
    pub open spec fn spec_value(self) -> nat {
        0
    }

    /// The numeric value of this version.
    pub fn value(self) -> (r: u32)
        ensures
            r as nat == self.spec_value(),
    {
        0
    }

    /// The version with numeric value `v`, if there is one.
    pub fn from_value(v: u8) -> (r: Result<Version, IsccError>)
        ensures
            r is Ok <==> v == 0,
    {
        if v == 0 {
            Ok(Version::V0)
        } else {
            Err(IsccError::invalid("invalid Version"))
        }
    }
}

// ---- Varnibbles ----

/// Largest value a varnibble can hold.
pub const VARNIBBLE_MAX: u32 = 4679;

/// The varnibble bits of `v`: a unary length prefix, then the payload.
pub open spec fn varnibble(v: nat) -> Seq<bool> {
    if v < 8 {
        nat_bits(v, 4)
    } else if v < 72 {
        seq![true, false] + nat_bits((v - 8) as nat, 6)
    } else if v < 584 {
        seq![true, true, false] + nat_bits((v - 72) as nat, 9)
    } else {
        seq![true, true, true, false] + nat_bits((v - 584) as nat, 12)
    }
}

/// Number of bits in the varnibble of `v`.
pub open spec fn varnibble_len(v: nat) -> nat {
    if v < 8 {
        4
    } else if v < 72 {
        8
    } else if v < 584 {
        12
    } else {
        16
    }
}

/// The varnibble read at bit `pos` of `data`, with the number of bits it takes.
#[verifier::opaque]
pub open spec fn read_varnibble(data: Seq<u8>, pos: int) -> Option<(nat, nat)> {
    let avail = data.len() * 8 - pos;
    if avail < 4 {
        None
    } else if !bit_at(data, pos) {
        Some((bits_value(bits_of(data, pos, 4)), 4))
    } else if avail >= 8 && !bit_at(data, pos + 1) {
        Some((bits_value(bits_of(data, pos + 2, 6)) + 8, 8))
    } else if avail >= 12 && !bit_at(data, pos + 2) {
        Some((bits_value(bits_of(data, pos + 3, 9)) + 72, 12))
    } else if avail >= 16 && !bit_at(data, pos + 3) {
        Some((bits_value(bits_of(data, pos + 4, 12)) + 584, 16))
    } else {
        None
    }
}

/// The bits of a header before padding.
pub open spec fn header_bits(m: nat, s: nat, v: nat, l: nat) -> Seq<bool> {
    varnibble(m) + varnibble(s) + varnibble(v) + varnibble(l)
}

/// The bytes of a header: four varnibbles padded to a whole byte.
pub open spec fn header_bytes(m: nat, s: nat, v: nat, l: nat) -> Seq<u8> {
    pack(pad_bits(header_bits(m, s, v, l)))
}

pub proof fn lemma_varnibble_len(v: nat)
    ensures
        varnibble(v).len() == varnibble_len(v),
{
    lemma_nat_bits_len(v, 4);
    if v >= 8 {
        lemma_nat_bits_len((v - 8) as nat, 6);
    }
    if v >= 72 {
        lemma_nat_bits_len((v - 72) as nat, 9);
    }
    if v >= 584 {
        lemma_nat_bits_len((v - 584) as nat, 12);
    }
}

/// Encodes `value` as varnibble bits.
pub fn encode_varnibble(value: u32) -> (r: Result<Vec<bool>, IsccError>)
    ensures
        r is Ok <==> value <= VARNIBBLE_MAX,
        r is Ok ==> r->Ok_0@ == varnibble(value as nat),
{
    let mut bits: Vec<bool> = Vec::new();
    if value <= 7 {
        push_bits(&mut bits, value, 4);
        assert(bits@ == varnibble(value as nat));
        Ok(bits)
    } else if value <= 71 {
        bits.push(true);
        bits.push(false);
        push_bits(&mut bits, value - 8, 6);
        assert(bits@ == varnibble(value as nat));
        Ok(bits)
    } else if value <= 583 {
        bits.push(true);
        bits.push(true);
        bits.push(false);
        push_bits(&mut bits, value - 72, 9);
        assert(bits@ == varnibble(value as nat));
        Ok(bits)
    } else if value <= VARNIBBLE_MAX {
        bits.push(true);
        bits.push(true);
        bits.push(true);
        bits.push(false);
        push_bits(&mut bits, value - 584, 12);
        assert(bits@ == varnibble(value as nat));
        Ok(bits)
    } else {
        Err(IsccError::invalid("varnibble value out of range (0-4679)"))
    }
}

/// Reads the varnibble at bit `bit_pos` of `data`; returns its value and its width in bits.
pub fn decode_varnibble_from_bytes(data: &[u8], bit_pos: usize) -> (r: Result<(u32, usize), IsccError>)
    requires
        bit_pos <= data@.len() * 8,
        data@.len() * 8 + 16 <= usize::MAX,
    ensures
        match read_varnibble(data@, bit_pos as int) {
            Some((v, n)) => r is Ok && r->Ok_0.0 as nat == v && r->Ok_0.1 as nat == n,
            None => r is Err,
        },
{
    reveal(read_varnibble);
    let available = data.len() * 8 - bit_pos;
    if available < 4 {
        return Err(IsccError::invalid("insufficient bits for varnibble"));
    }
    if !get_bit(data, bit_pos) {
        Ok((extract_bits(data, bit_pos, 4), 4))
    } else if available >= 8 && !get_bit(data, bit_pos + 1) {
        let v = extract_bits(data, bit_pos + 2, 6);
        proof {
            lemma2_to64();
        }
        Ok((v + 8, 8))
    } else if available >= 12 && !get_bit(data, bit_pos + 2) {
        let v = extract_bits(data, bit_pos + 3, 9);
        proof {
            lemma2_to64();
        }
        Ok((v + 72, 12))
    } else if available >= 16 && !get_bit(data, bit_pos + 3) {
        let v = extract_bits(data, bit_pos + 4, 12);
        proof {
            lemma2_to64();
        }
        Ok((v + 584, 16))
    } else {
        Err(IsccError::invalid("invalid varnibble prefix or insufficient bits"))
    }
}

// ---- Headers ----

/// Encodes the four header fields as varnibbles padded to a whole byte.
pub fn encode_header(mtype: MainType, stype: SubType, version: Version, length: u32) -> (r: Result<
    Vec<u8>,
    IsccError,
>)
    ensures
        r is Ok <==> length <= VARNIBBLE_MAX,
        r is Ok ==> r->Ok_0@ == header_bytes(
            mtype.spec_value(),
            stype.spec_value(),
            version.spec_value(),
            length as nat,
        ),
{
    let mut bits = encode_varnibble(mtype.value())?;
    let mut b2 = encode_varnibble(stype.value())?;
    let mut b3 = encode_varnibble(version.value())?;
    let mut b4 = encode_varnibble(length)?;
    bits.append(&mut b2);
    bits.append(&mut b3);
    bits.append(&mut b4);
    Ok(bits_to_bytes(&bits))
}

/// The raw header fields of `data` and the bit offset after them.
pub open spec fn header_fields(data: Seq<u8>) -> Option<(nat, nat, nat, nat, nat)> {
    match read_varnibble(data, 0) {
        None => None,
        Some((m, c1)) => match read_varnibble(data, c1 as int) {
            None => None,
            Some((s, c2)) => match read_varnibble(data, (c1 + c2) as int) {
                None => None,
                Some((v, c3)) => match read_varnibble(data, (c1 + c2 + c3) as int) {
                    None => None,
                    Some((l, c4)) => Some((m, s, v, l, c1 + c2 + c3 + c4)),
                },
            },
        },
    }
}

/// The bytes after a header that ends at bit `end`.
pub open spec fn tail_after(data: Seq<u8>, end: nat) -> Seq<u8> {
    let start = (end + 7) / 8;
    if start < data.len() {
        data.subrange(start as int, data.len() as int)
    } else {
        seq![]
    }
}

/// What `decode_header` yields on `data`, if it succeeds.
pub open spec fn decoded_header(data: Seq<u8>) -> Option<(MainType, SubType, Version, nat, Seq<u8>)> {
    match header_fields(data) {
        None => None,
        Some((m, s, v, l, end)) => if m < 8 && s < 8 && v == 0 {
            Some(
                (
                    MainType::spec_from(m),
                    SubType::spec_from(s),
                    Version::V0,
                    l,
                    tail_after(data, end),
                ),
            )
        } else {
            None
        },
    }
}

proof fn lemma_read_varnibble_width(data: Seq<u8>, pos: int)
    ensures
        read_varnibble(data, pos) matches Some((v, n)) ==> (n == 4 || n == 8 || n == 12 || n
            == 16) && pos + n <= data.len() * 8 && v <= VARNIBBLE_MAX,
{
    reveal(read_varnibble);
    if let Some((v, n)) = read_varnibble(data, pos) {
        lemma2_to64();
        crate::bits::lemma_bits_value_bound(bits_of(data, pos, 4));
        crate::bits::lemma_bits_value_bound(bits_of(data, pos + 2, 6));
        crate::bits::lemma_bits_value_bound(bits_of(data, pos + 3, 9));
        crate::bits::lemma_bits_value_bound(bits_of(data, pos + 4, 12));
    }
}

/// Reads the four raw header fields; returns them with the bit offset after them.
fn read_header_fields(data: &[u8]) -> (r: Result<(u32, u32, u32, u32, usize), IsccError>)
    requires
        data@.len() * 8 + 16 <= usize::MAX,
    ensures
        match header_fields(data@) {
            None => r is Err,
            Some((m, s, v, l, end)) => r is Ok && r->Ok_0.0 as nat == m && r->Ok_0.1 as nat == s
                && r->Ok_0.2 as nat == v && r->Ok_0.3 as nat == l && r->Ok_0.4 as nat == end,
        },
        r is Ok ==> r->Ok_0.4 as nat <= data@.len() * 8 && r->Ok_0.4 % 4 == 0,
        r is Ok ==> r->Ok_0.3 <= VARNIBBLE_MAX,
{
    proof {
        lemma_read_varnibble_width(data@, 0);
    }
    let (m, c1) = decode_varnibble_from_bytes(data, 0)?;
    proof {
        lemma_read_varnibble_width(data@, c1 as int);
    }
    let (s, c2) = decode_varnibble_from_bytes(data, c1)?;
    let pos_b = c1 + c2;
    proof {
        lemma_read_varnibble_width(data@, pos_b as int);
    }
    let (v, c3) = decode_varnibble_from_bytes(data, pos_b)?;
    let pos_c = pos_b + c3;
    proof {
        lemma_read_varnibble_width(data@, pos_c as int);
    }
    let (l, c4) = decode_varnibble_from_bytes(data, pos_c)?;
    Ok((m, s, v, l, pos_c + c4))
}

/// Decodes a header; returns the main type, subtype, version, raw length and the bytes after it.
pub fn decode_header(data: &[u8]) -> (r: Result<(MainType, SubType, Version, u32, Vec<u8>), IsccError>)
    requires
        data@.len() * 8 + 16 <= usize::MAX,
    ensures
        match decoded_header(data@) {
            None => r is Err,
            Some((m, s, v, l, t)) => r is Ok && r->Ok_0.0 == m && r->Ok_0.1 == s && r->Ok_0.2 == v
                && r->Ok_0.3 as nat == l && r->Ok_0.4@ == t,
        },
        r is Ok ==> r->Ok_0.3 <= VARNIBBLE_MAX,
{
    let (mtype_val, stype_val, version_val, length, end) = read_header_fields(data)?;
    let mut bit_pos = end;
    // A header that does not end on a byte boundary is followed by four zero bits of padding.
    if bit_pos % 8 != 0 && bit_pos + 4 <= data.len() * 8 && extract_bits(data, bit_pos, 4) == 0 {
        bit_pos = bit_pos + 4;
    }
    let tail_byte_start = (bit_pos + 7) / 8;
    assert(tail_byte_start == (end + 7) / 8);
    let tail = if tail_byte_start < data.len() {
        copy_range(data, tail_byte_start, data.len())
    } else {
        Vec::new()
    };
    assert(tail@ == tail_after(data@, end as nat));
    if mtype_val > 7 {
        return Err(IsccError::invalid("invalid MainType"));
    }
    if stype_val > 7 {
        return Err(IsccError::invalid("invalid SubType"));
    }
    if version_val != 0 {
        return Err(IsccError::invalid("invalid Version"));
    }
    let mtype = MainType::from_value(mtype_val as u8)?;
    let stype = SubType::from_value(stype_val as u8)?;
    let version = Version::from_value(version_val as u8)?;
    Ok((mtype, stype, version, length, tail))
}

// ---- Length fields ----

/// Whether `m` is a unit type whose length field counts 32-bit steps.
pub open spec fn is_standard(m: MainType) -> bool {
    m != MainType::Iscc && m != MainType::Id
}

/// The length field that stands for `bits` bits in a header of main type `m`.
pub open spec fn length_code(m: MainType, bits: nat) -> Option<nat> {
    if is_standard(m) {
        if bits >= 32 && bits % 32 == 0 {
            Some((bits / 32 - 1) as nat)
        } else {
            None
        }
    } else if m == MainType::Iscc {
        if bits <= 7 {
            Some(bits)
        } else {
            None
        }
    } else if 64 <= bits <= 96 && (bits - 64) % 8 == 0 {
        Some(((bits - 64) / 8) as nat)
    } else {
        None
    }
}

/// Number of one bits in `n`.
pub open spec fn popcount(n: nat) -> nat
    decreases n,
{
    if n == 0 {
        0
    } else {
        n % 2 + popcount(n / 2)
    }
}

/// The number of digest bits that length field `l` stands for.
pub open spec fn length_bits(m: MainType, l: nat, s: SubType) -> nat {
    if is_standard(m) {
        (l + 1) * 32
    } else if m == MainType::Iscc {
        if s == SubType::Wide {
            256
        } else {
            popcount(l) * 64 + 128
        }
    } else {
        l * 8 + 64
    }
}

/// Encodes a bit length as the header length field of main type `mtype`.
pub fn encode_length(mtype: MainType, length: u32) -> (r: Result<u32, IsccError>)
    ensures
        match length_code(mtype, length as nat) {
            Some(c) => r is Ok && r->Ok_0 as nat == c,
            None => r is Err,
        },
{
    match mtype {
        MainType::Iscc => {
            if length <= 7 {
                Ok(length)
            } else {
                Err(IsccError::invalid("invalid length for ISCC (must be 0-7)"))
            }
        },
        MainType::Id => {
            if 64 <= length && length <= 96 && (length - 64) % 8 == 0 {
                Ok((length - 64) / 8)
            } else {
                Err(IsccError::invalid("invalid length for ID (must be 64-96, step 8)"))
            }
        },
        _ => {
            if length >= 32 && length % 32 == 0 {
                Ok(length / 32 - 1)
            } else {
                Err(IsccError::invalid("invalid length (must be multiple of 32, >= 32)"))
            }
        },
    }
}

fn count_ones(n: u32) -> (r: u32)
    ensures
        r as nat == popcount(n as nat),
        r <= 32,
{
    let mut k: u32 = n;
    let mut c: u32 = 0;
    let mut i: u32 = 0;
    proof {
        lemma2_to64();
    }
    while i < 32
        invariant
            i <= 32,
            c <= i,
            c as nat + popcount(k as nat) == popcount(n as nat),
            k < pow2((32 - i) as nat),
        decreases 32 - i,
    {
        proof {
            vstd::arithmetic::power2::lemma_pow2_unfold((32 - i) as nat);
        }
        c = c + k % 2;
        k = k / 2;
        i = i + 1;
    }
    proof {
        lemma2_to64();
    }
    c
}

/// The number of digest bits that the length field `length` stands for.
pub fn decode_length(mtype: MainType, length: u32, stype: SubType) -> (r: u32)
    requires
        length <= VARNIBBLE_MAX,
    ensures
        r as nat == length_bits(mtype, length as nat, stype),
{
    match mtype {
        MainType::Iscc => {
            if stype == SubType::Wide {
                256
            } else {
                count_ones(length) * 64 + 128
            }
        },
        MainType::Id => length * 8 + 64,
        _ => (length + 1) * 32,
    }
}

// ---- Unit sets ----

/// The unit-set code of a list of optional main types.
pub open spec fn units_code(types: Seq<MainType>) -> nat {
    (if types.contains(MainType::Meta) {
        4nat
    } else {
        0nat
    }) + (if types.contains(MainType::Semantic) {
        2nat
    } else {
        0nat
    }) + (if types.contains(MainType::Content) {
        1nat
    } else {
        0nat
    })
}

/// Whether every type in `types` is one of the optional unit types.
pub open spec fn all_optional(types: Seq<MainType>) -> bool {
    forall|i: int|
        0 <= i < types.len() ==> (types[i] == MainType::Meta || types[i] == MainType::Semantic
            || types[i] == MainType::Content)
}

/// The optional main types that a unit-set code stands for, in main-type order.
pub open spec fn units_of(u: nat) -> Seq<MainType> {
    (if (u / 4) % 2 == 1 {
        seq![MainType::Meta]
    } else {
        seq![]
    }) + (if (u / 2) % 2 == 1 {
        seq![MainType::Semantic]
    } else {
        seq![]
    }) + (if u % 2 == 1 {
        seq![MainType::Content]
    } else {
        seq![]
    })
}

/// Encodes the set of optional units (Meta, Semantic, Content) present in a composite.
pub fn encode_units(main_types: &[MainType]) -> (r: Result<u32, IsccError>)
    ensures
        r is Ok <==> all_optional(main_types@),
        r is Ok ==> r->Ok_0 as nat == units_code(main_types@),
{
    let mut meta = false;
    let mut semantic = false;
    let mut content = false;
    let mut i: usize = 0;
    while i < main_types.len()
        invariant
            i <= main_types@.len(),
            all_optional(main_types@.subrange(0, i as int)),
            meta == main_types@.subrange(0, i as int).contains(MainType::Meta),
            semantic == main_types@.subrange(0, i as int).contains(MainType::Semantic),
            content == main_types@.subrange(0, i as int).contains(MainType::Content),
        decreases main_types@.len() - i,
    {
        let mt = main_types[i];
        let ghost before = main_types@.subrange(0, i as int);
        assert(main_types@.subrange(0, i + 1) == before.push(mt));
        match mt {
            MainType::Content => {
                content = true;
            },
            MainType::Semantic => {
                semantic = true;
            },
            MainType::Meta => {
                meta = true;
            },
            _ => {
                assert(!all_optional(main_types@));
                return Err(IsccError::invalid("not a valid optional unit type"));
            },
        }
        i = i + 1;
        proof {
            let now = main_types@.subrange(0, i as int);
            assert(now.last() == mt);
            assert(now.contains(mt));
            assert forall|t: MainType| t != mt implies now.contains(t) == before.contains(t) by {
                if now.contains(t) {
                    let k = choose|k: int| 0 <= k < now.len() && now[k] == t;
                    assert(k < before.len());
                    assert(before[k] == t);
                }
                if before.contains(t) {
                    let k = choose|k: int| 0 <= k < before.len() && before[k] == t;
                    assert(now[k] == t);
                }
            }
        }
    }
    assert(main_types@.subrange(0, main_types@.len() as int) == main_types@);
    let r: u32 = (if meta {
        4
    } else {
        0
    }) + (if semantic {
        2
    } else {
        0
    }) + (if content {
        1
    } else {
        0
    });
    Ok(r)
}

/// Decodes a unit-set code (0 to 7) into the optional main types it holds, in main-type order.
pub fn decode_units(unit_id: u32) -> (r: Result<Vec<MainType>, IsccError>)
    ensures
        r is Ok <==> unit_id <= 7,
        r is Ok ==> r->Ok_0@ == units_of(unit_id as nat),
{
    if unit_id > 7 {
        return Err(IsccError::invalid("invalid unit_id (must be 0-7)"));
    }
    let mut result: Vec<MainType> = Vec::new();
    if (unit_id / 4) % 2 == 1 {
        result.push(MainType::Meta);
    }
    if (unit_id / 2) % 2 == 1 {
        result.push(MainType::Semantic);
    }
    if unit_id % 2 == 1 {
        result.push(MainType::Content);
    }
    assert(result@ == units_of(unit_id as nat));
    Ok(result)
}

/// Decoding a unit-set code and encoding the types again gives the code back.
pub proof fn lemma_units_round_trip(u: nat)
    requires
        u <= 7,
    ensures
        all_optional(units_of(u)),
        units_code(units_of(u)) == u,
{
    let s = units_of(u);
    if u == 0 {
        assert(s =~= seq![]);
    } else if u == 1 {
        assert(s =~= seq![MainType::Content]);
        assert(s[0] == MainType::Content);
    } else if u == 2 {
        assert(s =~= seq![MainType::Semantic]);
        assert(s[0] == MainType::Semantic);
    } else if u == 3 {
        assert(s =~= seq![MainType::Semantic, MainType::Content]);
        assert(s[0] == MainType::Semantic);
        assert(s[1] == MainType::Content);
    } else if u == 4 {
        assert(s =~= seq![MainType::Meta]);
        assert(s[0] == MainType::Meta);
    } else if u == 5 {
        assert(s =~= seq![MainType::Meta, MainType::Content]);
        assert(s[0] == MainType::Meta);
        assert(s[1] == MainType::Content);
    } else if u == 6 {
        assert(s =~= seq![MainType::Meta, MainType::Semantic]);
        assert(s[0] == MainType::Meta);
        assert(s[1] == MainType::Semantic);
    } else if u == 7 {
        assert(s =~= seq![MainType::Meta, MainType::Semantic, MainType::Content]);
        assert(s[0] == MainType::Meta);
        assert(s[1] == MainType::Semantic);
        assert(s[2] == MainType::Content);
    }
}

// ---- Components ----

/// Whether a unit of main type `m` with `bits` digest bits has a header.
pub open spec fn encodable(m: MainType, bits: nat) -> bool {
    m != MainType::Iscc && length_code(m, bits) is Some && length_code(m, bits)->0 <= VARNIBBLE_MAX
}

/// The bytes of a unit: its header, then the first `bits / 8` digest bytes (or all there are).
#[verifier::opaque]
pub open spec fn component_bytes(m: MainType, s: SubType, bits: nat, digest: Seq<u8>) -> Seq<u8> {
    let n = if bits / 8 <= digest.len() {
        bits / 8
    } else {
        digest.len()
    };
    header_bytes(m.spec_value(), s.spec_value(), 0, length_code(m, bits)->0) + digest.subrange(
        0,
        n as int,
    )
}

/// The unit string: base32 of the unit's bytes.
pub open spec fn component_text(m: MainType, s: SubType, bits: nat, digest: Seq<u8>) -> Seq<char> {
    base32_text(component_bytes(m, s, bits, digest))
}

/// Encodes a unit (header and leading digest bytes) as base32 text without prefix.
pub fn encode_component(
    mtype: MainType,
    stype: SubType,
    version: Version,
    bit_length: u32,
    digest: &[u8],
) -> (r: Result<String, IsccError>)
    ensures
        r is Ok <==> encodable(mtype, bit_length as nat),
        r is Ok ==> r->Ok_0@ == component_text(mtype, stype, bit_length as nat, digest@),
{
    if mtype == MainType::Iscc {
        return Err(IsccError::invalid("ISCC MainType is not a unit; use gen_iscc_code_v0 instead"));
    }
    let encoded_length = encode_length(mtype, bit_length)?;
    let nbytes = (bit_length / 8) as usize;
    let mut component = encode_header(mtype, stype, version, encoded_length)?;
    let take = if nbytes <= digest.len() {
        nbytes
    } else {
        digest.len()
    };
    append_range(&mut component, digest, 0, take);
    proof {
        reveal(component_bytes);
    }
    Ok(encode_base32(component.as_slice()))
}

/// Encoding a bit length as a length field and decoding it again gives the bit length back.
pub proof fn lemma_length_round_trip(m: MainType, bits: nat, s: SubType)
    requires
        is_standard(m),
        32 <= bits <= 256,
        bits % 32 == 0,
    ensures
        length_code(m, bits) is Some,
        length_bits(m, length_code(m, bits)->0, s) == bits,
{
}

proof fn lemma_first_bit_weight(s: Seq<bool>)
    requires
        s.len() > 0,
        s[0],
    ensures
        bits_value(s) >= pow2((s.len() - 1) as nat),
{
    let a = s.subrange(0, 1);
    let b = s.subrange(1, s.len() as int);
    assert(s == a + b);
    crate::bits::lemma_bits_value_concat(a, b);
    assert(a.drop_last() == Seq::<bool>::empty());
    assert(bits_value(a.drop_last()) == 0);
    assert(bits_value(a) == 1);
}

proof fn lemma_nat_bits_top(v: nat, n: nat)
    requires
        n > 0,
        v < pow2((n - 1) as nat),
    ensures
        !nat_bits(v, n)[0],
{
    lemma_nat_bits_len(v, n);
    vstd::arithmetic::power2::lemma_pow2_strictly_increases((n - 1) as nat, n);
    lemma_nat_bits_value(v, n);
    if nat_bits(v, n)[0] {
        lemma_first_bit_weight(nat_bits(v, n));
    }
}

/// A varnibble written into packed bits is read back at the same position.
pub proof fn lemma_read_written_varnibble(data: Seq<u8>, bits: Seq<bool>, pos: int, v: nat)
    requires
        v <= VARNIBBLE_MAX,
        bits.len() % 8 == 0,
        bits.len() / 8 <= data.len(),
        data.subrange(0, (bits.len() / 8) as int) == pack(bits),
        0 <= pos,
        pos + varnibble_len(v) <= bits.len(),
        bits.subrange(pos, pos + varnibble_len(v)) == varnibble(v),
    ensures
        read_varnibble(data, pos) == Some((v, varnibble_len(v))),
{
    reveal(read_varnibble);
    lemma_varnibble_len(v);
    lemma2_to64();
    let n = varnibble_len(v);
    let vn = varnibble(v);
    lemma_read_packed(data, bits, pos, n);
    assert(bits_of(data, pos, n) == vn);
    assert forall|k: int| 0 <= k < n implies bit_at(data, pos + k) == vn[k] by {
        assert(bits_of(data, pos, n)[k] == bit_at(data, pos + k));
    }
    assert(bit_at(data, pos) == vn[0]);
    assert(bit_at(data, pos + 1) == vn[1]);
    assert(bit_at(data, pos + 2) == vn[2]);
    assert(bit_at(data, pos + 3) == vn[3]);
    assert(pos + n <= data.len() * 8);
    if v < 8 {
        lemma_nat_bits_top(v, 4);
        lemma_nat_bits_value(v, 4);
    } else if v < 72 {
        assert(vn[0] && !vn[1]);
        lemma_read_packed(data, bits, pos + 2, 6);
        assert(bits_of(data, pos + 2, 6) == vn.subrange(2, 8));
        assert(vn.subrange(2, 8) == nat_bits((v - 8) as nat, 6));
        lemma_nat_bits_value((v - 8) as nat, 6);
    } else if v < 584 {
        assert(vn[0] && vn[1] && !vn[2]);
        lemma_read_packed(data, bits, pos + 3, 9);
        assert(bits_of(data, pos + 3, 9) == vn.subrange(3, 12));
        assert(vn.subrange(3, 12) == nat_bits((v - 72) as nat, 9));
        lemma_nat_bits_value((v - 72) as nat, 9);
    } else {
        assert(vn[0] && vn[1] && vn[2] && !vn[3]);
        lemma_read_packed(data, bits, pos + 4, 12);
        assert(bits_of(data, pos + 4, 12) == vn.subrange(4, 16));
        assert(vn.subrange(4, 16) == nat_bits((v - 584) as nat, 12));
        lemma_nat_bits_value((v - 584) as nat, 12);
    }
}

/// Reading what was written recovers every varnibble value.
pub proof fn lemma_varnibble_round_trip(v: nat)
    requires
        v <= VARNIBBLE_MAX,
    ensures
        read_varnibble(pack(pad_bits(varnibble(v))), 0) == Some((v, varnibble_len(v))),
{
    let bits = pad_bits(varnibble(v));
    lemma_varnibble_len(v);
    let data = pack(bits);
    assert(data.subrange(0, (bits.len() / 8) as int) == data);
    assert(bits.subrange(0, varnibble_len(v) as int) == varnibble(v));
    lemma_read_written_varnibble(data, bits, 0, v);
}

proof fn lemma_spec_from_value(m: MainType, s: SubType)
    ensures
        MainType::spec_from(m.spec_value()) == m,
        SubType::spec_from(s.spec_value()) == s,
        m.spec_value() < 8,
        s.spec_value() < 8,
{
}

/// The header of a unit's bytes decodes to the fields it was made from, followed by the
/// digest bytes it holds.
pub proof fn lemma_component_header(m: MainType, s: SubType, bits: nat, digest: Seq<u8>)
    requires
        encodable(m, bits),
    ensures
        decoded_header(component_bytes(m, s, bits, digest)) == Some(
            (
                m,
                s,
                Version::V0,
                length_code(m, bits)->0,
                component_bytes(m, s, bits, digest).subrange(
                    header_bytes(m.spec_value(), s.spec_value(), 0, length_code(m, bits)->0).len()
                        as int,
                    component_bytes(m, s, bits, digest).len() as int,
                ),
            ),
        ),
{
    reveal(component_bytes);
    let mv = m.spec_value();
    let sv = s.spec_value();
    let l = length_code(m, bits)->0;
    lemma_spec_from_value(m, s);
    lemma_varnibble_len(mv);
    lemma_varnibble_len(sv);
    lemma_varnibble_len(0);
    lemma_varnibble_len(l);
    let hb = header_bits(mv, sv, 0, l);
    let pb = pad_bits(hb);
    let hdr = pack(pb);
    let data = component_bytes(m, s, bits, digest);
    assert(data.subrange(0, (pb.len() / 8) as int) == hdr);
    let c1 = varnibble_len(mv) as int;
    let c2 = varnibble_len(sv) as int;
    let c3 = varnibble_len(0) as int;
    let c4 = varnibble_len(l) as int;
    assert(pb.subrange(0, c1) == varnibble(mv));
    assert(pb.subrange(c1, c1 + c2) == varnibble(sv));
    assert(pb.subrange(c1 + c2, c1 + c2 + c3) == varnibble(0));
    assert(pb.subrange(c1 + c2 + c3, c1 + c2 + c3 + c4) == varnibble(l));
    lemma_read_written_varnibble(data, pb, 0, mv);
    lemma_read_written_varnibble(data, pb, c1, sv);
    lemma_read_written_varnibble(data, pb, c1 + c2, 0);
    lemma_read_written_varnibble(data, pb, c1 + c2 + c3, l);
    let end = c1 + c2 + c3 + c4;
    assert(header_fields(data) == Some((mv, sv, 0nat, l, end as nat)));
    assert((end + 7) / 8 == hdr.len());
}

/// A header followed by a body decodes to the header's fields and that body.
pub proof fn lemma_header_then_body(m: MainType, s: SubType, l: nat, body: Seq<u8>)
    requires
        l <= VARNIBBLE_MAX,
    ensures
        decoded_header(header_bytes(m.spec_value(), s.spec_value(), 0, l) + body) == Some(
            (m, s, Version::V0, l, body),
        ),
{
    let mv = m.spec_value();
    let sv = s.spec_value();
    lemma_spec_from_value(m, s);
    lemma_varnibble_len(mv);
    lemma_varnibble_len(sv);
    lemma_varnibble_len(0);
    lemma_varnibble_len(l);
    let hb = header_bits(mv, sv, 0, l);
    let pb = pad_bits(hb);
    let hdr = pack(pb);
    let data = hdr + body;
    assert(data.subrange(0, (pb.len() / 8) as int) =~= hdr);
    let c1 = varnibble_len(mv) as int;
    let c2 = varnibble_len(sv) as int;
    let c3 = varnibble_len(0) as int;
    let c4 = varnibble_len(l) as int;
    assert(pb.subrange(0, c1) == varnibble(mv));
    assert(pb.subrange(c1, c1 + c2) == varnibble(sv));
    assert(pb.subrange(c1 + c2, c1 + c2 + c3) == varnibble(0));
    assert(pb.subrange(c1 + c2 + c3, c1 + c2 + c3 + c4) == varnibble(l));
    lemma_read_written_varnibble(data, pb, 0, mv);
    lemma_read_written_varnibble(data, pb, c1, sv);
    lemma_read_written_varnibble(data, pb, c1 + c2, 0);
    lemma_read_written_varnibble(data, pb, c1 + c2 + c3, l);
    let end = c1 + c2 + c3 + c4;
    assert(header_fields(data) == Some((mv, sv, 0nat, l, end as nat)));
    assert((end + 7) / 8 == hdr.len());
    assert(tail_after(data, end as nat) =~= body);
}

/// The prefix that an identifier string may carry.
pub open spec fn iscc_prefix() -> Seq<char> {
    seq!['I', 'S', 'C', 'C', ':']
}

/// `s` without a leading identifier prefix.
pub open spec fn strip_iscc_prefix(s: Seq<char>) -> Seq<char> {
    if s.len() >= 5 && s.subrange(0, 5) == iscc_prefix() {
        s.subrange(5, s.len() as int)
    } else {
        s
    }
}

/// Returns `code` without a leading `"ISCC:"`.
pub fn strip_prefix(code: &str) -> (r: &str)
    ensures
        r@ == strip_iscc_prefix(code@),
{
    let n = code.unicode_len();
    if n >= 5 && code.get_char(0) == 'I' && code.get_char(1) == 'S' && code.get_char(2) == 'C'
        && code.get_char(3) == 'C' && code.get_char(4) == ':' {
        assert(code@.subrange(0, 5) == iscc_prefix());
        code.substring_char(5, n)
    } else {
        proof {
            if n >= 5 && code@.subrange(0, 5) == iscc_prefix() {
                assert(code@[0] == code@.subrange(0, 5)[0]);
                assert(code@[1] == code@.subrange(0, 5)[1]);
                assert(code@[2] == code@.subrange(0, 5)[2]);
                assert(code@[3] == code@.subrange(0, 5)[3]);
                assert(code@[4] == code@.subrange(0, 5)[4]);
            }
        }
        code
    }
}

/// Largest decoded identifier, in bytes, that `iscc_decompose` takes.
pub const MAX_CODE_BYTES: usize = 0x0fff_fff0;

/// `Some(c + rest)` where `o` is `Some(rest)`.
pub open spec fn prepend(c: Seq<Seq<char>>, o: Option<Seq<Seq<char>>>) -> Option<Seq<Seq<char>>> {
    match o {
        Some(rest) => Some(c + rest),
        None => None,
    }
}

/// The unit string of the `i`-th optional unit of a composite's body.
pub open spec fn optional_unit_text(units: Seq<MainType>, s: SubType, body: Seq<u8>, i: int) -> Seq<
    char,
> {
    component_text(
        units[i],
        if units[i] == MainType::Meta {
            SubType::Unspecified
        } else {
            s
        },
        64,
        body.subrange(8 * i, body.len() as int),
    )
}

/// The unit strings of the constituent units of a composite's body.
#[verifier::opaque]
pub open spec fn composite_units(s: SubType, l: nat, body: Seq<u8>) -> Option<Seq<Seq<char>>> {
    if l > 7 {
        None
    } else if s == SubType::Wide {
        if body.len() < 32 {
            None
        } else {
            Some(
                seq![
                    component_text(MainType::Data, SubType::Unspecified, 128, body.subrange(0, 16)),
                    component_text(MainType::Instance, SubType::Unspecified, 128, body.subrange(16, 32)),
                ],
            )
        }
    } else {
        let units = units_of(l);
        let n = body.len();
        if n < units.len() * 8 + 16 {
            None
        } else {
            Some(
                Seq::new(units.len(), |i: int| optional_unit_text(units, s, body, i)) + seq![
                    component_text(MainType::Data, SubType::Unspecified, 64, body.subrange(n - 16, n - 8)),
                    component_text(MainType::Instance, SubType::Unspecified, 64, body.subrange(n - 8, n as int)),
                ],
            )
        }
    }
}

/// The unit strings that decoded identifier bytes split into, or `None` where they are malformed.
pub open spec fn decompose_units(raw: Seq<u8>) -> Option<Seq<Seq<char>>>
    decreases raw.len(),
{
    if raw.len() == 0 {
        Some(seq![])
    } else {
        match decoded_header(raw) {
            None => None,
            Some((m, s, v, l, body)) => if m != MainType::Iscc {
                let bits = length_bits(m, l, s);
                let n = bits / 8;
                if body.len() < n || !encodable(m, bits) || body.len() >= raw.len() {
                    None
                } else {
                    prepend(
                        seq![component_text(m, s, bits, body.subrange(0, n as int))],
                        decompose_units(body.subrange(n as int, body.len() as int)),
                    )
                }
            } else {
                composite_units(s, l, body)
            },
        }
    }
}

/// A header takes at least one byte.
pub proof fn lemma_header_nonempty(raw: Seq<u8>)
    requires
        decoded_header(raw) is Some,
    ensures
        raw.len() > 0,
{
    lemma_read_varnibble_width(raw, 0);
    reveal(read_varnibble);
}

proof fn lemma_tail_shorter(raw: Seq<u8>)
    requires
        raw.len() > 0,
        decoded_header(raw) is Some,
    ensures
        decoded_header(raw) matches Some((m, s, v, l, body)) && body.len() < raw.len(),
{
    lemma_read_varnibble_width(raw, 0);
}

proof fn lemma_unit_encodable(m: MainType, bits: nat)
    requires
        m == MainType::Data || m == MainType::Instance || m == MainType::Meta || m
            == MainType::Semantic || m == MainType::Content,
        bits == 64 || bits == 128,
    ensures
        encodable(m, bits),
{
}

/// Whether `r` is the error for a body shorter than its header announces.
pub open spec fn is_truncation_error<T>(r: Result<T, IsccError>) -> bool {
    r matches Err(IsccError::InvalidInput(m)) && m@ == "truncated ISCC body"@
}

/// Whether a composite's body is shorter than its units need.
pub open spec fn composite_truncated(s: SubType, l: nat, body: Seq<u8>) -> bool {
    l <= 7 && if s == SubType::Wide {
        body.len() < 32
    } else {
        body.len() < units_of(l).len() * 8 + 16
    }
}

/// Whether decomposing `raw` stops at a body shorter than its header announces.
pub open spec fn truncated_body(raw: Seq<u8>) -> bool
    decreases raw.len(),
{
    if raw.len() == 0 {
        false
    } else {
        match decoded_header(raw) {
            None => false,
            Some((m, s, v, l, body)) => if m != MainType::Iscc {
                let bits = length_bits(m, l, s);
                let n = bits / 8;
                if body.len() < n {
                    true
                } else if !encodable(m, bits) || body.len() >= raw.len() {
                    false
                } else {
                    truncated_body(body.subrange(n as int, body.len() as int))
                }
            } else {
                composite_truncated(s, l, body)
            },
        }
    }
}

/// The texts of a list of strings.
pub open spec fn texts(v: Seq<String>) -> Seq<Seq<char>> {
    v.map_values(|c: String| c@)
}

/// The unit strings of the units packed in the body of a composite.
fn composite_components(st: SubType, ln: u32, vs: Version, body: &[u8]) -> (r: Result<
    Vec<String>,
    IsccError,
>)
    ensures
        r is Ok <==> composite_units(st, ln as nat, body@) is Some,
        composite_truncated(st, ln as nat, body@) ==> is_truncation_error(r),
        r is Ok ==> texts(r->Ok_0@) == composite_units(st, ln as nat, body@)->0,
{
    reveal(composite_units);
    let main_types = decode_units(ln)?;
    let mut components: Vec<String> = Vec::new();
    if st == SubType::Wide {
        if body.len() < 32 {
            return Err(IsccError::invalid("truncated ISCC body"));
        }
        proof {
            lemma_unit_encodable(MainType::Data, 128);
            lemma_unit_encodable(MainType::Instance, 128);
        }
        let d = copy_range(body, 0, 16);
        let i = copy_range(body, 16, 32);
        let data_code = encode_component(MainType::Data, SubType::Unspecified, vs, 128, d.as_slice())?;
        let instance_code = encode_component(
            MainType::Instance,
            SubType::Unspecified,
            vs,
            128,
            i.as_slice(),
        )?;
        components.push(data_code);
        components.push(instance_code);
        assert(texts(components@) =~= composite_units(st, ln as nat, body@)->0);
        return Ok(components);
    }
    let n = body.len();
    if n < main_types.len() * 8 + 16 {
        return Err(IsccError::invalid("truncated ISCC body"));
    }
    let ghost units = units_of(ln as nat);
    proof {
        lemma_units_round_trip(ln as nat);
    }
    let mut idx: usize = 0;
    while idx < main_types.len()
        invariant
            idx <= main_types@.len(),
            main_types@ == units,
            all_optional(units),
            units.len() <= 3,
            n == body@.len(),
            n >= units.len() * 8 + 16,
            texts(components@) == Seq::new(idx as nat, |k: int| optional_unit_text(units, st, body@, k)),
        decreases main_types@.len() - idx,
    {
        let mtype = main_types[idx];
        let stype = if mtype == MainType::Meta {
            SubType::Unspecified
        } else {
            st
        };
        let unit = copy_range(body, idx * 8, n);
        proof {
            lemma_unit_encodable(mtype, 64);
        }
        let code = encode_component(mtype, stype, vs, 64, unit.as_slice())?;
        let ghost prev = texts(components@);
        components.push(code);
        proof {
            assert(units[idx as int] == mtype);
            assert(unit@ == body@.subrange(8 * idx, n as int));
            assert(code@ == optional_unit_text(units, st, body@, idx as int));
            assert(texts(components@) =~= prev.push(code@));
            assert(Seq::new((idx + 1) as nat, |k: int| optional_unit_text(units, st, body@, k))
                =~= Seq::new(idx as nat, |k: int| optional_unit_text(units, st, body@, k)).push(
                code@,
            ));
        }
        idx = idx + 1;
    }
    proof {
        lemma_unit_encodable(MainType::Data, 64);
        lemma_unit_encodable(MainType::Instance, 64);
    }
    let d = copy_range(body, n - 16, n - 8);
    let i = copy_range(body, n - 8, n);
    let data_code = encode_component(MainType::Data, SubType::Unspecified, vs, 64, d.as_slice())?;
    let instance_code = encode_component(MainType::Instance, SubType::Unspecified, vs, 64, i.as_slice())?;
    let ghost prev = texts(components@);
    components.push(data_code);
    components.push(instance_code);
    assert(texts(components@) =~= composite_units(st, ln as nat, body@)->0);
    Ok(components)
}

/// Splits an identifier (an ISCC-CODE or a sequence of units, with or without prefix) into
/// its unit strings, without prefix.
pub fn iscc_decompose(iscc_code: &str) -> (r: Result<Vec<String>, IsccError>)
    ensures
        r is Ok ==> exists|raw: Seq<u8>|
            base32_text(raw) == upper_of(strip_iscc_prefix(iscc_code@)) && decompose_units(raw)
                == Some(texts(r->Ok_0@)),
        forall|raw: Seq<u8>|
            #![trigger base32_text(raw)]
            (base32_text(raw) == upper_of(strip_iscc_prefix(iscc_code@)) || base32_text(raw)
                == strip_iscc_prefix(iscc_code@)) && raw.len() <= MAX_CODE_BYTES ==> {
                &&& (r is Ok <==> decompose_units(raw) is Some)
                &&& (r is Ok ==> decompose_units(raw) == Some(texts(r->Ok_0@)))
                &&& (truncated_body(raw) ==> is_truncation_error(r))
            },
{
    let clean = strip_prefix(iscc_code);
    let raw = decode_base32(clean)?;
    let ghost orig = raw@;
    if raw.len() > MAX_CODE_BYTES {
        return Err(IsccError::invalid("ISCC code too long"));
    }
    let mut raw_code = raw;
    let mut components: Vec<String> = Vec::new();
    assert(texts(components@) =~= Seq::<Seq<char>>::empty());
    proof {
        if decompose_units(orig) is Some {
            assert(Seq::<Seq<char>>::empty() + decompose_units(orig)->0 =~= decompose_units(orig)->0);
        }
    }
    while raw_code.len() > 0
        invariant
            raw_code@.len() <= MAX_CODE_BYTES,
            clean@ == strip_iscc_prefix(iscc_code@),
            base32_text(orig) == upper_of(clean@),
            forall|b: Seq<u8>| #[trigger] base32_text(b) == upper_of(clean@) ==> b == orig,
            forall|b: Seq<u8>| #[trigger] base32_text(b) == clean@ ==> b == orig,
            decompose_units(orig) == prepend(texts(components@), decompose_units(raw_code@)),
            truncated_body(orig) == truncated_body(raw_code@),
        decreases raw_code@.len(),
    {
        let ghost cur = raw_code@;
        let ghost before = texts(components@);
        let (mt, st, vs, ln, body) = decode_header(raw_code.as_slice())?;
        proof {
            lemma_tail_shorter(cur);
        }
        if mt == MainType::Iscc {
            let mut rest = composite_components(st, ln, vs, body.as_slice())?;
            components.append(&mut rest);
            assert(texts(components@) =~= before + composite_units(st, ln as nat, body@)->0);
            return Ok(components);
        }
        let ln_bits = decode_length(mt, ln, st);
        let nbytes = (ln_bits / 8) as usize;
        if body.len() < nbytes {
            return Err(IsccError::invalid("truncated ISCC body"));
        }
        let code = encode_component(mt, st, vs, ln_bits, body.as_slice())?;
        let ghost unit = code@;
        proof {
            reveal(component_bytes);
            assert(body@.subrange(0, nbytes as int).subrange(0, nbytes as int) =~= body@.subrange(
                0,
                nbytes as int,
            ));
            assert(component_bytes(mt, st, ln_bits as nat, body@) == component_bytes(
                mt,
                st,
                ln_bits as nat,
                body@.subrange(0, nbytes as int),
            ));
        }
        assert(unit == component_text(mt, st, ln_bits as nat, body@.subrange(0, nbytes as int)));
        components.push(code);
        raw_code = copy_range(body.as_slice(), nbytes, body.len());
        proof {
            assert(texts(components@) =~= before.push(unit));
            let rest = decompose_units(raw_code@);
            if rest is Some {
                assert(before + (seq![unit] + rest->0) =~= before.push(unit) + rest->0);
            }
        }
    }
    assert(decompose_units(raw_code@) == Some(Seq::<Seq<char>>::empty()));
    assert(texts(components@) + Seq::<Seq<char>>::empty() =~= texts(components@));
    Ok(components)
}

} // verus!
