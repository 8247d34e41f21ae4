//! Winner-take-all hash: one bit per fixed pair of vector positions.
use crate::bits::{bits_to_bytes, pack, pad_bits};
use vstd::prelude::*;

verus! {

/// First positions of the compared pairs.
pub const WTA_FIRST: [usize; 256] = [
    292, 219, 295, 105, 251, 334, 17, 250, 38, 184, 215, 308, 195, 145, 134, 89,
    155, 185, 233, 225, 192, 298, 120, 99, 274, 122, 341, 230, 240, 334, 166, 80,
    211, 18, 254, 310, 36, 41, 196, 191, 76, 49, 85, 178, 212, 125, 140, 316,
    91, 136, 154, 338, 89, 245, 167, 114, 278, 22, 163, 40, 229, 298, 199, 344,
    376, 139, 247, 255, 85, 345, 205, 215, 299, 275, 250, 84, 225, 212, 1, 274,
    25, 47, 55, 232, 71, 223, 228, 371, 357, 216, 332, 267, 378, 165, 16, 100,
    301, 321, 12, 151, 126, 148, 23, 281, 146, 343, 72, 304, 98, 93, 302, 218,
    49, 157, 355, 369, 229, 284, 136, 186, 3, 217, 209, 333, 35, 45, 178, 184,
    217, 321, 238, 150, 255, 134, 226, 174, 371, 247, 244, 245, 353, 368, 369, 86,
    212, 288, 304, 156, 302, 333, 37, 203, 191, 310, 123, 157, 284, 112, 37, 98,
    292, 303, 200, 173, 97, 288, 24, 354, 25, 289, 203, 307, 87, 60, 176, 15,
    274, 178, 203, 295, 30, 227, 241, 231, 226, 89, 216, 286, 234, 99, 221, 78,
    95, 324, 291, 184, 192, 309, 84, 114, 296, 51, 289, 95, 21, 306, 39, 99,
    83, 207, 168, 88, 297, 215, 262, 356, 48, 60, 54, 369, 159, 148, 332, 176,
    317, 311, 272, 6, 80, 197, 117, 261, 242, 295, 298, 147, 35, 318, 271, 38,
    16, 334, 173, 372, 183, 320, 87, 105, 148, 197, 279, 304, 282, 64, 63, 28,
];

/// Second positions of the compared pairs.
pub const WTA_SECOND: [usize; 256] = [
    16, 247, 7, 236, 142, 82, 266, 167, 127, 22, 71, 181, 215, 345, 233, 351,
    338, 68, 122, 314, 22, 2, 68, 155, 187, 160, 281, 223, 33, 299, 256, 114,
    122, 16, 154, 336, 273, 76, 290, 307, 57, 226, 97, 221, 228, 348, 73, 267,
    61, 233, 84, 332, 90, 177, 222, 2, 364, 169, 124, 134, 207, 81, 253, 123,
    268, 266, 308, 32, 250, 236, 69, 277, 178, 198, 359, 286, 50, 18, 224, 33,
    179, 77, 311, 248, 234, 256, 175, 132, 234, 168, 266, 78, 121, 316, 351, 329,
    294, 245, 59, 222, 367, 45, 305, 54, 83, 244, 184, 205, 179, 40, 99, 106,
    350, 237, 267, 216, 340, 106, 305, 59, 107, 312, 195, 102, 216, 28, 130, 233,
    99, 144, 355, 259, 259, 207, 327, 178, 141, 228, 300, 42, 276, 187, 207, 308,
    368, 33, 375, 8, 167, 164, 379, 312, 144, 95, 86, 48, 27, 291, 215, 291,
    224, 8, 103, 294, 267, 167, 336, 296, 18, 187, 166, 326, 80, 310, 84, 370,
    261, 45, 224, 178, 74, 361, 312, 369, 309, 181, 175, 262, 198, 49, 328, 21,
    327, 97, 219, 286, 25, 26, 159, 25, 90, 325, 184, 154, 202, 219, 176, 251,
    86, 239, 19, 90, 361, 78, 328, 200, 203, 120, 216, 327, 370, 273, 50, 267,
    243, 125, 148, 340, 346, 355, 49, 326, 51, 204, 111, 181, 96, 285, 13, 204,
    8, 220, 91, 24, 166, 243, 9, 65, 103, 314, 299, 214, 15, 2, 14, 351,
];

/// Length that every compared position stays below.
pub const WTA_VECTOR_LEN: usize = 380;

/// The hash bits: bit `k` is set where the first position of pair `k` holds less than the second.
pub open spec fn wta_bits(v: Seq<i64>, bits: nat) -> Seq<bool> {
    Seq::new(
        bits,
        |k: int| k < 256 && v[WTA_FIRST@[k] as int] < v[WTA_SECOND@[k] as int],
    )
}

proof fn lemma_wta_positions()
    ensures
        forall|k: int| 0 <= k < 256 ==> #[trigger] WTA_FIRST@[k] < WTA_VECTOR_LEN,
        forall|k: int| 0 <= k < 256 ==> #[trigger] WTA_SECOND@[k] < WTA_VECTOR_LEN,
{
}

/// Winner-take-all hash of `vec` to `bits` bits, packed into `bits / 8` bytes.
pub fn alg_wtahash(vec: &[i64], bits: u32) -> (r: Vec<u8>)
    requires
        vec@.len() >= WTA_VECTOR_LEN,
        bits % 8 == 0,
    ensures
        r@ == pack(wta_bits(vec@, bits as nat)),
{
    let ghost target = wta_bits(vec@, bits as nat);
    proof {
        lemma_wta_positions();
    }
    let mut out: Vec<bool> = Vec::new();
    let mut k: u32 = 0;
    while k < bits
        invariant
            k <= bits,
            vec@.len() >= WTA_VECTOR_LEN,
            target == wta_bits(vec@, bits as nat),
            forall|k: int| 0 <= k < 256 ==> #[trigger] WTA_FIRST@[k] < WTA_VECTOR_LEN,
            forall|k: int| 0 <= k < 256 ==> #[trigger] WTA_SECOND@[k] < WTA_VECTOR_LEN,
            out@ == target.subrange(0, k as int),
        decreases bits - k,
    {
        if k < 256 {
            let i = WTA_FIRST[k as usize];
            let j = WTA_SECOND[k as usize];
            out.push(vec[i] < vec[j]);
        } else {
            out.push(false);
        }
        k = k + 1;
        assert(out@ =~= target.subrange(0, k as int));
    }
    assert(out@ =~= target);
    assert(pad_bits(target) =~= target);
    bits_to_bytes(&out)
}

} // verus!
