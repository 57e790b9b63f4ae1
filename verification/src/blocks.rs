//! The pattern blocker: repacks the pattern's tail — everything after the
//! first byte — into fixed 16-byte blocks for block-wise vector
//! comparison against the haystack.
//!
//! Block `i` covers tail offsets `[i*16, i*16 + 16)`; the final block is
//! zero-padded past the true tail length. Padding lanes are never named
//! by the match table, whose offsets all fall within real pattern bytes.

use vstd::arithmetic::div_mod::lemma_fundamental_div_mod;
use vstd::prelude::*;
use crate::pattern::SimdPatternScanData;
use crate::vector::Vector128;
use crate::vector::load_vector128;

verus! {

/// How many 16-byte blocks the tail of a pattern of `pattern_len` bytes
/// occupies.
pub open spec fn spec_block_count(pattern_len: int) -> int {
    (pattern_len - 1 + 15) / 16
}

/// Lane `l` of block `i`: the tail byte it covers, or 0 past the end of
/// the pattern.
pub open spec fn spec_block_lane(bytes: Seq<u8>, i: int, l: int) -> u8 {
    if 1 + i * 16 + l < bytes.len() {
        bytes[1 + i * 16 + l]
    } else {
        0u8
    }
}

/// Arithmetic bounds of the block count.
pub proof fn lemma_block_count_bounds(m: int, vc: int)
    requires
        m >= 1,
        vc == (m + 14) / 16,
    ensures
        vc >= 0,
        16 * vc >= m - 1,
        vc >= 1 ==> 16 * (vc - 1) <= m - 2,
        m >= 2 ==> vc >= 1,
{
    lemma_fundamental_div_mod(m + 14, 16);
    assert(0 <= (m + 14) % 16 < 16);
}

/// Splits the pattern tail into consecutive 16-byte blocks, in order,
/// with the final block zero-filled past the tail's true length.
pub fn pattern_to_vec(cb_pattern: &SimdPatternScanData) -> (r: Vec<Vector128>)
    requires
        cb_pattern.wf(),
        cb_pattern.bytes@.len() <= 0x10000,
    ensures
        r@.len() == spec_block_count(cb_pattern.bytes@.len() as int),
        forall|i: int| 0 <= i < r@.len() ==> (#[trigger] r@[i]).wf(),
        forall|i: int, l: int|
            0 <= i < r@.len() && 0 <= l < 16 ==> #[trigger] r@[i].lanes()[l] == spec_block_lane(
                cb_pattern.bytes@,
                i,
                l,
            ),
{
    let pattern_len = cb_pattern.mask.len();
    let vector_count = (pattern_len - 1 + 15) / 16;
    proof {
        lemma_block_count_bounds(pattern_len as int, vector_count as int);
    }
    let mut pattern_vecs: Vec<Vector128> = Vec::new();
    let mut i: usize = 0;
    while i < vector_count
        invariant
            i <= vector_count,
            cb_pattern.wf(),
            cb_pattern.bytes@.len() <= 0x10000,
            pattern_len == cb_pattern.bytes@.len(),
            vector_count == spec_block_count(pattern_len as int),
            vector_count >= 1 ==> 16 * (vector_count - 1) <= pattern_len - 2,
            pattern_vecs@.len() == i,
            forall|k: int| 0 <= k < i ==> (#[trigger] pattern_vecs@[k]).wf(),
            forall|k: int, l: int|
                0 <= k < i && 0 <= l < 16 ==> #[trigger] pattern_vecs@[k].lanes()[l]
                    == spec_block_lane(cb_pattern.bytes@, k, l),
        decreases vector_count - i,
    {
        let block = load_vector128(cb_pattern.bytes.as_slice(), 1 + i * 16);
        pattern_vecs.push(block);
        i = i + 1;
    }
    pattern_vecs
}

} // verus!
