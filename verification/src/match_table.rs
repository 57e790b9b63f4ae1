//! The match table builder: derives, from the inclusion mask, the ordered
//! list of byte offsets that must be checked when a candidate position is
//! verified.
//!
//! Offsets are relative to the byte immediately after the anchor byte:
//! offset 0 names the second pattern byte. Every mask position after the
//! first whose bit is 1 contributes its offset, so the table's length is
//! the count of concrete bytes after position 0 — the verification bound —
//! and never includes padding entries.

use vstd::prelude::*;
use crate::pattern::SimdPatternScanData;

verus! {

/// The table entries drawn from mask positions `1..i`: each position `j`
/// in that range with `mask[j] == 1` contributes the offset `j - 1`, in
/// increasing order.
pub open spec fn match_table_upto(mask: Seq<u8>, i: int) -> Seq<u16>
    decreases i,
{
    if i <= 1 {
        Seq::empty()
    } else if mask[i - 1] == 1 {
        match_table_upto(mask, i - 1).push((i - 2) as u16)
    } else {
        match_table_upto(mask, i - 1)
    }
}

/// The full match table of a mask.
pub open spec fn match_table_spec(mask: Seq<u8>) -> Seq<u16> {
    match_table_upto(mask, mask.len() as int)
}

/// What every prefix of the table satisfies: entries are exactly the
/// concrete offsets, strictly increasing and in range.
pub proof fn lemma_match_table_props(mask: Seq<u8>, i: int)
    requires
        1 <= i <= mask.len(),
        mask.len() <= 0x10000,
    ensures
        forall|k: int|
            0 <= k < match_table_upto(mask, i).len() ==> 1 <= #[trigger] match_table_upto(
                mask,
                i,
            )[k] + 1 < i && mask[match_table_upto(mask, i)[k] + 1] == 1,
        forall|k1: int, k2: int|
            0 <= k1 < k2 < match_table_upto(mask, i).len() ==> #[trigger] match_table_upto(
                mask,
                i,
            )[k1] < #[trigger] match_table_upto(mask, i)[k2],
        forall|j: int|
            1 <= j < i && mask[j] == 1 ==> match_table_upto(mask, i).contains((j - 1) as u16),
    decreases i,
{
    if i == 1 {
    } else {
        lemma_match_table_props(mask, i - 1);
        let t0 = match_table_upto(mask, i - 1);
        let t = match_table_upto(mask, i);
        if mask[i - 1] == 1 {
            assert(t == t0.push((i - 2) as u16));
            assert(t[t0.len() as int] == (i - 2) as u16);
            assert forall|j: int| 1 <= j < i && mask[j] == 1 implies t.contains(
                (j - 1) as u16,
            ) by {
                if j < i - 1 {
                    assert(t0.contains((j - 1) as u16));
                    let k = choose|k: int| 0 <= k < t0.len() && t0[k] == (j - 1) as u16;
                    assert(t[k] == (j - 1) as u16);
                } else {
                    assert(t[t0.len() as int] == (j - 1) as u16);
                }
            }
        } else {
            assert forall|j: int| 1 <= j < i && mask[j] == 1 implies t.contains(
                (j - 1) as u16,
            ) by {
                assert(t0.contains((j - 1) as u16));
            }
        }
    }
}

/// Builds the match table of a compiled pattern.
///
/// The result holds exactly the offsets of the concrete bytes after the
/// first pattern byte, in strictly increasing order; its length is the
/// true concrete-byte count, so walking it never visits an unused slot.
pub fn build_match_indexes(scan_pattern: &SimdPatternScanData) -> (r: Vec<u16>)
    requires
        scan_pattern.mask@.len() <= 0x10000,
    ensures
        r@ == match_table_spec(scan_pattern.mask@),
{
    let mask_length = scan_pattern.mask.len();
    let mut full_match_table: Vec<u16> = Vec::new();
    let mut i: usize = 1;
    if mask_length == 0 {
        return full_match_table;
    }
    while i < mask_length
        invariant
            1 <= i <= mask_length,
            mask_length == scan_pattern.mask@.len(),
            mask_length <= 0x10000,
            full_match_table@ == match_table_upto(scan_pattern.mask@, i as int),
        decreases mask_length - i,
    {
        if scan_pattern.mask[i] == 1 {
            full_match_table.push((i - 1) as u16);
        }
        proof {
            assert(full_match_table@ == match_table_upto(scan_pattern.mask@, i + 1));
        }
        i = i + 1;
    }
    full_match_table
}

} // verus!
