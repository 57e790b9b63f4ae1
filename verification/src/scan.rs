//! The scan engine: finds the first occurrence of a compiled pattern in a
//! byte buffer.
//!
//! The engine broadcasts the anchor byte — the first concrete byte of the
//! pattern — into a 16-lane vector and sweeps the haystack in overlapping
//! 16-byte windows. A window with no anchor candidate is skipped whole;
//! a candidate is verified block by block against the pattern blocks,
//! walking the match table up to the true concrete-byte count. A failed
//! candidate backtracks by a single byte, so no earlier occurrence is ever
//! passed over: the result is exactly the first masked match, or `None`
//! when the buffer holds none.

use vstd::prelude::*;
use vstd::string::StringSliceAdditionalSpecFns;
use crate::blocks::lemma_block_count_bounds;
use crate::blocks::pattern_to_vec;
use crate::blocks::spec_block_count;
use crate::blocks::spec_block_lane;
use crate::match_table::build_match_indexes;
use crate::match_table::lemma_match_table_props;
use crate::match_table::match_table_spec;
use crate::pattern::SimdPatternScanData;
use crate::pattern::has_concrete;
use crate::pattern::spec_pattern_bytes;
use crate::pattern::spec_pattern_mask;
use crate::pattern::spec_tokens;
use crate::pattern::tokens_ok;
use crate::vector::Vector128;
use crate::vector::compare_equal;
use crate::vector::load_vector128;
use crate::vector::movemask;
use crate::vector::vector128_create;

verus! {

/// The pattern `(bytes, mask)` occurs at position `p` of `hay`: the whole
/// pattern lies inside the buffer and every concrete byte agrees.
pub open spec fn matches_at(hay: Seq<u8>, bytes: Seq<u8>, mask: Seq<u8>, p: int) -> bool {
    &&& 0 <= p
    &&& p + bytes.len() <= hay.len()
    &&& forall|j: int| 0 <= j < bytes.len() && #[trigger] mask[j] == 1 ==> hay[p + j] == bytes[j]
}

/// `p` is the first occurrence of the pattern in `hay`.
pub open spec fn is_first_match(hay: Seq<u8>, bytes: Seq<u8>, mask: Seq<u8>, p: int) -> bool {
    &&& matches_at(hay, bytes, mask, p)
    &&& forall|q: int| 0 <= q < p ==> !(#[trigger] matches_at(hay, bytes, mask, q))
}

/// What a search result means: `Some(p)` names the first occurrence, and
/// `None` says the pattern occurs nowhere in the buffer.
pub open spec fn find_result_ok(hay: Seq<u8>, bytes: Seq<u8>, mask: Seq<u8>, r: Option<
    usize,
>) -> bool {
    match r {
        Some(p) => is_first_match(hay, bytes, mask, p as int),
        None => forall|p: int| !(#[trigger] matches_at(hay, bytes, mask, p)),
    }
}

proof fn lemma_shr_id(m: u32)
    by (bit_vector)
    ensures
        (m >> 0u32) == m,
{
}

proof fn lemma_shr_step(m: u32, f: u32, f1: u32)
    by (bit_vector)
    requires
        f < 15,
        f1 == f + 1,
        ((m >> f) & 1) != 1,
        (m >> f) != 0,
    ensures
        (m >> f1) != 0,
        ((m >> f) & 1) == 0,
{
}

proof fn lemma_top_bit(m: u32)
    by (bit_vector)
    requires
        m < 0x10000,
        (m >> 15u32) != 0,
    ensures
        ((m >> 15u32) & 1) == 1,
{
}

/// Index of the lowest set bit of a nonzero 16-bit lane mask: the first
/// candidate lane of a window, as a trailing-zero count computes it.
fn lowest_set_lane(m: u32) -> (f: usize)
    requires
        m != 0,
        m < 0x10000,
    ensures
        f < 16,
        ((m >> (f as u32)) & 1) == 1,
        forall|l: u32| l < f ==> ((m >> l) & 1) == 0,
{
    proof {
        lemma_shr_id(m);
    }
    let mut f: usize = 0;
    while f < 15 && (m >> (f as u32)) & 1 != 1
        invariant
            f <= 15,
            (m >> (f as u32)) != 0,
            forall|l: u32| l < f ==> ((m >> l) & 1) == 0,
        decreases 15 - f,
    {
        proof {
            lemma_shr_step(m, f as u32, (f + 1) as u32);
        }
        f = f + 1;
    }
    proof {
        if ((m >> (f as u32)) & 1) != 1 {
            assert(f == 15);
            lemma_top_bit(m);
            assert(false);
        }
    }
    f
}

/// Verifies one candidate position: walks the pattern blocks against the
/// haystack and checks every match-table entry that falls inside each
/// block, up to the table's true length.
#[verifier::loop_isolation(false)]
fn verify_candidate(
    data: &[u8],
    pat: &SimdPatternScanData,
    match_table: &Vec<u16>,
    pattern_vecs: &Vec<Vector128>,
    start: usize,
) -> (ok: bool)
    requires
        pat.wf(),
        pat.bytes@.len() <= 0x10000,
        match_table@ == match_table_spec(pat.mask@),
        pattern_vecs@.len() == spec_block_count(pat.bytes@.len() as int),
        forall|i: int| 0 <= i < pattern_vecs@.len() ==> (#[trigger] pattern_vecs@[i]).wf(),
        forall|i: int, l: int|
            0 <= i < pattern_vecs@.len() && 0 <= l < 16 ==> #[trigger] pattern_vecs@[i].lanes()[l]
                == spec_block_lane(pat.bytes@, i, l),
        start + pat.bytes@.len() <= data@.len(),
        data@[start + pat.leading_ignore_count] == pat.bytes@[pat.leading_ignore_count as int],
    ensures
        ok == matches_at(data@, pat.bytes@, pat.mask@, start as int),
{
    let m = pat.bytes.len();
    let data_len = data.len();
    let table_len = match_table.len();
    let vector_count = pattern_vecs.len();
    let ghost tbl = match_table@;
    proof {
        assert(start + m <= data_len);
        lemma_match_table_props(pat.mask@, m as int);
        lemma_block_count_bounds(m as int, vector_count as int);
        assert forall|k: int| 0 <= k < table_len implies 1 <= #[trigger] tbl[k] + 1 < m
            && pat.mask@[tbl[k] + 1] == 1 by {
            assert(tbl[k] == match_table_spec(pat.mask@)[k]);
        }
        assert forall|k1: int, k2: int| 0 <= k1 < k2 < table_len implies #[trigger] tbl[k1]
            < #[trigger] tbl[k2] by {
            assert(tbl[k1] == match_table_spec(pat.mask@)[k1]);
            assert(tbl[k2] == match_table_spec(pat.mask@)[k2]);
        }
        assert forall|j: int| 1 <= j < m && pat.mask@[j] == 1 implies tbl.contains(
            (j - 1) as u16,
        ) by {
            assert(match_table_spec(pat.mask@).contains((j - 1) as u16));
        }
    }
    let mut match_table_index: usize = 0;
    let mut i: usize = 0;
    while i < vector_count
        invariant
            i <= vector_count,
            match_table_index <= table_len,
            forall|k: int| 0 <= k < match_table_index ==> #[trigger] tbl[k] < 16 * i,
            forall|k: int|
                0 <= k < match_table_index ==> data@[start + #[trigger] tbl[k] + 1] == pat.bytes@[tbl[k]
                    + 1],
            forall|k: int| match_table_index <= k < table_len ==> #[trigger] tbl[k] >= 16 * i,
        decreases vector_count - i,
    {
        let register_byte_offs = i * 16;
        let rhs = load_vector128(data, start + register_byte_offs + 1);
        let compare_result = movemask(&compare_equal(&pattern_vecs[i], &rhs));
        while match_table_index < table_len && (match_table[match_table_index] as usize)
            < register_byte_offs + 16
            invariant
                match_table_index <= table_len,
                forall|k: int| 0 <= k < match_table_index ==> #[trigger] tbl[k] < 16 * i + 16,
                forall|k: int|
                    0 <= k < match_table_index ==> data@[start + #[trigger] tbl[k] + 1]
                        == pat.bytes@[tbl[k] + 1],
                forall|k: int| match_table_index <= k < table_len ==> #[trigger] tbl[k] >= 16 * i,
            decreases table_len - match_table_index,
        {
            let entry = match_table[match_table_index] as usize;
            let lane = entry - register_byte_offs;
            proof {
                assert(tbl[match_table_index as int] >= 16 * i);
                assert(entry + 1 < m);
            }
            if (compare_result >> (lane as u32)) & 1 != 1 {
                proof {
                    assert(data@[start + entry + 1] != pat.bytes@[entry + 1]);
                    assert(pat.mask@[entry + 1] == 1);
                    assert(!matches_at(data@, pat.bytes@, pat.mask@, start as int));
                }
                return false;
            }
            proof {
                assert(data@[start + entry + 1] == pat.bytes@[entry + 1]);
            }
            match_table_index = match_table_index + 1;
        }
        i = i + 1;
    }
    proof {
        if match_table_index < table_len {
            assert(tbl[match_table_index as int] >= 16 * vector_count);
            assert(tbl[match_table_index as int] + 1 < m);
            assert(16 * vector_count >= m - 1);
            assert(false);
        }
        assert forall|j: int|
            0 <= j < pat.bytes@.len() && #[trigger] pat.mask@[j] == 1 implies data@[start as int
            + j] == pat.bytes@[j] by {
            if j == 0 {
                assert(pat.leading_ignore_count == 0);
            } else {
                assert(tbl.contains((j - 1) as u16));
                let k = choose|k: int| 0 <= k < tbl.len() && tbl[k] == (j - 1) as u16;
                assert(data@[start + tbl[k] + 1] == pat.bytes@[tbl[k] + 1]);
                assert(tbl[k] + 1 == j);
            }
        }
    }
    true
}

/// Searches `data` for the first occurrence of the compiled form of
/// `pattern`.
///
/// Returns the byte offset of the first position where every concrete
/// pattern byte agrees with the buffer, and `None` when no position
/// agrees — or when the signature itself does not compile, or holds more
/// tokens than a match-table entry can index.
#[verifier::loop_isolation(false)]
pub fn find_pattern_neon(data: &[u8], pattern: &str) -> (r: Option<usize>)
    ensures
        ({
            let ts = spec_tokens(pattern.spec_bytes());
            if tokens_ok(ts) && has_concrete(ts) && ts.len() <= 0x10000 {
                find_result_ok(data@, spec_pattern_bytes(ts), spec_pattern_mask(ts), r)
            } else {
                r is None
            }
        }),
{
    let ghost ts = spec_tokens(pattern.spec_bytes());
    let pat = match SimdPatternScanData::new(pattern) {
        Ok(p) => p,
        Err(_) => {
            return None;
        },
    };
    if pat.bytes.len() > 0x10000 {
        return None;
    }
    let ghost hay = data@;
    let ghost pb = pat.bytes@;
    let ghost pm = pat.mask@;
    let n = data.len();
    let m = pat.bytes.len();
    if m > n {
        proof {
            assert forall|p: int| !(#[trigger] matches_at(hay, pb, pm, p)) by {}
        }
        return None;
    }
    let match_table = build_match_indexes(&pat);
    let pattern_vecs = pattern_to_vec(&pat);
    let leading_ignore_count = pat.leading_ignore_count;
    let ghost lic = leading_ignore_count as int;
    // Fills a register with the anchor byte of the pattern
    let first_byte_vec = vector128_create(pat.bytes[leading_ignore_count]);
    // Highest haystack position where the anchor of an in-buffer match can sit
    let anchor_max = n - m + leading_ignore_count;
    let mut data_ptr: usize = 0;
    while data_ptr <= anchor_max
        invariant
            data_ptr <= anchor_max + 1,
            forall|p: int|
                0 <= p && p + lic < data_ptr ==> !(#[trigger] matches_at(hay, pb, pm, p)),
        decreases anchor_max + 1 - data_ptr,
    {
        // Fills a register with the next 16 haystack bytes
        let rhs = load_vector128(data, data_ptr);
        // Matching lanes become 0xFF, the rest 0x00; then one bit per lane
        let equal = compare_equal(&first_byte_vec, &rhs);
        let find_first_byte = movemask(&equal);
        if find_first_byte == 0 {
            // No lane holds the anchor byte: no match can start in this window
            proof {
                assert forall|p: int|
                    0 <= p && data_ptr <= p + lic < data_ptr + 16 && p + m <= n implies !matches_at(
                    hay,
                    pb,
                    pm,
                    p,
                ) by {
                    let l = p + lic - data_ptr;
                    crate::vector::lemma_zero_shift(l as u32);
                    assert(((find_first_byte >> (l as u32)) & 1) == 0);
                    assert(rhs.lanes()[l] == hay[p + lic]);
                    assert(hay[p + lic] != pb[lic]);
                }
            }
            if anchor_max - data_ptr < 15 {
                proof {
                    assert forall|p: int| !(#[trigger] matches_at(hay, pb, pm, p)) by {
                        if 0 <= p && p + m <= n {
                            assert(p + lic <= anchor_max);
                        }
                    }
                }
                return None;
            }
            data_ptr = data_ptr + 15;
        } else {
            let first_bit = lowest_set_lane(find_first_byte);
            // Lanes below the first set bit cannot hold the anchor byte
            proof {
                assert forall|p: int|
                    0 <= p && data_ptr <= p + lic < data_ptr + first_bit && p + m <= n implies
                    !matches_at(hay, pb, pm, p) by {
                    let l = p + lic - data_ptr;
                    assert(((find_first_byte >> (l as u32)) & 1) == 0);
                    assert(rhs.lanes()[l] == hay[p + lic]);
                    assert(hay[p + lic] != pb[lic]);
                }
            }
            if anchor_max - data_ptr < first_bit {
                // The first candidate already lies past the last usable anchor slot
                proof {
                    assert forall|p: int| !(#[trigger] matches_at(hay, pb, pm, p)) by {
                        if 0 <= p && p + m <= n {
                            assert(p + lic <= anchor_max);
                        }
                    }
                }
                return None;
            }
            let anchor_pos = data_ptr + first_bit;
            proof {
                assert(((find_first_byte >> (first_bit as u32)) & 1) == 1);
                assert(rhs.lanes()[first_bit as int] == hay[anchor_pos as int]);
                assert(hay[anchor_pos as int] == pb[lic]);
            }
            if anchor_pos < leading_ignore_count {
                // A pattern anchored here would begin before the buffer
                data_ptr = anchor_pos + 1;
            } else {
                // Align the cursor with where the full pattern would begin
                let candidate = anchor_pos - leading_ignore_count;
                if verify_candidate(data, &pat, &match_table, &pattern_vecs, candidate) {
                    proof {
                        assert forall|q: int| 0 <= q < candidate implies !(#[trigger] matches_at(
                            hay,
                            pb,
                            pm,
                            q,
                        )) by {
                            assert(q + lic < anchor_pos);
                        }
                    }
                    return Some(candidate);
                }
                // One unmet table entry: backtrack by a single byte
                data_ptr = anchor_pos + 1;
            }
        }
    }
    proof {
        assert forall|p: int| !(#[trigger] matches_at(hay, pb, pm, p)) by {
            if 0 <= p && p + m <= n {
                assert(p + lic <= anchor_max);
            }
        }
    }
    None
}

/// Searches a byte slice for the first occurrence of `pattern`, as
/// [`find_pattern_neon`] does.
pub fn get_offset_neon(data: &[u8], pattern: &str) -> (r: Option<usize>)
    ensures
        ({
            let ts = spec_tokens(pattern.spec_bytes());
            if tokens_ok(ts) && has_concrete(ts) && ts.len() <= 0x10000 {
                find_result_ok(data@, spec_pattern_bytes(ts), spec_pattern_mask(ts), r)
            } else {
                r is None
            }
        }),
{
    find_pattern_neon(data, pattern)
}

/// A haystack that holds the anchor byte nowhere holds no match at all:
/// the search must report "not found".
pub proof fn lemma_no_anchor_not_found(
    hay: Seq<u8>,
    bytes: Seq<u8>,
    mask: Seq<u8>,
    lic: int,
    r: Option<usize>,
)
    requires
        0 <= lic < bytes.len(),
        bytes.len() == mask.len(),
        mask[lic] == 1,
        forall|a: int| 0 <= a < hay.len() ==> #[trigger] hay[a] != bytes[lic],
        find_result_ok(hay, bytes, mask, r),
    ensures
        r is None,
{
    if let Some(p) = r {
        assert(matches_at(hay, bytes, mask, p as int));
        assert(hay[p + lic] == bytes[lic]);
    }
}

/// The search is a function of its inputs alone: any two results that
/// [`find_result_ok`] admits for the same haystack and pattern are equal,
/// so repeated searches return identical results.
pub proof fn lemma_find_first_deterministic(
    hay: Seq<u8>,
    bytes: Seq<u8>,
    mask: Seq<u8>,
    r1: Option<usize>,
    r2: Option<usize>,
)
    requires
        find_result_ok(hay, bytes, mask, r1),
        find_result_ok(hay, bytes, mask, r2),
    ensures
        r1 == r2,
{
    match (r1, r2) {
        (Some(p1), Some(p2)) => {
            if p1 < p2 {
                assert(!matches_at(hay, bytes, mask, p1 as int));
            }
            if p2 < p1 {
                assert(!matches_at(hay, bytes, mask, p2 as int));
            }
            assert(p1 == p2);
        },
        (Some(p1), None) => {
            assert(!matches_at(hay, bytes, mask, p1 as int));
        },
        (None, Some(p2)) => {
            assert(!matches_at(hay, bytes, mask, p2 as int));
        },
        (None, None) => {},
    }
}

/// A pattern whose only concrete byte is the anchor degenerates to a
/// single-byte search: a successful result names the first position, from
/// the start of the buffer, whose byte at the anchor offset equals the
/// anchor byte.
pub proof fn lemma_single_anchor_search(
    hay: Seq<u8>,
    bytes: Seq<u8>,
    mask: Seq<u8>,
    lic: int,
    p: usize,
)
    requires
        bytes.len() == mask.len(),
        0 <= lic < mask.len(),
        mask[lic] == 1,
        forall|j: int| 0 <= j < mask.len() && j != lic ==> #[trigger] mask[j] == 0,
        find_result_ok(hay, bytes, mask, Some(p)),
    ensures
        p + bytes.len() <= hay.len(),
        hay[p + lic] == bytes[lic],
        forall|a: int| lic <= a < p + lic ==> #[trigger] hay[a] != bytes[lic],
{
    assert forall|a: int| lic <= a < p + lic implies #[trigger] hay[a] != bytes[lic] by {
        let q = a - lic;
        if hay[a] == bytes[lic] {
            assert forall|j: int| 0 <= j < bytes.len() && #[trigger] mask[j] == 1 implies hay[q + j]
                == bytes[j] by {
                assert(j == lic);
            }
            assert(matches_at(hay, bytes, mask, q));
        }
    }
}

/// Round trip: a pattern cut from the buffer itself — concrete bytes
/// copied from a slice starting at `s`, any subset of positions turned
/// into wildcards — is always found, at an offset no later than `s`; and
/// exactly at `s` when `s` is the first occurrence.
pub proof fn lemma_masked_slice_round_trip(
    hay: Seq<u8>,
    bytes: Seq<u8>,
    mask: Seq<u8>,
    s: int,
    r: Option<usize>,
)
    requires
        bytes.len() == mask.len(),
        0 <= s,
        s + bytes.len() <= hay.len(),
        forall|j: int| 0 <= j < mask.len() && #[trigger] mask[j] == 1 ==> bytes[j] == hay[s + j],
        find_result_ok(hay, bytes, mask, r),
    ensures
        r is Some,
        r->Some_0 <= s,
        (forall|q: int| 0 <= q < s ==> !(#[trigger] matches_at(hay, bytes, mask, q))) ==> r->Some_0
            == s,
{
    assert(matches_at(hay, bytes, mask, s));
    match r {
        Some(p) => {
            if p > s {
                assert(!matches_at(hay, bytes, mask, s));
            }
            if (forall|q: int| 0 <= q < s ==> !(#[trigger] matches_at(hay, bytes, mask, q))) && (
            p as int) < s {
                assert(!matches_at(hay, bytes, mask, p as int));
            }
        },
        None => {
            assert(!matches_at(hay, bytes, mask, s));
        },
    }
}

} // verus!
