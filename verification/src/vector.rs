//! The vector capability layer: an opaque 128-bit register value and the
//! four primitives the scan engine needs — broadcast-fill, unaligned load,
//! per-lane equality compare, and bitmask extraction.
//!
//! The lane semantics are those of the native 128-bit compare/movemask
//! instructions; this backend realises them with bounds-checked code, and a
//! load past the end of the buffer yields zero in the trailing lanes instead
//! of reading unowned memory.

use vstd::prelude::*;

verus! {

/// A 128-bit register value, held as its 16 byte lanes.
///
/// It has no lifecycle beyond a single comparison step: values are created
/// by [`vector128_create`] or [`load_vector128`] and consumed by
/// [`compare_equal`] and [`movemask`].
pub struct Vector128 {
    lanes: Vec<u8>,
}

impl Vector128 {
    /// The 16 byte lanes, lane 0 first.
    pub closed spec fn lanes(&self) -> Seq<u8> {
        self.lanes@
    }

    /// A register value is well formed when it holds exactly 16 lanes.
    pub open spec fn wf(&self) -> bool {
        self.lanes().len() == 16
    }

    /// Reads lane `l`.
    pub fn lane(&self, l: usize) -> (r: u8)
        requires
            self.wf(),
            l < 16,
        ensures
            r == self.lanes()[l as int],
    {
        self.lanes[l]
    }
}

/// All 16 lanes set to `data`.
pub fn vector128_create(data: u8) -> (r: Vector128)
    ensures
        r.wf(),
        forall|l: int| 0 <= l < 16 ==> r.lanes()[l] == data,
{
    let mut lanes: Vec<u8> = Vec::new();
    let mut i: usize = 0;
    while i < 16
        invariant
            i <= 16,
            lanes@.len() == i,
            forall|l: int| 0 <= l < i ==> lanes@[l] == data,
        decreases 16 - i,
    {
        lanes.push(data);
        i = i + 1;
    }
    Vector128 { lanes }
}

/// Reads 16 bytes starting at `data[offset]`, without alignment
/// requirement. Lanes that would fall past the end of `data` are zero:
/// the load is clipped to the buffer instead of reading beyond it.
pub fn load_vector128(data: &[u8], offset: usize) -> (r: Vector128)
    requires
        offset <= data@.len(),
    ensures
        r.wf(),
        forall|l: int| 0 <= l < 16 ==> r.lanes()[l] == (if offset + l < data@.len() {
            data@[offset + l]
        } else {
            0u8
        }),
{
    let mut lanes: Vec<u8> = Vec::new();
    let n: usize = data.len();
    let avail: usize = n - offset;
    let mut i: usize = 0;
    while i < 16
        invariant
            i <= 16,
            n == data@.len(),
            offset <= n,
            avail == n - offset,
            lanes@.len() == i,
            forall|l: int| 0 <= l < i ==> lanes@[l] == (if offset + l < data@.len() {
                data@[offset + l]
            } else {
                0u8
            }),
        decreases 16 - i,
    {
        if i < avail {
            lanes.push(data[offset + i]);
        } else {
            lanes.push(0u8);
        }
        i = i + 1;
    }
    Vector128 { lanes }
}

/// Lane-wise equality: lane `l` of the result is 0xFF when the operands
/// agree in lane `l`, and 0x00 otherwise.
pub fn compare_equal(left: &Vector128, right: &Vector128) -> (r: Vector128)
    requires
        left.wf(),
        right.wf(),
    ensures
        r.wf(),
        forall|l: int| 0 <= l < 16 ==> r.lanes()[l] == (if left.lanes()[l] == right.lanes()[l] {
            0xFFu8
        } else {
            0u8
        }),
{
    let mut lanes: Vec<u8> = Vec::new();
    let mut i: usize = 0;
    while i < 16
        invariant
            i <= 16,
            left.wf(),
            right.wf(),
            lanes@.len() == i,
            forall|l: int| 0 <= l < i ==> lanes@[l] == (if left.lanes()[l] == right.lanes()[l] {
                0xFFu8
            } else {
                0u8
            }),
        decreases 16 - i,
    {
        if left.lanes[i] == right.lanes[i] {
            lanes.push(0xFFu8);
        } else {
            lanes.push(0u8);
        }
        i = i + 1;
    }
    Vector128 { lanes }
}

proof fn lemma_bit_or_low(m: u32, l: u32, k: u32)
    by (bit_vector)
    requires
        l < 16,
        k < 32,
    ensures
        ((m | (1u32 << l)) >> k) & 1 == (if k == l {
            1u32
        } else {
            (m >> k) & 1
        }),
{
}

proof fn lemma_bit_bound_grow(m: u32, l: u32, l1: u32)
    by (bit_vector)
    requires
        l < 16,
        l1 == l + 1,
        m < (1u32 << l),
    ensures
        (m | (1u32 << l)) < (1u32 << l1),
        m < (1u32 << l1),
{
}

proof fn lemma_movemask_init()
    by (bit_vector)
    ensures
        (1u32 << 0u32) == 1u32,
        forall|l: u32| l < 32 ==> #[trigger] ((0u32 >> l) & 1) == 0u32,
{
}

proof fn lemma_shift16(l: u32)
    by (bit_vector)
    requires
        l <= 16,
    ensures
        (1u32 << l) <= 0x10000,
{
}

/// Shifting zero never exposes a set bit: callers use this to read a
/// zero lane mask as "no lane matched".
pub proof fn lemma_zero_shift(l: u32)
    by (bit_vector)
    ensures
        l < 32 ==> ((0u32 >> l) & 1) == 0u32,
{
}

/// Bit `i` of the result is set exactly when lane `i` of `v` is 0xFF; the
/// upper 16 bits are clear. Built from scratch with shifts, as on targets
/// without a native movemask instruction, but with the same bit-per-lane
/// meaning.
pub fn movemask(v: &Vector128) -> (r: u32)
    requires
        v.wf(),
    ensures
        r < 0x10000,
        forall|l: u32| l < 16 ==> #[trigger] ((r >> l) & 1) == (if v.lanes()[l as int] == 0xFF {
            1u32
        } else {
            0u32
        }),
{
    let mut m: u32 = 0;
    let mut i: usize = 0;
    proof {
        lemma_movemask_init();
    }
    while i < 16
        invariant
            i <= 16,
            v.wf(),
            m < (1u32 << (i as u32)),
            forall|l: u32| l < i ==> #[trigger] ((m >> l) & 1) == (if v.lanes()[l as int] == 0xFF {
                1u32
            } else {
                0u32
            }),
            forall|l: u32| i <= l < 32 ==> #[trigger] ((m >> l) & 1) == 0u32,
        decreases 16 - i,
    {
        let ghost m0 = m;
        if v.lanes[i] == 0xFF {
            m = m | (1u32 << (i as u32));
        }
        proof {
            lemma_bit_bound_grow(m0, i as u32, (i + 1) as u32);
            assert forall|l: u32| l < 32 implies #[trigger] ((m >> l) & 1) == (if l == i as u32 {
                if v.lanes()[l as int] == 0xFF {
                    1u32
                } else {
                    0u32
                }
            } else {
                (m0 >> l) & 1
            }) by {
                if v.lanes()[i as int] == 0xFF {
                    lemma_bit_or_low(m0, i as u32, l);
                }
            }
        }
        i = i + 1;
    }
    proof {
        lemma_shift16(16u32);
        assert(m < 0x10000);
    }
    m
}

} // verus!
