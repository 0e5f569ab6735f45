//! Word-level view of a group: spec functions for the branch-free byte
//! tricks (tiling a byte across a word, zero-byte detection through borrow
//! propagation, clearing the lowest set flag) and the bit-vector lemmas
//! that characterise them lane by lane.

use vstd::prelude::*;

verus! {

/// Only the high (flag) bit of each byte lane may be set.
pub open spec fn byte_aligned(m: u64) -> bool {
    m & 0x7f7f_7f7f_7f7f_7f7fu64 == 0
}

/// The flag bit of byte lane `i`: bit `8 * i + 7` of the word.
pub open spec fn lane_set(m: u64, i: u64) -> bool
    recommends
        i < 8,
{
    ((m >> ((8 * i + 7) as u64)) & 1u64) == 1u64
}

/// Byte lane `i` of the word, under the fixed little-endian lane order.
pub open spec fn byte_at(w: u64, i: u64) -> u8
    recommends
        i < 8,
{
    ((w >> ((8 * i) as u64)) & 0xffu64) as u8
}

/// The byte `b` tiled into all eight lanes of a word.
pub open spec fn repeat_byte(b: u8) -> u64 {
    (b as u64) | ((b as u64) << 8u64) | ((b as u64) << 16u64) | ((b as u64) << 24u64)
        | ((b as u64) << 32u64) | ((b as u64) << 40u64) | ((b as u64) << 48u64)
        | ((b as u64) << 56u64)
}

/// The eight group bytes decoded as one word, byte `i` in lane `i`.
pub open spec fn word_of(g: Seq<u8>) -> u64
    recommends
        g.len() == 8,
{
    (g[0] as u64) | ((g[1] as u64) << 8u64) | ((g[2] as u64) << 16u64)
        | ((g[3] as u64) << 24u64) | ((g[4] as u64) << 32u64) | ((g[5] as u64) << 40u64)
        | ((g[6] as u64) << 48u64) | ((g[7] as u64) << 56u64)
}

/// Subtraction on words that wraps around zero, written without a
/// negative intermediate value.
pub open spec fn sub_wrap(a: u64, b: u64) -> u64 {
    if a >= b {
        (a - b) as u64
    } else {
        (a + 0x1_0000_0000_0000_0000 - b) as u64
    }
}

/// The equality mask of the word `w` against tag `t`: lanes whose own
/// high bit started clear, intersected with the high bits that
/// subtracting one from every lane of `w XOR tile(t)` borrows into.
pub open spec fn eq_mask_word(w: u64, t: u8) -> u64 {
    (!(w ^ repeat_byte(t)) & repeat_byte(0x80)) & sub_wrap(w ^ repeat_byte(t), repeat_byte(0x01))
}

/// The empty mask of the word `w`: the high bit of every lane that already
/// had it set.
pub open spec fn empty_mask_word(w: u64) -> u64 {
    w & repeat_byte(0x80)
}

/// All word bits strictly below lane `i`.
pub open spec fn below_lane_mask(i: u64) -> u64
    recommends
        i < 8,
{
    ((1u64 << ((8 * i) as u64)) - 1) as u64
}

/// The word with its lowest set bit cleared.
pub open spec fn clear_lowest(m: u64) -> u64
    recommends
        m > 0,
{
    m & ((m - 1) as u64)
}

/// Decoding a word from eight bytes puts byte `i` in lane `i`.
pub proof fn lemma_word_bytes(b0: u8, b1: u8, b2: u8, b3: u8, b4: u8, b5: u8, b6: u8, b7: u8, w: u64)
    by (bit_vector)
    requires
        w == (b0 as u64) | ((b1 as u64) << 8u64) | ((b2 as u64) << 16u64)
            | ((b3 as u64) << 24u64) | ((b4 as u64) << 32u64) | ((b5 as u64) << 40u64)
            | ((b6 as u64) << 48u64) | ((b7 as u64) << 56u64),
    ensures
        byte_at(w, 0) == b0,
        byte_at(w, 1) == b1,
        byte_at(w, 2) == b2,
        byte_at(w, 3) == b3,
        byte_at(w, 4) == b4,
        byte_at(w, 5) == b5,
        byte_at(w, 6) == b6,
        byte_at(w, 7) == b7,
{
}

/// Lane-by-lane meaning of the equality mask: lane 0 is set exactly on a
/// true byte match, and each further lane is set on a true match or when
/// its lane of `w XOR tile(t)` is exactly one and the borrow arrives from
/// the lane below — the recurrence the borrow chain follows.
pub proof fn lemma_eq_mask_bits(w: u64, t: u8, e: u64)
    by (bit_vector)
    requires
        e == eq_mask_word(w, t),
    ensures
        byte_aligned(e),
        lane_set(e, 0) <==> byte_at(w, 0) == t,
        lane_set(e, 1) <==> (byte_at(w, 1) == t || ((byte_at(w, 1) ^ t) == 1 && lane_set(e, 0))),
        lane_set(e, 2) <==> (byte_at(w, 2) == t || ((byte_at(w, 2) ^ t) == 1 && lane_set(e, 1))),
        lane_set(e, 3) <==> (byte_at(w, 3) == t || ((byte_at(w, 3) ^ t) == 1 && lane_set(e, 2))),
        lane_set(e, 4) <==> (byte_at(w, 4) == t || ((byte_at(w, 4) ^ t) == 1 && lane_set(e, 3))),
        lane_set(e, 5) <==> (byte_at(w, 5) == t || ((byte_at(w, 5) ^ t) == 1 && lane_set(e, 4))),
        lane_set(e, 6) <==> (byte_at(w, 6) == t || ((byte_at(w, 6) ^ t) == 1 && lane_set(e, 5))),
        lane_set(e, 7) <==> (byte_at(w, 7) == t || ((byte_at(w, 7) ^ t) == 1 && lane_set(e, 6))),
{
}

/// Lane-by-lane meaning of the empty mask: lane `i` is set exactly when
/// byte `i` has its own high bit set.
pub proof fn lemma_empty_mask_bits(w: u64, e: u64)
    by (bit_vector)
    requires
        e == empty_mask_word(w),
    ensures
        byte_aligned(e),
        lane_set(e, 0) <==> (byte_at(w, 0) & 0x80) != 0,
        lane_set(e, 1) <==> (byte_at(w, 1) & 0x80) != 0,
        lane_set(e, 2) <==> (byte_at(w, 2) & 0x80) != 0,
        lane_set(e, 3) <==> (byte_at(w, 3) & 0x80) != 0,
        lane_set(e, 4) <==> (byte_at(w, 4) & 0x80) != 0,
        lane_set(e, 5) <==> (byte_at(w, 5) & 0x80) != 0,
        lane_set(e, 6) <==> (byte_at(w, 6) & 0x80) != 0,
        lane_set(e, 7) <==> (byte_at(w, 7) & 0x80) != 0,
{
}

/// A byte-aligned word is zero exactly when none of its eight lane flags
/// is set.
pub proof fn lemma_mask_zero_iff(m: u64)
    by (bit_vector)
    requires
        byte_aligned(m),
    ensures
        (m == 0) <==> (!lane_set(m, 0) && !lane_set(m, 1) && !lane_set(m, 2) && !lane_set(m, 3)
            && !lane_set(m, 4) && !lane_set(m, 5) && !lane_set(m, 6) && !lane_set(m, 7)),
{
}

/// The zero word has no lane flag set.
pub proof fn lemma_lane_of_zero(j: u64)
    by (bit_vector)
    requires
        j < 8,
    ensures
        !lane_set(0u64, j),
{
}

/// Testing a lane with a shifted `0x80` probe agrees with `lane_set`, and
/// a clear lane extends the bits-below-clear invariant one lane up.
pub proof fn lemma_lane_test(m: u64, i: u64)
    by (bit_vector)
    requires
        i < 8,
    ensures
        (m & (0x80u64 << ((8 * i) as u64)) != 0) <==> lane_set(m, i),
        m & below_lane_mask(0) == 0,
        (i < 7 && byte_aligned(m) && m & below_lane_mask(i) == 0
            && m & (0x80u64 << ((8 * i) as u64)) == 0) ==> m & below_lane_mask((i + 1) as u64)
            == 0,
{
}

/// Clearing the lowest set bit of a byte-aligned word whose lowest set
/// lane is `k` clears exactly lane `k`'s flag and keeps the word
/// byte-aligned with everything below `k` still clear.
pub proof fn lemma_clear_lowest(m: u64, k: u64)
    by (bit_vector)
    requires
        m != 0,
        byte_aligned(m),
        k < 8,
        lane_set(m, k),
        m & below_lane_mask(k) == 0,
    ensures
        byte_aligned(clear_lowest(m)),
        !lane_set(clear_lowest(m), k),
        clear_lowest(m) & below_lane_mask(k) == 0,
{
}

/// Under the same hypotheses, every lane other than `k` keeps its flag.
pub proof fn lemma_clear_lowest_other(m: u64, k: u64, j: u64)
    by (bit_vector)
    requires
        m != 0,
        byte_aligned(m),
        k < 8,
        lane_set(m, k),
        m & below_lane_mask(k) == 0,
        j < 8,
        j != k,
    ensures
        lane_set(clear_lowest(m), j) == lane_set(m, j),
{
}

/// Replicates `byte` into all eight lanes of a word.
#[inline]
pub(crate) fn repeat(byte: u8) -> (r: u64)
    ensures
        r == repeat_byte(byte),
{
    (byte as u64) | ((byte as u64) << 8u64) | ((byte as u64) << 16u64) | ((byte as u64) << 24u64)
        | ((byte as u64) << 32u64) | ((byte as u64) << 40u64) | ((byte as u64) << 48u64)
        | ((byte as u64) << 56u64)
}

/// The lowest lane of a nonzero byte-aligned word whose flag is set.
pub(crate) fn lowest_lane(m: u64) -> (r: usize)
    requires
        m != 0,
        byte_aligned(m),
    ensures
        r < 8,
        lane_set(m, r as u64),
        forall|j: u64| j < r ==> !#[trigger] lane_set(m, j),
        m & below_lane_mask(r as u64) == 0,
{
    let mut idx: usize = 0;
    proof {
        lemma_lane_test(m, 0);
    }
    while idx < 8
        invariant
            m != 0,
            byte_aligned(m),
            idx <= 8,
            forall|j: u64| j < idx ==> !#[trigger] lane_set(m, j),
            idx < 8 ==> m & below_lane_mask(idx as u64) == 0,
        decreases 8 - idx,
    {
        if m & (0x80u64 << ((8 * idx) as u64)) != 0 {
            proof {
                lemma_lane_test(m, idx as u64);
            }
            return idx;
        }
        proof {
            lemma_lane_test(m, idx as u64);
        }
        idx = idx + 1;
    }
    proof {
        lemma_mask_zero_iff(m);
        assert(!lane_set(m, 0u64) && !lane_set(m, 1u64) && !lane_set(m, 2u64)
            && !lane_set(m, 3u64) && !lane_set(m, 4u64) && !lane_set(m, 5u64)
            && !lane_set(m, 6u64) && !lane_set(m, 7u64));
        assert(false);
    }
    0
}

} // verus!
