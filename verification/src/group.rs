//! The per-group matching primitive: construction of the two byte-aligned
//! masks from a group snapshot and a tag, the two empty-slot queries, and
//! the draining iteration over match positions.

use vstd::prelude::*;
use crate::bits::{
    byte_aligned, clear_lowest, empty_mask_word, eq_mask_word, lane_set, lowest_lane, repeat,
    repeat_byte, sub_wrap, word_of, lemma_clear_lowest, lemma_clear_lowest_other,
    lemma_empty_mask_bits, lemma_eq_mask_bits, lemma_lane_of_zero, lemma_mask_zero_iff,
    lemma_word_bytes,
};
use crate::lanes::{
    lanes_from, lemma_lanes_from_agree, lemma_lanes_from_props, lemma_lanes_from_stretch,
};

verus! {

/// Number of control bytes (slots) in one group.
pub const GROUP_SIZE: usize = 8;

/// One probe's view of a group: which slots carry the searched tag and
/// which slots are empty, each as a mask with one flag bit per byte lane.
///
/// The match mask is drained through [`GroupQuery::next`]; the empty mask
/// is read-only for the value's lifetime.
#[derive(PartialEq, Eq, Structural)]
pub struct GroupQuery {
    eq_mask: u64,
    empty_mask: u64,
}

/// The match flag the borrow chain computes for lane `i`: a true byte
/// match, or a lane of `group XOR tile(tag)` equal to one that a borrow
/// from the lane below runs into. The second case is the documented rare
/// false positive; callers re-verify keys after a tag match anyway.
pub open spec fn match_flag(g: Seq<u8>, t: u8, i: int) -> bool
    recommends
        g.len() == 8,
        i < 8,
    decreases i + 1,
{
    if i < 0 {
        false
    } else {
        g[i] == t || ((g[i] ^ t) == 1 && match_flag(g, t, i - 1))
    }
}

/// Lane `i` is a false positive of the borrow trick: no byte match, but
/// its lane of the XOR difference is exactly one and a run of such lanes
/// connects it downward to a true match (a zero lane of the difference).
pub open spec fn spurious_match(g: Seq<u8>, t: u8, i: int) -> bool
    recommends
        g.len() == 8,
{
    &&& 0 <= i < 8
    &&& g[i] != t
    &&& (g[i] ^ t) == 1
    &&& exists|j: int|
        0 <= j < i && (#[trigger] g[j]) == t && (forall|l: int|
            j < l < i ==> (#[trigger] (g[l] ^ t)) == 1)
}

impl GroupQuery {
    /// The value `from` constructs: both masks as pure functions of the
    /// group bytes and the tag.
    pub closed spec fn spec_from(g: Seq<u8>, t: u8) -> GroupQuery {
        GroupQuery {
            eq_mask: eq_mask_word(word_of(g), t),
            empty_mask: empty_mask_word(word_of(g)),
        }
    }

    /// Both masks only ever carry byte-aligned flag bits.
    pub closed spec fn wf(self) -> bool {
        byte_aligned(self.eq_mask) && byte_aligned(self.empty_mask)
    }

    /// Lane `i`'s match flag is set and not yet drained.
    pub closed spec fn match_lane(self, i: int) -> bool {
        0 <= i < 8 && lane_set(self.eq_mask, i as u64)
    }

    /// Lane `i` is marked empty.
    pub closed spec fn empty_lane(self, i: int) -> bool {
        0 <= i < 8 && lane_set(self.empty_mask, i as u64)
    }

    /// The not-yet-drained match positions, in ascending order.
    pub closed spec fn remaining(self) -> Seq<int> {
        lanes_from(self.eq_mask, 0)
    }

    /// Builds the query for one probe step: `eq_mask` flags every lane
    /// whose byte equals `h2` (with the rare borrow-adjacent false
    /// positive, never a false negative), `empty_mask` flags exactly the
    /// lanes whose byte has its own high bit set.
    #[inline]
    pub fn from(group: &[u8; GROUP_SIZE], h2: u8) -> (r: GroupQuery)
        ensures
            r == GroupQuery::spec_from(group@, h2),
            r.wf(),
            forall|i: int| 0 <= i < 8 ==> ((#[trigger] r.match_lane(i)) <==> match_flag(
                group@,
                h2,
                i,
            )),
            forall|i: int| 0 <= i < 8 ==> ((#[trigger] r.empty_lane(i)) <==> (group@[i] & 0x80)
                != 0),
            r.remaining().len() <= 8,
    {
        let w: u64 = (group[0] as u64) | ((group[1] as u64) << 8u64) | ((group[2] as u64)
            << 16u64) | ((group[3] as u64) << 24u64) | ((group[4] as u64) << 32u64) | ((group[5]
            as u64) << 40u64) | ((group[6] as u64) << 48u64) | ((group[7] as u64) << 56u64);
        let cmp: u64 = w ^ repeat(h2);
        let high_bit_was_clear: u64 = !cmp & repeat(0x80);
        let borrowed: u64 = cmp.wrapping_sub(repeat(0x01));
        let eq_mask: u64 = high_bit_was_clear & borrowed;
        let empty_mask: u64 = w & repeat(0x80);
        let r = GroupQuery { eq_mask, empty_mask };
        proof {
            assert(w == word_of(group@));
            assert(borrowed == sub_wrap(cmp, repeat_byte(0x01)));
            assert(r == GroupQuery::spec_from(group@, h2));
            lemma_spec_from_lanes(group@, h2);
            lemma_lanes_from_props(eq_mask, 0);
            lemma_remaining_len(r);
        }
        r
    }

    /// True exactly when some slot of the group is empty.
    #[inline]
    pub fn any_empty(&self) -> (r: bool)
        requires
            self.wf(),
        ensures
            r <==> exists|i: int| 0 <= i < 8 && #[trigger] self.empty_lane(i),
    {
        proof {
            lemma_mask_zero_iff(self.empty_mask);
            if self.empty_mask != 0 {
                if lane_set(self.empty_mask, 0) {
                    assert(self.empty_lane(0));
                } else if lane_set(self.empty_mask, 1) {
                    assert(self.empty_lane(1));
                } else if lane_set(self.empty_mask, 2) {
                    assert(self.empty_lane(2));
                } else if lane_set(self.empty_mask, 3) {
                    assert(self.empty_lane(3));
                } else if lane_set(self.empty_mask, 4) {
                    assert(self.empty_lane(4));
                } else if lane_set(self.empty_mask, 5) {
                    assert(self.empty_lane(5));
                } else if lane_set(self.empty_mask, 6) {
                    assert(self.empty_lane(6));
                } else {
                    assert(self.empty_lane(7));
                }
            } else {
                assert forall|i: int| 0 <= i < 8 implies !self.empty_lane(i) by {
                    lemma_lane_of_zero(i as u64);
                }
            }
        }
        self.empty_mask != 0
    }

    /// The lowest empty slot of the group, or `None` when no slot is
    /// empty: the canonical insertion slot of a probe that reaches this
    /// group.
    #[inline]
    pub fn first_empty(&self) -> (r: Option<usize>)
        requires
            self.wf(),
        ensures
            match r {
                Some(i) => i < 8 && self.empty_lane(i as int) && (forall|j: int|
                    0 <= j < i ==> !#[trigger] self.empty_lane(j)),
                None => forall|i: int| 0 <= i < 8 ==> !#[trigger] self.empty_lane(i),
            },
    {
        if self.empty_mask == 0 {
            proof {
                assert forall|i: int| 0 <= i < 8 implies !self.empty_lane(i) by {
                    lemma_lane_of_zero(i as u64);
                }
            }
            None
        } else {
            let k = lowest_lane(self.empty_mask);
            proof {
                assert forall|j: int| 0 <= j < k implies !self.empty_lane(j) by {
                    assert(!lane_set(self.empty_mask, j as u64));
                }
            }
            Some(k)
        }
    }

    /// One step of the draining match iteration: yields the lowest
    /// remaining match position and clears its flag, or signals
    /// exhaustion. Positions come out strictly ascending, each exactly
    /// once; the sequence cannot be restarted.
    #[inline]
    pub fn next(&mut self) -> (r: Option<usize>)
        requires
            old(self).wf(),
        ensures
            final(self).wf(),
            forall|i: int| #[trigger] final(self).empty_lane(i) == old(self).empty_lane(i),
            old(self).remaining().len() == 0 ==> (r is None && *final(self) == *old(self)),
            old(self).remaining().len() != 0 ==> (r == Some(old(self).remaining()[0] as usize)
                && 0 <= old(self).remaining()[0] < 8 && final(self).remaining() == old(
                self,
            ).remaining().drop_first()),
    {
        let m = self.eq_mask;
        if m == 0 {
            proof {
                lemma_remaining_empty(*self);
            }
            return None;
        }
        let k = lowest_lane(m);
        proof {
            lemma_lanes_from_props(m, 0);
            assert(lanes_from(m, 0).contains(k as int));
            let s = lanes_from(m, 0);
            let n = choose|n: int| 0 <= n < s.len() && s[n] == k as int;
            if n > 0 {
                assert(s[0] < s[n]);
                assert(lane_set(m, s[0] as u64));
                assert((s[0] as u64) < k as u64);
                assert(false);
            }
            assert(s[0] == k as int);
        }
        self.eq_mask = m & (m - 1);
        proof {
            let m2 = self.eq_mask;
            assert(m2 == clear_lowest(m));
            lemma_clear_lowest(m, k as u64);
            assert forall|l: int| 0 <= l < 8 && l != k as int implies #[trigger] lane_set(
                m2,
                l as u64,
            ) == lane_set(m, l as u64) by {
                lemma_clear_lowest_other(m, k as u64, l as u64);
            }
            assert forall|l: int| 0 <= l < k as int implies !#[trigger] lane_set(m, l as u64) by {
                assert((l as u64) < k as u64);
            }
            lemma_lanes_from_stretch(m, 0, k as int);
            assert forall|l: int| 0 <= l < k as int + 1 implies !#[trigger] lane_set(
                m2,
                l as u64,
            ) by {
                if l < k as int {
                    assert(lane_set(m2, l as u64) == lane_set(m, l as u64));
                }
            }
            lemma_lanes_from_stretch(m2, 0, k as int + 1);
            assert forall|l: int| k as int + 1 <= l < 8 implies #[trigger] lane_set(m, l as u64)
                == lane_set(m2, l as u64) by {}
            lemma_lanes_from_agree(m, m2, k as int + 1);
            assert(lanes_from(m, k as int) == seq![k as int] + lanes_from(m, k as int + 1));
            assert(lanes_from(m, 0).drop_first() =~= lanes_from(m, k as int + 1));
        }
        Some(k)
    }
}

/// The drained sequence is empty exactly when no match flag is left.
proof fn lemma_remaining_empty(q: GroupQuery)
    requires
        q.eq_mask == 0,
    ensures
        q.remaining().len() == 0,
{
    lemma_lanes_from_props(q.eq_mask, 0);
    let s = lanes_from(q.eq_mask, 0);
    if s.len() > 0 {
        assert(lane_set(q.eq_mask, s[0] as u64));
        lemma_lane_of_zero(s[0] as u64);
        assert(false);
    }
}

/// At most one match position per lane.
proof fn lemma_remaining_len(q: GroupQuery)
    ensures
        q.remaining().len() <= 8,
{
    lemma_lanes_from_props(q.eq_mask, 0);
    let s = lanes_from(q.eq_mask, 0);
    if s.len() > 8 {
        assert(s[0] < s[1] && s[1] < s[2] && s[2] < s[3] && s[3] < s[4] && s[4] < s[5] && s[5]
            < s[6] && s[6] < s[7] && s[7] < s[8]);
        assert(0 <= s[0] && s[8] < 8);
        assert(false);
    }
}

/// The masks of `spec_from` lane by lane: well-formed, the match flags
/// follow the borrow-chain recurrence over the group bytes, and the empty
/// flags copy the bytes' own high bits.
proof fn lemma_spec_from_lanes(g: Seq<u8>, t: u8)
    requires
        g.len() == 8,
    ensures
        GroupQuery::spec_from(g, t).wf(),
        forall|i: int| 0 <= i < 8 ==> ((#[trigger] GroupQuery::spec_from(g, t).match_lane(i))
            <==> match_flag(g, t, i)),
        forall|i: int| 0 <= i < 8 ==> ((#[trigger] GroupQuery::spec_from(g, t).empty_lane(i))
            <==> (g[i] & 0x80) != 0),
{
    let w = word_of(g);
    lemma_word_bytes(g[0], g[1], g[2], g[3], g[4], g[5], g[6], g[7], w);
    let e = eq_mask_word(w, t);
    let em = empty_mask_word(w);
    lemma_eq_mask_bits(w, t, e);
    lemma_empty_mask_bits(w, em);
    let q = GroupQuery::spec_from(g, t);
    assert(q.eq_mask == e && q.empty_mask == em);
    assert(match_flag(g, t, -1) == false);
    assert(match_flag(g, t, 0) <==> lane_set(e, 0));
    assert(match_flag(g, t, 1) <==> lane_set(e, 1));
    assert(match_flag(g, t, 2) <==> lane_set(e, 2));
    assert(match_flag(g, t, 3) <==> lane_set(e, 3));
    assert(match_flag(g, t, 4) <==> lane_set(e, 4));
    assert(match_flag(g, t, 5) <==> lane_set(e, 5));
    assert(match_flag(g, t, 6) <==> lane_set(e, 6));
    assert(match_flag(g, t, 7) <==> lane_set(e, 7));
    assert forall|i: int| 0 <= i < 8 implies ((#[trigger] q.match_lane(i)) <==> match_flag(
        g,
        t,
        i,
    )) by {
        assert(i == 0 || i == 1 || i == 2 || i == 3 || i == 4 || i == 5 || i == 6 || i == 7);
    }
    assert forall|i: int| 0 <= i < 8 implies ((#[trigger] q.empty_lane(i)) <==> (g[i] & 0x80)
        != 0) by {
        assert(i == 0 || i == 1 || i == 2 || i == 3 || i == 4 || i == 5 || i == 6 || i == 7);
    }
}

/// A set match flag unwinds to a true byte match or to the documented
/// borrow-adjacency pattern.
proof fn lemma_match_flag_chain(g: Seq<u8>, t: u8, i: int)
    requires
        g.len() == 8,
        0 <= i < 8,
        match_flag(g, t, i),
    ensures
        g[i] == t || spurious_match(g, t, i),
    decreases i,
{
    if g[i] != t {
        assert(match_flag(g, t, -1) == false);
        assert(i >= 1);
        assert((g[i] ^ t) == 1 && match_flag(g, t, i - 1));
        lemma_match_flag_chain(g, t, i - 1);
        if g[i - 1] == t {
            assert(0 <= i - 1 < i && (g[i - 1]) == t && (forall|l: int|
                i - 1 < l < i ==> (#[trigger] (g[l] ^ t)) == 1));
            assert(spurious_match(g, t, i));
        } else {
            assert(spurious_match(g, t, i - 1));
            let j = choose|j: int|
                0 <= j < i - 1 && (#[trigger] g[j]) == t && (forall|l: int|
                    j < l < i - 1 ==> (#[trigger] (g[l] ^ t)) == 1);
            assert forall|l: int| j < l < i implies (#[trigger] (g[l] ^ t)) == 1 by {
                if l == i - 1 {
                    assert((g[i - 1] ^ t) == 1);
                }
            }
            assert(0 <= j < i && (g[j]) == t && (forall|l: int|
                j < l < i ==> (#[trigger] (g[l] ^ t)) == 1));
            assert(spurious_match(g, t, i));
        }
    }
}

/// A run of XOR-difference-one lanes above a true match carries the
/// borrow chain: the flag at the run's top is set.
proof fn lemma_chain_to_flag(g: Seq<u8>, t: u8, j: int, i: int)
    requires
        g.len() == 8,
        0 <= j <= i < 8,
        g[j] == t,
        forall|l: int| j < l <= i ==> (#[trigger] (g[l] ^ t)) == 1,
    ensures
        match_flag(g, t, i),
    decreases i - j,
{
    if i > j {
        lemma_chain_to_flag(g, t, j, i - 1);
        assert((g[i] ^ t) == 1);
    }
}

/// The borrow chain's flag is set exactly on a true byte match or the
/// documented borrow-adjacency pattern: the false positives of `from` are
/// precisely the spurious matches, no more and no fewer.
pub proof fn lemma_match_flag_exact(g: Seq<u8>, t: u8, i: int)
    requires
        g.len() == 8,
        0 <= i < 8,
    ensures
        match_flag(g, t, i) <==> (g[i] == t || spurious_match(g, t, i)),
{
    if match_flag(g, t, i) {
        lemma_match_flag_chain(g, t, i);
    }
    if g[i] == t {
        assert(match_flag(g, t, i));
    } else if spurious_match(g, t, i) {
        let j = choose|j: int|
            0 <= j < i && (#[trigger] g[j]) == t && (forall|l: int|
                j < l < i ==> (#[trigger] (g[l] ^ t)) == 1);
        assert forall|l: int| j < l <= i implies (#[trigger] (g[l] ^ t)) == 1 by {
            if l == i {
                assert((g[i] ^ t) == 1);
            }
        }
        lemma_chain_to_flag(g, t, j, i);
    }
}

/// No false negatives: every index whose group byte equals the tag is in
/// the drained match sequence of a fresh query.
pub proof fn lemma_no_false_negatives(g: Seq<u8>, t: u8, i: int)
    requires
        g.len() == 8,
        0 <= i < 8,
        g[i] == t,
    ensures
        GroupQuery::spec_from(g, t).remaining().contains(i),
{
    lemma_spec_from_lanes(g, t);
    let q = GroupQuery::spec_from(g, t);
    assert(match_flag(g, t, i));
    assert(q.match_lane(i));
    lemma_lanes_from_props(q.eq_mask, 0);
}

/// Bounded false positives: every index in the drained match sequence of
/// a fresh query is a true byte match or the documented borrow-adjacency
/// pattern next to one.
pub proof fn lemma_bounded_false_positives(g: Seq<u8>, t: u8, i: int)
    requires
        g.len() == 8,
        GroupQuery::spec_from(g, t).remaining().contains(i),
    ensures
        0 <= i < 8,
        g[i] == t || spurious_match(g, t, i),
{
    lemma_spec_from_lanes(g, t);
    let q = GroupQuery::spec_from(g, t);
    lemma_lanes_from_props(q.eq_mask, 0);
    let s = lanes_from(q.eq_mask, 0);
    let n = choose|n: int| 0 <= n < s.len() && s[n] == i;
    assert(lane_set(q.eq_mask, s[n] as u64));
    assert(q.match_lane(i));
    lemma_match_flag_chain(g, t, i);
}

/// The drained sequence is strictly ascending, so no index repeats.
pub proof fn lemma_drain_ascending(q: GroupQuery, n1: int, n2: int)
    requires
        0 <= n1 < n2 < q.remaining().len(),
    ensures
        q.remaining()[n1] < q.remaining()[n2],
{
    lemma_lanes_from_props(q.eq_mask, 0);
}

/// Membership in the drained sequence is exactly a pending match flag.
pub proof fn lemma_remaining_is_match_lanes(q: GroupQuery, i: int)
    ensures
        q.remaining().contains(i) <==> q.match_lane(i),
{
    lemma_lanes_from_props(q.eq_mask, 0);
    if q.remaining().contains(i) {
        let s = lanes_from(q.eq_mask, 0);
        let n = choose|n: int| 0 <= n < s.len() && s[n] == i;
        assert(lane_set(q.eq_mask, s[n] as u64));
    }
}

/// Purity: two queries built from the same bytes and tag are the same
/// value, with the same masks, drained sequence and empty lanes.
pub proof fn lemma_from_pure(g: Seq<u8>, t: u8, q1: GroupQuery, q2: GroupQuery)
    requires
        q1 == GroupQuery::spec_from(g, t),
        q2 == GroupQuery::spec_from(g, t),
    ensures
        q1 == q2,
        q1.remaining() == q2.remaining(),
        forall|i: int| #[trigger] q1.match_lane(i) == q2.match_lane(i),
        forall|i: int| #[trigger] q1.empty_lane(i) == q2.empty_lane(i),
{
}

} // verus!
