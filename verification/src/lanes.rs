//! Sequence view of a byte-aligned mask: the ascending list of lanes whose
//! flag bit is set, which is what a drain of the mask yields.

use vstd::prelude::*;
use crate::bits::lane_set;

verus! {

/// The lanes of `m` with a set flag, in ascending order, starting at lane
/// `i`.
pub open spec fn lanes_from(m: u64, i: int) -> Seq<int>
    decreases 8 - i,
{
    if i < 0 || i >= 8 {
        Seq::empty()
    } else if lane_set(m, i as u64) {
        seq![i] + lanes_from(m, i + 1)
    } else {
        lanes_from(m, i + 1)
    }
}

/// Every element of `lanes_from(m, i)` is a set lane in `[i, 8)`, every
/// set lane in `[i, 8)` occurs, and the sequence is strictly increasing.
pub proof fn lemma_lanes_from_props(m: u64, i: int)
    requires
        0 <= i <= 8,
    ensures
        forall|n: int| 0 <= n < lanes_from(m, i).len() ==> i <= #[trigger] lanes_from(m, i)[n]
            < 8 && lane_set(m, lanes_from(m, i)[n] as u64),
        forall|j: int| i <= j < 8 && lane_set(m, j as u64) ==> lanes_from(m, i).contains(j),
        forall|n1: int, n2: int| 0 <= n1 < n2 < lanes_from(m, i).len() ==> lanes_from(m, i)[n1]
            < lanes_from(m, i)[n2],
    decreases 8 - i,
{
    if i < 8 {
        lemma_lanes_from_props(m, i + 1);
        let rest = lanes_from(m, i + 1);
        let s = lanes_from(m, i);
        if lane_set(m, i as u64) {
            assert(s == seq![i] + rest);
            assert forall|n: int| 0 <= n < s.len() implies i <= #[trigger] s[n] < 8 && lane_set(
                m,
                s[n] as u64,
            ) by {
                if n == 0 {
                    assert(s[0] == i);
                } else {
                    assert(s[n] == rest[n - 1]);
                }
            }
            assert forall|j: int| i <= j < 8 && lane_set(m, j as u64) implies s.contains(j) by {
                if j == i {
                    assert(s[0] == i);
                } else {
                    assert(rest.contains(j));
                    let n = choose|n: int| 0 <= n < rest.len() && rest[n] == j;
                    assert(s[n + 1] == j);
                }
            }
            assert forall|n1: int, n2: int| 0 <= n1 < n2 < s.len() implies s[n1] < s[n2] by {
                if n1 == 0 {
                    assert(s[n2] == rest[n2 - 1]);
                } else {
                    assert(s[n1] == rest[n1 - 1] && s[n2] == rest[n2 - 1]);
                }
            }
        } else {
            assert(s == rest);
            assert forall|j: int| i <= j < 8 && lane_set(m, j as u64) implies s.contains(j) by {
                assert(j != i);
            }
        }
    }
}

/// A stretch of clear lanes contributes nothing: the sequence from `i`
/// equals the sequence from `j` when no lane in `[i, j)` is set.
pub proof fn lemma_lanes_from_stretch(m: u64, i: int, j: int)
    requires
        0 <= i <= j <= 8,
        forall|l: int| i <= l < j ==> !#[trigger] lane_set(m, l as u64),
    ensures
        lanes_from(m, i) == lanes_from(m, j),
    decreases j - i,
{
    if i < j {
        assert(!lane_set(m, i as u64));
        lemma_lanes_from_stretch(m, i + 1, j);
    }
}

/// Masks whose lanes agree from `i` up have the same lane sequence from
/// `i`.
pub proof fn lemma_lanes_from_agree(m1: u64, m2: u64, i: int)
    requires
        0 <= i <= 8,
        forall|l: int| i <= l < 8 ==> #[trigger] lane_set(m1, l as u64) == lane_set(m2, l as u64),
    ensures
        lanes_from(m1, i) == lanes_from(m2, i),
    decreases 8 - i,
{
    if i < 8 {
        lemma_lanes_from_agree(m1, m2, i + 1);
        assert(lane_set(m1, i as u64) == lane_set(m2, i as u64));
    }
}

} // verus!
