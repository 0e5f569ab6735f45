use group_query::{GroupQuery, GROUP_SIZE};

fn drain(q: &mut GroupQuery) -> Vec<usize> {
    let mut out = Vec::new();
    while let Some(i) = q.next() {
        out.push(i);
    }
    out
}

/// Indices the primitive is allowed to yield: a true byte match, or the
/// documented borrow-adjacency false positive (a lane of the XOR
/// difference equal to one, connected downward to a true match by a run
/// of such lanes).
fn allowed_index(group: &[u8; GROUP_SIZE], tag: u8, i: usize) -> bool {
    if group[i] == tag {
        return true;
    }
    if group[i] ^ tag != 1 {
        return false;
    }
    for j in (0..i).rev() {
        if group[j] == tag {
            return true;
        }
        if group[j] ^ tag != 1 {
            return false;
        }
    }
    false
}

/// Reference computation of the borrow chain's match flags, lane by lane.
fn reference_flags(group: &[u8; GROUP_SIZE], tag: u8) -> Vec<usize> {
    let mut out = Vec::new();
    let mut chain = false;
    for i in 0..GROUP_SIZE {
        chain = group[i] == tag || (group[i] ^ tag == 1 && chain);
        if chain {
            out.push(i);
        }
    }
    out
}

struct Lcg(u64);

impl Lcg {
    fn next_u64(&mut self) -> u64 {
        self.0 = self
            .0
            .wrapping_mul(6364136223846793005)
            .wrapping_add(1442695040888963407);
        self.0
    }

    fn next_group(&mut self) -> [u8; GROUP_SIZE] {
        let w = self.next_u64();
        w.to_le_bytes()
    }

    /// A byte drawn from a small alphabet around the tag, so matches,
    /// near-misses and borrow chains all occur often.
    fn next_clustered(&mut self, tag: u8) -> [u8; GROUP_SIZE] {
        let mut g = [0u8; GROUP_SIZE];
        for slot in g.iter_mut() {
            *slot = match self.next_u64() % 6 {
                0 => tag,
                1 => tag ^ 1,
                2 => 0x80,
                3 => 0,
                4 => tag.wrapping_add(2),
                _ => (self.next_u64() >> 24) as u8,
            };
        }
        g
    }
}

#[test]
fn scenario_match_and_empty() {
    let group: [u8; GROUP_SIZE] = [5, 0x80, 5, 9, 0x80, 0, 0, 0];
    let mut q = GroupQuery::from(&group, 5);
    assert!(q.any_empty());
    assert_eq!(q.first_empty(), Some(1));
    assert_eq!(drain(&mut q), vec![0, 2]);
}

#[test]
fn scenario_no_match_no_empty() {
    let group: [u8; GROUP_SIZE] = [1, 2, 3, 4, 5, 6, 7, 9];
    let mut q = GroupQuery::from(&group, 0x42);
    assert!(!q.any_empty());
    assert_eq!(q.first_empty(), None);
    assert_eq!(drain(&mut q), Vec::<usize>::new());
}

#[test]
fn false_positive_next_to_zero_difference() {
    // tag 0 makes lane 0 of the XOR difference zero and lane 1 one: the
    // borrow runs one lane up and index 1 comes out although byte 1 is
    // not the tag.
    let group: [u8; GROUP_SIZE] = [0, 1, 2, 2, 2, 2, 2, 2];
    let mut q = GroupQuery::from(&group, 0);
    assert_eq!(drain(&mut q), vec![0, 1]);
    assert!(allowed_index(&group, 0, 1));
    assert!(group[1] != 0);
}

#[test]
fn all_slots_match() {
    let group: [u8; GROUP_SIZE] = [7; GROUP_SIZE];
    let mut q = GroupQuery::from(&group, 7);
    assert_eq!(drain(&mut q), vec![0, 1, 2, 3, 4, 5, 6, 7]);
    assert!(!q.any_empty());
}

#[test]
fn tag_zero_matches_zero_byte() {
    let group: [u8; GROUP_SIZE] = [0, 5, 6, 7, 8, 9, 10, 11];
    let mut q = GroupQuery::from(&group, 0);
    let got = drain(&mut q);
    assert!(got.contains(&0));
}

#[test]
fn tag_with_high_bit_matches_empty_slot() {
    // The tag is an unconstrained byte: 0x80 matches a byte that the
    // empty mask also flags.
    let group: [u8; GROUP_SIZE] = [0x80, 1, 2, 3, 4, 5, 6, 7];
    let mut q = GroupQuery::from(&group, 0x80);
    assert!(q.any_empty());
    assert_eq!(q.first_empty(), Some(0));
    assert_eq!(drain(&mut q), vec![0]);
}

#[test]
fn empty_at_every_slot() {
    for k in 0..GROUP_SIZE {
        let mut group: [u8; GROUP_SIZE] = [1; GROUP_SIZE];
        group[k] = 0xff;
        let q = GroupQuery::from(&group, 2);
        assert!(q.any_empty());
        assert_eq!(q.first_empty(), Some(k));
    }
}

#[test]
fn drain_is_single_pass() {
    let group: [u8; GROUP_SIZE] = [3, 3, 0x80, 3, 1, 3, 3, 3];
    let mut q = GroupQuery::from(&group, 3);
    let first = drain(&mut q);
    assert_eq!(first, vec![0, 1, 3, 5, 6, 7]);
    assert_eq!(q.next(), None);
    assert_eq!(q.next(), None);
    // the empty side is untouched by draining
    assert!(q.any_empty());
    assert_eq!(q.first_empty(), Some(2));
}

#[test]
fn no_false_negatives_randomized() {
    let mut rng = Lcg(0x5eed_0001);
    for _ in 0..4000 {
        let tag = (rng.next_u64() >> 56) as u8;
        let group = rng.next_clustered(tag);
        let mut q = GroupQuery::from(&group, tag);
        let got = drain(&mut q);
        for i in 0..GROUP_SIZE {
            if group[i] == tag {
                assert!(got.contains(&i), "missed {} in {:?} tag {}", i, group, tag);
            }
        }
    }
}

#[test]
fn bounded_false_positives_randomized() {
    let mut rng = Lcg(0x5eed_0002);
    for _ in 0..4000 {
        let tag = (rng.next_u64() >> 56) as u8;
        let group = rng.next_clustered(tag);
        let mut q = GroupQuery::from(&group, tag);
        for i in drain(&mut q) {
            assert!(i < GROUP_SIZE);
            assert!(
                allowed_index(&group, tag, i),
                "index {} not allowed in {:?} tag {}",
                i,
                group,
                tag
            );
        }
    }
}

#[test]
fn drained_equals_borrow_chain_flags() {
    let mut rng = Lcg(0x5eed_0003);
    for _ in 0..4000 {
        let tag = (rng.next_u64() >> 56) as u8;
        let group = rng.next_clustered(tag);
        let mut q = GroupQuery::from(&group, tag);
        assert_eq!(drain(&mut q), reference_flags(&group, tag));
    }
}

#[test]
fn ascending_duplicate_free_randomized() {
    let mut rng = Lcg(0x5eed_0004);
    for _ in 0..4000 {
        let tag = (rng.next_u64() >> 56) as u8;
        let group = rng.next_clustered(tag);
        let mut q = GroupQuery::from(&group, tag);
        let got = drain(&mut q);
        for w in got.windows(2) {
            assert!(w[0] < w[1], "not strictly ascending: {:?}", got);
        }
    }
}

#[test]
fn empty_detection_randomized() {
    let mut rng = Lcg(0x5eed_0005);
    for _ in 0..4000 {
        let group = rng.next_group();
        let q = GroupQuery::from(&group, (rng.next_u64() >> 40) as u8);
        let naive_first = (0..GROUP_SIZE).find(|&i| group[i] & 0x80 != 0);
        assert_eq!(q.any_empty(), naive_first.is_some());
        assert_eq!(q.first_empty(), naive_first);
    }
}

#[test]
fn construction_is_pure() {
    let mut rng = Lcg(0x5eed_0006);
    for _ in 0..1000 {
        let tag = (rng.next_u64() >> 56) as u8;
        let group = rng.next_clustered(tag);
        let mut q1 = GroupQuery::from(&group, tag);
        let mut q2 = GroupQuery::from(&group, tag);
        assert!(q1 == q2);
        assert_eq!(q1.any_empty(), q2.any_empty());
        assert_eq!(q1.first_empty(), q2.first_empty());
        assert_eq!(drain(&mut q1), drain(&mut q2));
    }
}
