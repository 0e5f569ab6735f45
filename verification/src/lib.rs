//! Portable byte-matching primitive for control-byte groups of
//! open-addressing hash tables in the SwissTable family.
//!
//! A probe step takes a snapshot of one group of eight control bytes and a
//! one-byte tag, and asks which slots carry that tag and which slots are
//! empty. [`GroupQuery`] answers both with two byte-aligned bit masks built
//! by branch-free word tricks, and hands the match positions out as a
//! draining, strictly ascending sequence.

mod bits;
mod lanes;
mod group;

pub use group::GroupQuery;
pub use group::GROUP_SIZE;
pub use group::match_flag;
pub use group::spurious_match;
pub use group::lemma_match_flag_exact;
pub use group::lemma_no_false_negatives;
pub use group::lemma_bounded_false_positives;
pub use group::lemma_drain_ascending;
pub use group::lemma_remaining_is_match_lanes;
pub use group::lemma_from_pure;
