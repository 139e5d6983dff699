use vstd::prelude::*;

use crate::monoid::FoldPredicate;
use crate::monoid::SegTreeType;

verus! {

/// Unsigned 64-bit sum that clamps at the largest representable value:
/// an associative operation with identity zero, usable as a segment-tree
/// monoid with no possibility of overflow.
pub struct SaturatingSum;

impl SegTreeType for SaturatingSum {
    type Item = u64;

    open spec fn spec_id() -> u64 {
        0
    }

    open spec fn spec_prod(a: u64, b: u64) -> u64 {
        if a + b <= u64::MAX {
            (a + b) as u64
        } else {
            u64::MAX
        }
    }

    proof fn lemma_identity(a: u64) {
    }

    proof fn lemma_associative(a: u64, b: u64, c: u64) {
    }

    fn id() -> (r: u64) {
        0
    }

    fn prod(a: &u64, b: &u64) -> (r: u64) {
        if *a <= u64::MAX - *b {
            *a + *b
        } else {
            u64::MAX
        }
    }
}

/// Accepts aggregated sums up to a fixed limit. Under `SaturatingSum` the
/// aggregate never shrinks as a range grows, so this predicate is monotone
/// in the sense the boundary searches ask for.
pub struct AtMost {
    pub limit: u64,
}

impl FoldPredicate<SaturatingSum> for AtMost {
    open spec fn spec_test(&self, v: u64) -> bool {
        v <= self.limit
    }

    fn test(&self, v: &u64) -> (r: bool) {
        *v <= self.limit
    }
}

} // verus!
