//! The partitioning capability: the one rule that decides tree shape.

use vstd::prelude::*;

use crate::node::{lemma_halves, NodeRange};

verus! {

/// Splits ranges for tree construction and comparison. Both trees taking
/// part in a difference must share this rule, so its contract pins the split
/// to midpoint bisection: cross-tree range matching is meaningless without
/// it.
pub trait Partitioner {
    /// Bisect a non-unit range into its two halves; a unit range yields
    /// nothing and becomes a leaf.
    fn call(&self, range: &NodeRange) -> (p: Option<(NodeRange, NodeRange)>)
        requires
            range.wf(),
        ensures
            p == range.spec_partition(),
    ;
}

/// The midpoint partitioner over integer scalars.
pub struct IPartitioner {}

impl Partitioner for IPartitioner {
    fn call(&self, range: &NodeRange) -> (p: Option<(NodeRange, NodeRange)>) {
        let sv: u64 = range.start;
        let se: u64 = range.end;
        if sv == se {
            return None;
        }
        proof {
            lemma_halves(*range);
        }
        let mid: u64 = range.mid;
        let l = NodeRange::new(sv, mid);
        let r = NodeRange::new(mid + 1, se);
        Some((l, r))
    }
}

} // verus!
