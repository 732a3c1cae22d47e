//! Positions in the BWT, and their order.

use vstd::prelude::*;
use vstd::std_specs::cmp::PartialOrdSpecImpl;
use std::cmp::Ordering;

verus! {

/// A position in the BWT: an offset in the record of a node.
///
/// Positions are ordered by node first and by offset second.
#[derive(Copy, Clone, Debug, Default, Hash, PartialEq, Eq, Structural, Ord)]
pub struct Pos {
    /// Node identifier.
    pub node: usize,
    /// Offset in the record of the node.
    pub offset: usize,
}

impl Pos {
    /// Creates a new position.
    #[inline]
    pub fn new(node: usize, offset: usize) -> (result: Self)
        ensures
            result.node == node,
            result.offset == offset,
    {
        Pos { node, offset }
    }

    /// This position comes before the other: its node is lower, or the node
    /// is the same and its offset is lower.
    pub open spec fn before(self, other: Pos) -> bool {
        self.node < other.node || (self.node == other.node && self.offset < other.offset)
    }
}

impl PartialOrd for Pos {
    fn partial_cmp(&self, other: &Pos) -> (result: Option<Ordering>) {
        if self.node < other.node {
            Some(Ordering::Less)
        } else if self.node > other.node {
            Some(Ordering::Greater)
        } else if self.offset < other.offset {
            Some(Ordering::Less)
        } else if self.offset > other.offset {
            Some(Ordering::Greater)
        } else {
            Some(Ordering::Equal)
        }
    }
}

impl PartialOrdSpecImpl for Pos {
    open spec fn obeys_partial_cmp_spec() -> bool {
        true
    }

    open spec fn partial_cmp_spec(&self, other: &Pos) -> Option<Ordering> {
        if self.before(*other) {
            Some(Ordering::Less)
        } else if other.before(*self) {
            Some(Ordering::Greater)
        } else {
            Some(Ordering::Equal)
        }
    }
}

} // verus!
