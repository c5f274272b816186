//! Durability: how often a value is expected to change.

use vstd::prelude::*;

verus! {

/// How often an input is expected to change. The more durable an input, the
/// rarer its changes, and the more work a change of it can cause.
#[derive(Copy, Clone, Debug, PartialEq, Eq, PartialOrd, Ord, Hash, Structural)]
pub enum Durability {
    Low,
    Medium,
    High,
}

impl Durability {
    /// The highest durability.
    pub const MAX: Durability = Durability::High;

    /// How many durabilities there are.
    pub const LEN: usize = 3;

    /// The position of a durability among all of them, from the lowest up.
    pub open spec fn spec_index(self) -> int {
        match self {
            Durability::Low => 0,
            Durability::Medium => 1,
            Durability::High => 2,
        }
    }

    /// The lower of two durabilities.
    pub open spec fn spec_min(self, other: Durability) -> Durability {
        if other.spec_index() < self.spec_index() {
            other
        } else {
            self
        }
    }

    /// The position of a durability among all of them, from the lowest up.
    pub fn index(self) -> (index: usize)
        ensures
            index == self.spec_index(),
            index < Durability::LEN,
    {
        match self {
            Durability::Low => 0,
            Durability::Medium => 1,
            Durability::High => 2,
        }
    }

    /// The lower of two durabilities.
    pub fn min(self, other: Durability) -> (lower: Durability)
        ensures
            lower == self.spec_min(other),
    {
        if other.index() < self.index() {
            other
        } else {
            self
        }
    }
}

} // verus!
