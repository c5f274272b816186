//! Revisions: the logical clock of the database.

use vstd::prelude::*;

verus! {

/// A point in the history of the database.
#[derive(Copy, Clone, Debug, PartialEq, Eq, PartialOrd, Ord, Hash, Structural)]
pub struct Revision {
    /// How many revisions came before this one.
    pub since_start: usize,
}

impl Revision {
    /// The later of two revisions.
    pub open spec fn spec_max(self, other: Revision) -> Revision {
        if self.since_start < other.since_start {
            other
        } else {
            self
        }
    }

    /// The revision that a fresh database is in.
    pub open spec fn spec_start() -> Revision {
        Revision { since_start: 0 }
    }

    /// The revision that a fresh database is in.
    pub fn start() -> (start: Revision)
        ensures
            start == Revision::spec_start(),
    {
        Revision { since_start: 0 }
    }

    /// The revision that follows this one.
    pub fn next(self) -> (next: Revision)
        requires
            self.since_start < usize::MAX,
        ensures
            next.since_start == self.since_start + 1,
    {
        Revision { since_start: self.since_start + 1 }
    }

    /// The later of two revisions.
    pub fn max(self, other: Revision) -> (later: Revision)
        ensures
            later == self.spec_max(other),
    {
        if self.since_start < other.since_start {
            other
        } else {
            self
        }
    }
}

} // verus!
