//! Cycles: queries that wait for each other in a ring.

use crate::key::DatabaseKeyIndex;
use std::sync::Arc;
use vstd::prelude::*;

verus! {

/// What a query wants done when it turns out to take part in a cycle.
#[derive(Copy, Clone, Debug, PartialEq, Eq, Structural)]
pub enum CycleRecoveryStrategy {
    /// The query cannot recover.
    Panic,
    /// The query is unwound, and a fallback value takes the place of its result.
    Fallback,
}

/// True of the position of the smallest key, and of its first occurrence
/// where it occurs more than once.
pub open spec fn is_first_min(keys: Seq<DatabaseKeyIndex>, i: int) -> bool {
    &&& 0 <= i < keys.len()
    &&& forall|j: int| 0 <= j < keys.len() ==> !(#[trigger] keys[j]).spec_precedes(keys[i])
    &&& forall|j: int| 0 <= j < i ==> #[trigger] keys[j] != keys[i]
}

/// The position of the first occurrence of the smallest key.
pub open spec fn first_min(keys: Seq<DatabaseKeyIndex>) -> int {
    choose|i: int| is_first_min(keys, i)
}

/// The ring `keys`, read from position `start` on and round to it again.
pub open spec fn rotated(keys: Seq<DatabaseKeyIndex>, start: int) -> Seq<DatabaseKeyIndex> {
    keys.subrange(start, keys.len() as int) + keys.subrange(0, start)
}

/// The ring `keys`, read from its smallest key on.
pub open spec fn from_min(keys: Seq<DatabaseKeyIndex>) -> Seq<DatabaseKeyIndex> {
    rotated(keys, first_min(keys))
}

/// At most one position is that of the first smallest key.
proof fn lemma_first_min_unique(keys: Seq<DatabaseKeyIndex>, i: int, j: int)
    requires
        is_first_min(keys, i),
        is_first_min(keys, j),
    ensures
        i == j,
{
    assert(!keys[i].spec_precedes(keys[j]));
    assert(!keys[j].spec_precedes(keys[i]));
    assert(keys[i] == keys[j]);
}

/// Every ring that holds a key has a first smallest one.
pub proof fn lemma_first_min_exists(keys: Seq<DatabaseKeyIndex>)
    requires
        keys.len() > 0,
    ensures
        is_first_min(keys, first_min(keys)),
    decreases keys.len(),
{
    if keys.len() == 1 {
        assert(is_first_min(keys, 0));
    } else {
        let front = keys.drop_last();
        lemma_first_min_exists(front);
        let i = first_min(front);
        assert(front[i] == keys[i]);
        if keys.last().spec_precedes(keys[i]) {
            assert forall|j: int| 0 <= j < keys.len() implies !(
            #[trigger] keys[j]).spec_precedes(keys.last()) && (j < keys.len() - 1 ==> keys[j]
                != keys.last()) by {
                if j < keys.len() - 1 {
                    assert(front[j] == keys[j]);
                }
            }
            assert(is_first_min(keys, keys.len() - 1));
        } else {
            assert forall|j: int| 0 <= j < keys.len() implies !(
            #[trigger] keys[j]).spec_precedes(keys[i]) by {
                if j < keys.len() - 1 {
                    assert(front[j] == keys[j]);
                }
            }
            assert forall|j: int| 0 <= j < i implies #[trigger] keys[j] != keys[i] by {
                assert(front[j] == keys[j]);
            }
            assert(is_first_min(keys, i));
        }
    }
}

/// The order in which the participants of a cycle are reported does not depend
/// on the participant at which the cycle was entered: wherever a ring whose
/// smallest key occurs once is cut open, reading it from that key on gives the
/// same sequence.
pub proof fn law_cycle_order_ignores_entry(keys: Seq<DatabaseKeyIndex>, entry: int)
    requires
        0 <= entry < keys.len(),
        forall|j: int|
            0 <= j < keys.len() && #[trigger] keys[j] == keys[first_min(keys)] ==> j == first_min(
                keys,
            ),
    ensures
        from_min(rotated(keys, entry)) == from_min(keys),
{
    let n = keys.len() as int;
    let turned = rotated(keys, entry);
    lemma_first_min_exists(keys);
    lemma_first_min_exists(turned);
    let m = first_min(keys);
    let t = if entry <= m {
        m - entry
    } else {
        m - entry + n
    };
    assert(turned[t] == keys[m]);
    assert forall|j: int| 0 <= j < n implies !(#[trigger] turned[j]).spec_precedes(turned[t]) by {
        let back = if j + entry < n {
            j + entry
        } else {
            j + entry - n
        };
        assert(turned[j] == keys[back]);
    }
    assert forall|j: int| 0 <= j < t implies #[trigger] turned[j] != turned[t] by {
        let back = if j + entry < n {
            j + entry
        } else {
            j + entry - n
        };
        assert(turned[j] == keys[back]);
        assert(back != m);
    }
    assert(is_first_min(turned, t));
    lemma_first_min_unique(turned, t, first_min(turned));
    assert(from_min(turned) =~= from_min(keys));
}

/// A cycle is reported from its smallest participant on, and reporting it
/// neither adds nor loses a participant.
pub proof fn law_cycle_order_keeps_participants(keys: Seq<DatabaseKeyIndex>)
    requires
        keys.len() > 0,
    ensures
        from_min(keys).to_multiset() == keys.to_multiset(),
        forall|j: int|
            0 <= j < keys.len() ==> !(#[trigger] from_min(keys)[j]).spec_precedes(
                from_min(keys)[0],
            ),
{
    lemma_first_min_exists(keys);
    let m = first_min(keys);
    let n = keys.len() as int;
    let head = keys.subrange(0, m);
    let tail = keys.subrange(m, n);
    assert(head + tail =~= keys);
    vstd::seq_lib::lemma_multiset_commutative(head, tail);
    vstd::seq_lib::lemma_multiset_commutative(tail, head);
    assert forall|j: int| 0 <= j < n implies !(#[trigger] from_min(keys)[j]).spec_precedes(
        from_min(keys)[0],
    ) by {
        let back = if j + m < n {
            j + m
        } else {
            j + m - n
        };
        assert(from_min(keys)[j] == keys[back]);
        assert(from_min(keys)[0] == keys[m]);
    }
}

/// Turns a ring so that it starts at the first occurrence of its smallest key.
pub fn rotate_to_min(keys: Vec<DatabaseKeyIndex>) -> (turned: Vec<DatabaseKeyIndex>)
    requires
        keys@.len() > 0,
    ensures
        turned@ == from_min(keys@),
{
    let len: usize = keys.len();
    let mut index: usize = 0;
    let mut next: usize = 1;
    while next < len
        invariant
            len == keys@.len(),
            index < next <= len,
            is_first_min(keys@.take(next as int), index as int),
        decreases len - next,
    {
        let ghost seen = keys@.take(next as int);
        let ghost more = keys@.take(next + 1);
        assert(forall|j: int| 0 <= j < next ==> seen[j] == #[trigger] more[j]);
        if keys[next].precedes(keys[index]) {
            index = next;
        }
        next = next + 1;
    }
    assert(keys@.take(len as int) =~= keys@);
    proof {
        lemma_first_min_exists(keys@);
        lemma_first_min_unique(keys@, index as int, first_min(keys@));
    }
    let mut turned: Vec<DatabaseKeyIndex> = Vec::with_capacity(len);
    let mut at: usize = index;
    while at < len
        invariant
            len == keys@.len(),
            index <= at <= len,
            turned@ == keys@.subrange(index as int, at as int),
        decreases len - at,
    {
        turned.push(keys[at]);
        assert(turned@ =~= keys@.subrange(index as int, at + 1));
        at = at + 1;
    }
    at = 0;
    while at < index
        invariant
            len == keys@.len(),
            at <= index < len,
            turned@ == keys@.subrange(index as int, len as int) + keys@.subrange(0, at as int),
        decreases index - at,
    {
        turned.push(keys[at]);
        assert(turned@ =~= keys@.subrange(index as int, len as int) + keys@.subrange(
            0,
            at + 1,
        ));
        at = at + 1;
    }
    turned
}

/// The queries that take part in a cycle. Cheap to clone.
#[derive(Debug)]
pub struct Cycle {
    participants: Arc<Vec<DatabaseKeyIndex>>,
}

impl View for Cycle {
    type V = Seq<DatabaseKeyIndex>;

    closed spec fn view(&self) -> Seq<DatabaseKeyIndex> {
        self.participants@
    }
}

impl Clone for Cycle {
    fn clone(&self) -> (cycle: Cycle)
        ensures
            cycle@ == self@,
    {
        Cycle { participants: self.participants.clone() }
    }
}

impl Cycle {
    /// The cycle of the given participants.
    pub fn new(participants: Arc<Vec<DatabaseKeyIndex>>) -> (cycle: Cycle)
        ensures
            cycle@ == participants@,
    {
        Cycle { participants }
    }

    /// The participants, in the order in which the cycle reports them.
    pub fn participant_keys(&self) -> (keys: &Vec<DatabaseKeyIndex>)
        ensures
            keys@ == self@,
    {
        &self.participants
    }
}

} // verus!
