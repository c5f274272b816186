//! What a cycle does to one stack that it passes through.

use crate::cycle::{Cycle, CycleRecoveryStrategy};
use crate::event::Ingredients;
use crate::key::{DatabaseKeyIndex, IngredientIndex};
use crate::runtime::active_query::{gather, stack_view, ActiveQuery, QueryView};
use crate::runtime::graph_view::{
    first_participant, first_recovering, innermost_mark, marked, participating, unmarked,
    unwound_for, unwound_from, Recovery,
};
use vstd::prelude::*;

verus! {

/// The recovery strategies of the ingredients of a database.
pub open spec fn recovery_in(ingredients: Ingredients) -> Recovery {
    |ingredient_index: IngredientIndex| ingredients.recovery_of(ingredient_index)
}

/// Gathering from two lists of queries is gathering from one and then from the
/// other.
pub proof fn lemma_gather_append(gathered: QueryView, first: Seq<QueryView>, second: Seq<QueryView>)
    ensures
        gather(gathered, first + second) == gather(gather(gathered, first), second),
    decreases second.len(),
{
    if second.len() == 0 {
        assert(first + second =~= first);
    } else {
        lemma_gather_append(gathered, first, second.drop_last());
        assert((first + second).drop_last() =~= first + second.drop_last());
        assert((first + second).last() == second.last());
    }
}

/// The position of the first query on `stack` that takes part in a cycle that
/// enters it at `key`; the length of `stack` if there is none.
pub fn find_first_participant(stack: &Vec<ActiveQuery>, key: DatabaseKeyIndex) -> (first: usize)
    ensures
        first == first_participant(stack_view(stack@), key, 0),
        first <= stack@.len(),
{
    let mut i: usize = 0;
    while i < stack.len()
        invariant
            i <= stack@.len(),
            first_participant(stack_view(stack@), key, 0) == first_participant(
                stack_view(stack@),
                key,
                i as nat,
            ),
        decreases stack@.len() - i,
    {
        assert(stack_view(stack@)[i as int] == stack@[i as int]@);
        if stack[i].database_key_index == key {
            return i;
        }
        i = i + 1;
    }
    i
}

/// The position from which on the queries of `stack` are unwound, where the
/// cycle enters it at `key`.
pub fn find_unwound_from(
    stack: &Vec<ActiveQuery>,
    key: DatabaseKeyIndex,
    ingredients: &Ingredients,
) -> (first: usize)
    ensures
        first == unwound_from(stack_view(stack@), key, recovery_in(*ingredients)),
        first <= stack@.len(),
{
    let mut i: usize = find_first_participant(stack, key);
    while i < stack.len()
        invariant
            i <= stack@.len(),
            unwound_from(stack_view(stack@), key, recovery_in(*ingredients)) == first_recovering(
                stack_view(stack@),
                recovery_in(*ingredients),
                i as nat,
            ),
        decreases stack@.len() - i,
    {
        assert(stack_view(stack@)[i as int] == stack@[i as int]@);
        match ingredients.cycle_recovery_strategy(stack[i].database_key_index.ingredient_index) {
            CycleRecoveryStrategy::Panic => {},
            CycleRecoveryStrategy::Fallback => {
                return i;
            },
        }
        i = i + 1;
    }
    i
}

/// True if none of the queries that are about to be unwound is already marked.
pub fn is_unmarked(
    stack: &Vec<ActiveQuery>,
    key: DatabaseKeyIndex,
    ingredients: &Ingredients,
) -> (clear: bool)
    ensures
        clear == unmarked(stack_view(stack@), key, recovery_in(*ingredients)),
{
    let first: usize = find_unwound_from(stack, key, ingredients);
    let mut i: usize = first;
    while i < stack.len()
        invariant
            first == unwound_from(stack_view(stack@), key, recovery_in(*ingredients)),
            first <= i <= stack@.len(),
            forall|j: int| first <= j < i ==> (#[trigger] stack_view(stack@)[j]).cycle is None,
        decreases stack@.len() - i,
    {
        assert(stack_view(stack@)[i as int] == stack@[i as int]@);
        if stack[i].cycle.is_some() {
            return false;
        }
        i = i + 1;
    }
    true
}

/// Adds what the participants on `stack` depend on to `cycle_query`, and their
/// keys to `keys`.
pub fn collect_participants(
    stack: &Vec<ActiveQuery>,
    key: DatabaseKeyIndex,
    cycle_query: &mut ActiveQuery,
    keys: &mut Vec<DatabaseKeyIndex>,
)
    ensures
        final(cycle_query)@ == gather(
            old(cycle_query)@,
            participating(stack_view(stack@), key),
        ),
        final(keys)@ == old(keys)@ + participating(stack_view(stack@), key).map_values(
            |query: QueryView| query.key,
        ),
{
    let first: usize = find_first_participant(stack, key);
    let ghost part = participating(stack_view(stack@), key);
    let ghost name = |query: QueryView| query.key;
    let mut i: usize = first;
    assert(part.take(0) =~= Seq::<QueryView>::empty());
    assert(keys@ =~= old(keys)@ + part.take(0).map_values(name));
    while i < stack.len()
        invariant
            first == first_participant(stack_view(stack@), key, 0),
            first <= i <= stack@.len(),
            part == participating(stack_view(stack@), key),
            part.len() == stack@.len() - first,
            name == (|query: QueryView| query.key),
            cycle_query@ == gather(old(cycle_query)@, part.take(i - first)),
            keys@ == old(keys)@ + part.take(i - first).map_values(name),
        decreases stack@.len() - i,
    {
        let ghost seen = part.take(i - first);
        let ghost more = part.take(i - first + 1);
        proof {
            assert(part[i - first] == stack@[i as int]@);
            assert(more.drop_last() =~= seen);
            assert(more.last() == stack@[i as int]@);
        }
        let query: &ActiveQuery = &stack[i];
        cycle_query.add_from(query);
        keys.push(query.database_key_index);
        assert(keys@ =~= old(keys)@ + more.map_values(name));
        i = i + 1;
    }
    assert(part.take(i - first) =~= part);
}

/// Marks the queries of `stack` that are unwound: they depend on what the
/// whole cycle depends on.
pub fn mark_participants(
    stack: &mut Vec<ActiveQuery>,
    key: DatabaseKeyIndex,
    ingredients: &Ingredients,
    cycle_query: &ActiveQuery,
    cycle: &Cycle,
)
    requires
        unmarked(stack_view(old(stack)@), key, recovery_in(*ingredients)),
    ensures
        stack_view(final(stack)@) == marked(
            stack_view(old(stack)@),
            key,
            recovery_in(*ingredients),
            cycle_query@,
            cycle@,
        ),
{
    let ghost before = stack_view(stack@);
    let ghost goal = marked(before, key, recovery_in(*ingredients), cycle_query@, cycle@);
    let first: usize = find_unwound_from(stack, key, ingredients);
    let mut i: usize = first;
    while i < stack.len()
        invariant
            first == unwound_from(before, key, recovery_in(*ingredients)),
            first <= i <= stack@.len(),
            stack@.len() == before.len(),
            goal == marked(before, key, recovery_in(*ingredients), cycle_query@, cycle@),
            forall|j: int| 0 <= j < i ==> #[trigger] stack@[j]@ == goal[j],
            forall|j: int| i <= j < stack@.len() ==> #[trigger] stack@[j]@ == before[j],
        decreases stack@.len() - i,
    {
        let ghost earlier = stack@;
        stack[i].take_inputs_from(cycle_query);
        stack[i].cycle = Some(cycle.clone());
        assert(stack@[i as int]@ == goal[i as int]);
        assert(forall|j: int| 0 <= j < stack@.len() && j != i ==> #[trigger] stack@[j] == earlier[j]);
        i = i + 1;
    }
    assert(stack_view(stack@) =~= goal);
}

/// The cycle for which a runtime with this stack is unwound, if it is unwound,
/// where the cycle enters the stack at `key`.
pub fn find_unwound_for(stack: &Vec<ActiveQuery>, key: DatabaseKeyIndex) -> (cycle: Option<Cycle>)
    ensures
        cycle is Some <==> unwound_for(stack_view(stack@), key) is Some,
        cycle matches Some(cycle) ==> unwound_for(stack_view(stack@), key) == Some(cycle@),
{
    let first: usize = find_first_participant(stack, key);
    let ghost all = stack_view(stack@);
    let mut i: usize = stack.len();
    assert(all.take(i as int) =~= all);
    while i > first
        invariant
            all == stack_view(stack@),
            first <= i <= stack@.len(),
            first == first_participant(all, key, 0),
            unwound_for(all, key) == innermost_mark(all.take(i as int), first as nat),
        decreases i,
    {
        assert(all.take(i as int).last() == stack@[i - 1]@);
        assert(all.take(i as int).drop_last() =~= all.take(i - 1));
        match &stack[i - 1].cycle {
            Some(cycle) => {
                return Some(cycle.clone());
            },
            None => {},
        }
        i = i - 1;
    }
    None
}

} // verus!
