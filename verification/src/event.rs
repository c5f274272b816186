//! What the runtime tells the database, and what it asks of it.

use crate::cycle::{Cycle, CycleRecoveryStrategy};
use crate::key::{DatabaseKeyIndex, IngredientIndex};
use crate::runtime::RuntimeId;
use std::collections::HashSet;
use vstd::prelude::*;

verus! {

broadcast use vstd::std_specs::hash::group_hash_axioms;

/// Something that a runtime is about to do.
#[derive(Copy, Clone, Debug)]
pub struct Event {
    /// The runtime that is about to do it.
    pub runtime_id: RuntimeId,
    /// What it is about to do.
    pub kind: EventKind,
}

#[derive(Copy, Clone, Debug)]
pub enum EventKind {
    /// The runtime checks whether the current revision has been cancelled.
    WillCheckCancellation,
    /// The runtime blocks until `other_runtime_id` has computed `database_key`.
    WillBlockOn { other_runtime_id: RuntimeId, database_key: DatabaseKeyIndex },
}

/// Why the execution of the current query is given up although nothing is
/// wrong with the query itself.
#[derive(Copy, Clone, Debug, PartialEq, Eq, Structural)]
pub enum Cancelled {
    /// An input is about to be written, so results of this revision are of no
    /// use any more.
    PendingWrite,
    /// The query waited for a result whose computation panicked.
    PropagatedPanic,
}

/// A reason for which the stack has to be unwound instead of going on.
///
/// Whoever gets one must not go on with the query that it was executing.
#[derive(Debug)]
pub enum Unwind {
    /// Give up the current revision.
    Cancelled(Cancelled),
    /// A frame of this stack recovers from the cycle: unwind up to it.
    Cycle(Cycle),
    /// Nobody recovers from the cycle: panic with it.
    UnrecoveredCycle(Cycle),
}

/// An [`Unwind`] with its cycle as a sequence of participants.
pub enum UnwindView {
    Cancelled(Cancelled),
    Cycle(Seq<DatabaseKeyIndex>),
    UnrecoveredCycle(Seq<DatabaseKeyIndex>),
}

impl View for Unwind {
    type V = UnwindView;

    open spec fn view(&self) -> UnwindView {
        match self {
            Unwind::Cancelled(cancelled) => UnwindView::Cancelled(*cancelled),
            Unwind::Cycle(cycle) => UnwindView::Cycle(cycle@),
            Unwind::UnrecoveredCycle(cycle) => UnwindView::UnrecoveredCycle(cycle@),
        }
    }
}

/// The outcome of a step that may have to unwind, with the cycle of the
/// [`Unwind`] as a sequence of participants.
pub open spec fn outcome_view(outcome: Result<(), Unwind>) -> Result<(), UnwindView> {
    match outcome {
        Ok(()) => Ok(()),
        Err(unwind) => Err(unwind@),
    }
}

/// Which ingredients of a database recover from cycles.
#[derive(Debug)]
pub struct Ingredients {
    /// The numbers of the ingredients that recover from cycles.
    recovering: HashSet<u32>,
}

impl Default for Ingredients {
    fn default() -> (ingredients: Ingredients)
        ensures
            forall|index: IngredientIndex| #[trigger]
                ingredients.recovery_of(index) == CycleRecoveryStrategy::Panic,
    {
        Ingredients { recovering: HashSet::new() }
    }
}

impl Ingredients {
    /// What the ingredient `ingredient_index` wants done about a cycle that a
    /// query of it takes part in.
    pub closed spec fn recovery_of(&self, ingredient_index: IngredientIndex) ->
        CycleRecoveryStrategy {
        if self.recovering@.contains(ingredient_index.0) {
            CycleRecoveryStrategy::Fallback
        } else {
            CycleRecoveryStrategy::Panic
        }
    }

    /// Makes the queries of an ingredient recover from cycles.
    pub fn set_fallback(&mut self, ingredient_index: IngredientIndex)
        ensures
            forall|index: IngredientIndex| #[trigger]
                final(self).recovery_of(index) == (if index == ingredient_index {
                    CycleRecoveryStrategy::Fallback
                } else {
                    old(self).recovery_of(index)
                }),
    {
        self.recovering.insert(ingredient_index.0);
    }

    /// Looks up an ingredient and asks it for its recovery strategy.
    pub fn cycle_recovery_strategy(&self, ingredient_index: IngredientIndex) -> (strategy:
        CycleRecoveryStrategy)
        ensures
            strategy == self.recovery_of(ingredient_index),
    {
        if self.recovering.contains(&ingredient_index.0) {
            CycleRecoveryStrategy::Fallback
        } else {
            CycleRecoveryStrategy::Panic
        }
    }
}

/// A database, as far as the runtime needs to know it: its ingredients, and who
/// handles what it is told of.
pub struct Database<H> {
    /// The ingredients of the database.
    ingredients: Ingredients,
    /// Called with each event, at once.
    handler: H,
    /// The events that the handler has been called with, oldest first.
    told: Ghost<Seq<Event>>,
}

impl<H> Database<H> {
    /// The ingredients of the database.
    pub closed spec fn spec_ingredients(&self) -> Ingredients {
        self.ingredients
    }

    /// Who is called with each event.
    pub closed spec fn spec_handler(&self) -> H {
        self.handler
    }

    /// The events that the database has been told of, oldest first.
    pub closed spec fn told(&self) -> Seq<Event> {
        self.told@
    }

    /// A database that has not been told of anything yet.
    pub fn new(ingredients: Ingredients, handler: H) -> (db: Database<H>)
        ensures
            db.spec_ingredients() == ingredients,
            db.spec_handler() == handler,
            db.told() == Seq::<Event>::empty(),
    {
        Database { ingredients, handler, told: Ghost(Seq::empty()) }
    }

    /// The ingredients of the database.
    pub fn ingredients(&self) -> (ingredients: &Ingredients)
        ensures
            *ingredients == self.spec_ingredients(),
    {
        &self.ingredients
    }
}

impl<H: Fn(Event)> Database<H> {
    /// True if the handler takes every event.
    pub open spec fn takes_events(&self) -> bool {
        forall|event: Event| #[trigger] call_requires(self.spec_handler(), (event,))
    }

    /// True if this is the database `earlier` once it has been told of `events`
    /// too: its handler has been called with each of them.
    pub open spec fn told_since(&self, earlier: Database<H>, events: Seq<Event>) -> bool {
        &&& self.spec_ingredients() == earlier.spec_ingredients()
        &&& self.spec_handler() == earlier.spec_handler()
        &&& self.told() == earlier.told() + events
        &&& forall|i: int|
            0 <= i < events.len() ==> call_ensures(self.spec_handler(), (#[trigger] events[i],), ())
    }

    /// Tells the database of an event. It is handled before this returns.
    pub fn salsa_event(&mut self, event: Event)
        requires
            old(self).takes_events(),
        ensures
            final(self).told_since(*old(self), seq![event]),
    {
        assert(call_requires(self.spec_handler(), (event,)));
        (self.handler)(event);
        self.told = Ghost(self.told@.push(event));
        assert(self.told() =~= old(self).told() + seq![event]);
    }
}

} // verus!
