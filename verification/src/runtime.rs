//! The runtime: which queries are being executed, in which revision, and who
//! waits for whom.

use crate::cycle::{rotate_to_min, Cycle};
use crate::durability::Durability;
use crate::event::{outcome_view, Cancelled, Database, Event, EventKind, Unwind, UnwindView};
use crate::key::{DatabaseKeyIndex, DependencyIndex, IngredientIndex};
use crate::revision::Revision;
use crate::runtime::active_query::{
    stack_view, stack_wf, ActiveQuery, Disambiguator, EdgeKind, QueryView,
};
use crate::runtime::dependency_graph::DependencyGraph;
use crate::runtime::graph_view::{
    lemma_cycle_query_wf, lemma_cycle_trail, lemma_mark_hops_frame, lemma_resolve, GraphView, Hop,
    WaitView,
};
use crate::runtime::local_state::{ActiveQueryGuard, LocalState};
use crate::runtime::participants::{mark_participants, recovery_in};
use crate::runtime::runtime_view::{
    after_wait, lemma_entity_wf, lemma_output_wf, lemma_read_wf, lemma_untracked_read_wf,
    RuntimeView,
};
use crate::runtime::shared::{
    enter, graph_of, guarded, leave, lower, made_around, make_lock, visited, CancellationFlag,
    GraphLock,
};
use crossbeam::atomic::AtomicCell;
use std::sync::Arc;
use vstd::prelude::*;

pub mod active_query;
pub mod cycle_laws;
pub mod dependency_graph;
pub mod graph_laws;
pub mod graph_view;
pub mod laws;
pub mod local_state;
pub mod participants;
pub mod runtime_view;
pub mod shared;
pub mod steps;
pub mod waits;

verus! {

/// How a wait for another runtime ended.
#[derive(Debug)]
pub enum WaitResult {
    /// The query that was waited for has its result.
    Completed,
    /// The query that was waited for panicked.
    Panicked,
    /// The wait was part of a cycle from which the waiting runtime recovers.
    Cycle(Cycle),
}

impl View for WaitResult {
    type V = WaitView;

    open spec fn view(&self) -> WaitView {
        match self {
            WaitResult::Completed => WaitView::Completed,
            WaitResult::Panicked => WaitView::Panicked,
            WaitResult::Cycle(cycle) => WaitView::Cycle(cycle@),
        }
    }
}

impl Clone for WaitResult {
    fn clone(&self) -> (result: WaitResult)
        ensures
            result@ == self@,
    {
        match self {
            WaitResult::Completed => WaitResult::Completed,
            WaitResult::Panicked => WaitResult::Panicked,
            WaitResult::Cycle(cycle) => WaitResult::Cycle(cycle.clone()),
        }
    }
}

/// A unique identifier for a particular runtime.
#[derive(Copy, Clone, Debug, PartialEq, Eq, Hash, PartialOrd, Ord, Structural)]
pub struct RuntimeId {
    counter: usize,
}

impl RuntimeId {
    /// The number that tells this runtime from every other.
    pub closed spec fn spec_counter(self) -> usize {
        self.counter
    }

    /// The identifier with the given number.
    pub fn from_counter(counter: usize) -> (id: RuntimeId)
        ensures
            id.spec_counter() == counter,
    {
        RuntimeId { counter }
    }

    /// The number identifies the runtime: two identifiers are the same if and
    /// only if their numbers are.
    pub proof fn law_counter_identifies(self, other: RuntimeId)
        ensures
            self == other <==> self.spec_counter() == other.spec_counter(),
    {
    }
}

/// A value together with how durable it is and when it last changed.
#[derive(Copy, Clone, Debug)]
pub struct StampedValue<V> {
    pub value: V,
    pub durability: Durability,
    pub changed_at: Revision,
}

/// How durable something is and when it last changed.
pub type Stamp = StampedValue<()>;

/// The stamp with the given parts.
pub fn stamp(revision: Revision, durability: Durability) -> (stamp: Stamp)
    ensures
        stamp == (StampedValue { value: (), durability, changed_at: revision }),
{
    StampedValue { value: (), durability, changed_at: revision }
}

impl<V> StampedValue<V> {
    /// This value, with the stamp that covers `other` too: as durable as the
    /// less durable of the two, changed when the later of them changed.
    pub open spec fn spec_merge<U>(self, other: StampedValue<U>) -> StampedValue<V> {
        StampedValue {
            value: self.value,
            durability: self.durability.spec_min(other.durability),
            changed_at: self.changed_at.spec_max(other.changed_at),
        }
    }

    /// Makes the stamp of this value cover `other` too.
    pub fn merge_revision_info<U>(&mut self, other: &StampedValue<U>)
        ensures
            *final(self) == old(self).spec_merge(*other),
    {
        self.durability = self.durability.min(other.durability);
        self.changed_at = self.changed_at.max(other.changed_at);
    }
}

/// The state of the execution of queries on one thread, and what this thread
/// shares with others.
pub struct Runtime {
    /// Our unique runtime id.
    id: RuntimeId,
    /// The queries that this runtime is executing.
    local_state: LocalState,
    /// The number of the next runtime (starts at 1).
    next_id: usize,
    /// The empty list of edges, to be cloned.
    empty_dependencies: Arc<[(EdgeKind, DependencyIndex)]>,
    /// Set when the current revision has been cancelled, because an input is
    /// about to be changed. Cleared once it has been changed.
    revision_canceled: CancellationFlag,
    /// For each durability, from the lowest up, the revision in which something
    /// of it may have changed last. The first one is the current revision.
    revisions: Vec<Revision>,
    /// Which runtimes are blocked on one another, waiting for queries to end.
    dependency_graph: Arc<GraphLock>,
}

impl View for Runtime {
    type V = RuntimeView;

    closed spec fn view(&self) -> RuntimeView {
        RuntimeView {
            id: self.id,
            next_id: self.next_id,
            stack: self.local_state@,
            empty_dependencies: self.empty_dependencies@,
            revisions: self.revisions@,
            flag: self.revision_canceled.cell(),
            cleared: self.revision_canceled.cleared(),
            lock: *self.dependency_graph,
        }
    }
}

/// `Arc::from` moves the items of a vector into a shared slice.
#[verifier::external_body]
fn shared_slice(items: Vec<(EdgeKind, DependencyIndex)>) -> (slice: Arc<
    [(EdgeKind, DependencyIndex)],
>)
    ensures
        slice@ == items@,
{
    Arc::from(items)
}

impl Default for Runtime {
    /// A runtime in the first revision that executes nothing. Its flag is clear
    /// and nobody waits.
    ///
    /// Both can change as soon as they are shared. So what is stated is what the
    /// flag and the lock are made with.
    fn default() -> (runtime: Runtime)
        ensures
            runtime@.id.spec_counter() == 0,
            runtime@.next_id == 1,
            runtime@.stack == Some(Seq::<QueryView>::empty()),
            runtime@.empty_dependencies == Seq::<(EdgeKind, DependencyIndex)>::empty(),
            runtime@.revisions == Seq::new(
                Durability::LEN as nat,
                |i: int| Revision::spec_start(),
            ),
            call_ensures(AtomicCell::<bool>::new, (false,), runtime@.flag),
            runtime@.cleared == 0,
            made_around(runtime@.lock, GraphView::empty()),
            runtime@.wf(),
    {
        let mut revisions: Vec<Revision> = Vec::new();
        let mut i: usize = 0;
        while i < Durability::LEN
            invariant
                i <= Durability::LEN,
                revisions@ == Seq::new(i as nat, |j: int| Revision::spec_start()),
            decreases Durability::LEN - i,
        {
            revisions.push(Revision::start());
            i = i + 1;
            assert(revisions@ =~= Seq::new(i as nat, |j: int| Revision::spec_start()));
        }
        Runtime {
            id: RuntimeId { counter: 0 },
            local_state: LocalState::default(),
            next_id: 1,
            empty_dependencies: shared_slice(Vec::new()),
            revision_canceled: CancellationFlag::new(),
            revisions,
            dependency_graph: Arc::new(make_lock(DependencyGraph::default())),
        }
    }
}

impl Runtime {
    /// Our unique runtime id.
    pub fn id(&self) -> (id: RuntimeId)
        ensures
            id == self@.id,
    {
        self.id
    }

    /// The current revision.
    pub fn current_revision(&self) -> (current: Revision)
        requires
            self@.wf(),
        ensures
            current == self@.current(),
    {
        self.revisions[0]
    }

    /// Returns the index of the active query along with its *current* durability/changed-at
    /// information. As the query continues to execute, naturally, that information may change.
    pub fn active_query(&self) -> (active: Option<(DatabaseKeyIndex, StampedValue<()>)>)
        requires
            self@.stack is Some,
        ensures
            active == (if self@.is_executing() {
                Some((self@.top().key, self@.top().stamp()))
            } else {
                None
            }),
    {
        self.local_state.active_query()
    }

    /// The empty list of edges, shared.
    pub fn empty_dependencies(&self) -> (empty: Arc<[(EdgeKind, DependencyIndex)]>)
        ensures
            empty@ == self@.empty_dependencies,
            self@.wf() ==> empty@.len() == 0,
    {
        self.empty_dependencies.clone()
    }

    /// Executes `op` but ignores its effect on the query dependencies.
    ///
    /// # Danger: intended for debugging only
    ///
    /// This operation is intended for **debugging only**. Misuse will cause
    /// incorrect results. The expectation is that the value produced will be
    /// logged or printed out. **It should not affect the result or other
    /// outputs (such as accumulators) from the current query.**
    pub fn debug_probe<R, F: FnOnce(&mut Runtime) -> R>(&mut self, op: F) -> (produced: R)
        requires
            old(self)@.stack is Some,
            forall|runtime: &mut Runtime|
                *runtime == *old(self) ==> #[trigger] call_requires(op, (runtime,)),
            forall|runtime: &mut Runtime, produced: R|
                *runtime == *old(self) && #[trigger] call_ensures(op, (runtime,), produced) ==> {
                    &&& final(runtime)@.stack is Some
                    &&& final(runtime)@.stack->0.len() == old(self)@.stack->0.len()
                },
        ensures
            exists|runtime: &mut Runtime|
                *runtime == *old(self) && #[trigger] call_ensures(op, (runtime,), produced)
                    && final(self)@ == (if old(self)@.is_executing() {
                    final(runtime)@.with_top(
                        final(runtime)@.top().with_dependencies_of(old(self)@.top()),
                    )
                } else {
                    final(runtime)@
                }) && (old(self)@.wf() && final(runtime)@.wf() ==> final(self)@.wf()),
            old(self)@.is_executing() ==> {
                &&& final(self)@.top().stamp() == old(self)@.top().stamp()
                &&& final(self)@.top().edges == old(self)@.top().edges
                &&& final(self)@.top().untracked_read == old(self)@.top().untracked_read
            },
    {
        let saved = self.local_state.save_query_state();
        let produced = op(self);
        if let Some(saved) = saved {
            assert(old(self)@.top() == old(self)@.stack->0[old(self)@.stack->0.len() - 1]);
            self.local_state.restore_query_state(saved);
        }
        produced
    }

    /// Records that the active query, if there is one, reads `key_index`.
    pub fn report_tracked_read(
        &mut self,
        key_index: DependencyIndex,
        durability: Durability,
        changed_at: Revision,
    )
        requires
            old(self)@.stack is Some,
        ensures
            final(self)@ == old(self)@.after_tracked_read(key_index, durability, changed_at),
            old(self)@.wf() ==> final(self)@.wf(),
    {
        proof {
            if self@.wf() {
                lemma_read_wf(self@, key_index, durability, changed_at);
            }
        }
        self.local_state.report_tracked_read(key_index, durability, changed_at)
    }

    /// Reports that the query depends on some state unknown to the runtime.
    ///
    /// Queries which report untracked reads will be re-executed in the next
    /// revision.
    pub fn report_untracked_read(&mut self)
        requires
            old(self)@.wf(),
            old(self)@.stack is Some,
        ensures
            final(self)@ == old(self)@.after_untracked_read(),
            final(self)@.wf(),
    {
        let current = self.current_revision();
        proof {
            lemma_untracked_read_wf(self@);
        }
        self.local_state.report_untracked_read(current);
    }

    /// Reports that an input with durability `durability` changed.
    /// This will update the 'last changed at' values for every durability
    /// less than or equal to `durability` to the current revision.
    pub fn report_tracked_write(&mut self, durability: Durability)
        requires
            old(self)@.wf(),
        ensures
            final(self)@ == old(self)@.after_write(durability),
            final(self)@.wf(),
    {
        let new_revision = self.current_revision();
        let last: usize = durability.index();
        let ghost before = self@;
        let mut i: usize = 1;
        while i <= last
            invariant
                1 <= i <= last + 1,
                last == durability.spec_index(),
                last < Durability::LEN,
                before.wf(),
                new_revision == before.current(),
                self@ == (RuntimeView { revisions: self@.revisions, ..before }),
                self@.revisions.len() == before.revisions.len(),
                forall|j: int| 0 <= j < i ==> #[trigger] self@.revisions[j] == new_revision,
                forall|j: int|
                    i <= j < before.revisions.len() ==> #[trigger] self@.revisions[j]
                        == before.revisions[j],
            decreases last + 1 - i,
        {
            self.revisions.set(i, new_revision);
            i = i + 1;
        }
        assert(self@ =~= before.after_write(durability));
    }

    /// Adds `key` to the list of output created by the current query
    /// (if not already present).
    pub fn add_output(&mut self, key: DependencyIndex)
        requires
            old(self)@.stack is Some,
        ensures
            final(self)@ == old(self)@.after_output(key),
            old(self)@.wf() ==> final(self)@.wf(),
    {
        proof {
            if self@.wf() {
                lemma_output_wf(self@, key);
            }
        }
        self.local_state.add_output(key);
    }

    /// Check whether `entity` is contained the list of outputs written by the current query.
    pub fn is_output_of_active_query(&self, entity: DependencyIndex) -> (written: bool)
        requires
            self@.stack is Some,
        ensures
            written == (self@.is_executing() && self@.top().has_output(entity)),
    {
        self.local_state.is_output(entity)
    }

    /// Called when the active queries creates an index from the
    /// entity table with the index `entity_index`. Has the following effects:
    ///
    /// * Add a query read on the table `entity_index`
    /// * Identify a unique disambiguator for the hash within the current query,
    ///   adding the hash to the current query's disambiguator table.
    /// * Returns a tuple of:
    ///   * the id of the current query
    ///   * the current dependencies (durability, changed_at) of current query
    ///   * the disambiguator index
    pub fn disambiguate_entity(
        &mut self,
        entity_index: IngredientIndex,
        reset_at: Revision,
        data_hash: u64,
    ) -> (disambiguated: (DatabaseKeyIndex, StampedValue<()>, Disambiguator))
        requires
            old(self)@.is_executing(),
            old(self)@.top().next_disambiguator(data_hash).0 < u32::MAX,
        ensures
            disambiguated.0 == old(self)@.top().key,
            disambiguated.1 == final(self)@.top().stamp(),
            disambiguated.2 == old(self)@.top().next_disambiguator(data_hash),
            final(self)@ == old(self)@.after_entity(entity_index, reset_at, data_hash),
            old(self)@.wf() ==> final(self)@.wf(),
    {
        proof {
            if self@.wf() {
                lemma_entity_wf(self@, entity_index, reset_at, data_hash);
            }
        }
        self.report_tracked_read(
            DependencyIndex::for_table(entity_index),
            Durability::MAX,
            reset_at,
        );
        self.local_state.disambiguate(data_hash)
    }

    /// The revision in which values with durability `d` may have last
    /// changed.  For D0, this is just the current revision. But for
    /// higher levels of durability, this value may lag behind the
    /// current revision. If we encounter a value of durability Di,
    /// then, we can check this function to get a "bound" on when the
    /// value may have changed, which allows us to skip walking its
    /// dependencies.
    pub fn last_changed_revision(&self, d: Durability) -> (last: Revision)
        requires
            self@.wf(),
        ensures
            last == self@.last_changed(d),
            last.since_start <= self@.current().since_start,
            d == Durability::Low ==> last == self@.current(),
    {
        self.revisions[d.index()]
    }

    /// What has to be done about the current revision, given whether it has been
    /// cancelled: nothing, or to unwind.
    pub fn check_cancellation<H: Fn(Event)>(
        &mut self,
        db: &mut Database<H>,
        cancelled: bool,
    ) -> (outcome: Result<(), Unwind>)
        requires
            old(self)@.wf(),
            old(self)@.stack is Some,
            old(db).takes_events(),
        ensures
            outcome_view(outcome) == (if cancelled {
                Err(UnwindView::Cancelled(Cancelled::PendingWrite))
            } else {
                Ok(())
            }),
            final(self)@ == (if cancelled {
                old(self)@.after_untracked_read()
            } else {
                old(self)@
            }),
            final(self)@.cleared == old(self)@.cleared,
            final(self)@.flag == old(self)@.flag,
            final(self)@.wf(),
            final(db).told_since(
                *old(db),
                if cancelled {
                    seq![old(self)@.will_check_cancellation()]
                } else {
                    seq![]
                },
            ),
    {
        if cancelled {
            db.salsa_event(
                Event { runtime_id: self.id(), kind: EventKind::WillCheckCancellation },
            );
            return Err(self.unwind_cancelled());
        }
        assert(db.told() =~= db.told() + seq![]);
        Ok(())
    }

    /// Says that the stack has to be unwound if the current revision is cancelled.
    ///
    /// This method can be called by query implementations that perform
    /// potentially expensive computations, in order to speed up propagation of
    /// cancellation.
    ///
    /// Cancellation will automatically be triggered on any query invocation.
    ///
    /// The database is told first, so a handler that cancels the revision makes
    /// this very check unwind. What the flag holds is up to all threads. What a
    /// load of it gave decides. The check does not lower the flag: the revision
    /// stays cancelled until the next one begins.
    pub fn unwind_if_revision_cancelled<H: Fn(Event)>(&mut self, db: &mut Database<H>) -> (outcome:
        Result<(), Unwind>)
        requires
            old(self)@.wf(),
            old(self)@.stack is Some,
            old(db).takes_events(),
        ensures
            outcome matches Ok(_) ==> {
                &&& call_ensures(AtomicCell::<bool>::load, (&old(self)@.flag,), false)
                &&& final(self)@ == old(self)@
                &&& final(db).told_since(*old(db), seq![old(self)@.will_check_cancellation()])
            },
            outcome matches Err(unwind) ==> {
                &&& call_ensures(AtomicCell::<bool>::load, (&old(self)@.flag,), true)
                &&& unwind@ == UnwindView::Cancelled(Cancelled::PendingWrite)
                &&& final(self)@ == old(self)@.after_untracked_read()
                &&& final(db).told_since(
                    *old(db),
                    seq![
                        old(self)@.will_check_cancellation(),
                        old(self)@.will_check_cancellation(),
                    ],
                )
            },
            final(self)@.cleared == old(self)@.cleared,
            final(self)@.flag == old(self)@.flag,
            final(self)@.wf(),
    {
        db.salsa_event(Event { runtime_id: self.id(), kind: EventKind::WillCheckCancellation });
        let cancelled: bool = self.revision_canceled.is_raised();
        let outcome = self.check_cancellation(db, cancelled);
        proof {
            let event = old(self)@.will_check_cancellation();
            assert(old(db).told() + seq![event] + seq![event] =~= old(db).told() + seq![
                event,
                event,
            ]);
            assert(seq![event][0] == event);
        }
        outcome
    }

    /// Records that the active query did not run to its end, and gives the
    /// reason for which it is to be unwound.
    pub fn unwind_cancelled(&mut self) -> (unwind: Unwind)
        requires
            old(self)@.wf(),
            old(self)@.stack is Some,
        ensures
            unwind@ == UnwindView::Cancelled(Cancelled::PendingWrite),
            final(self)@ == old(self)@.after_untracked_read(),
            final(self)@.cleared == old(self)@.cleared,
            final(self)@.flag == old(self)@.flag,
            final(self)@.wf(),
    {
        self.report_untracked_read();
        Unwind::Cancelled(Cancelled::PendingWrite)
    }

    /// Cancels the current revision, for all threads.
    ///
    /// What the flag holds afterwards is up to all threads that share it. What is
    /// stated is that `true` has been stored into it.
    pub fn set_cancellation_flag(&self)
        ensures
            call_ensures(AtomicCell::<bool>::store, (&self.flag(), true), ()),
    {
        self.revision_canceled.raise()
    }

    /// Increments the "current revision" counter and clears
    /// the cancellation flag.
    ///
    /// This should only be done by the storage when the state is "quiescent".
    /// Other threads can set the flag at any time. What is stated is that `false`
    /// has been stored into it.
    pub fn new_revision(&mut self) -> (new: Revision)
        requires
            old(self)@.wf(),
            old(self)@.current().since_start < usize::MAX,
        ensures
            new.since_start == old(self)@.current().since_start + 1,
            final(self)@ == old(self)@.after_new_revision(),
            call_ensures(AtomicCell::<bool>::store, (&old(self)@.flag, false), ()),
            final(self)@.wf(),
    {
        let r_old = self.current_revision();
        let r_new = r_old.next();
        self.revisions.set(0, r_new);
        lower(&mut self.revision_canceled);
        assert(self@ =~= old(self)@.after_new_revision());
        r_new
    }

    /// Starts the query `database_key_index` inside the active one.
    pub fn push_query(&mut self, database_key_index: DatabaseKeyIndex) -> (guard: ActiveQueryGuard)
        requires
            old(self)@.stack is Some,
        ensures
            final(self)@ == old(self)@.after_push(database_key_index),
            guard.key() == database_key_index,
            guard.depth() == old(self)@.stack->0.len() + 1,
            old(self)@.wf() ==> final(self)@.wf(),
    {
        self.local_state.push_query(database_key_index)
    }

    /// Ends the query that `guard` stands for, which must be the active one.
    pub fn pop_query(&mut self, guard: ActiveQueryGuard) -> (query: ActiveQuery)
        requires
            old(self)@.is_executing(),
            old(self)@.stack->0.len() == guard.depth(),
            old(self)@.top().key == guard.key(),
        ensures
            query@ == old(self)@.top(),
            final(self)@ == old(self)@.after_pop(),
            old(self)@.wf() ==> final(self)@.wf() && query@.wf(),
    {
        self.local_state.pop_query(guard)
    }

    /// Handles a cycle in the dependency graph that was detected when the
    /// current thread tried to block on `database_key_index` which is being
    /// executed by `to_id`. If this function succeeds, then `to_id` no longer
    /// depends on the current thread, and so we should continue executing
    /// as normal. Otherwise, the stack is to be unwound with the `Cycle`, which
    /// is expected to be caught by some frame on our stack. This occurs either
    /// if there is a frame on our stack with cycle recovery (possibly the top
    /// one!) or if there is no cycle recovery at all.
    pub fn unblock_cycle_and_maybe_throw<H>(
        &mut self,
        db: &Database<H>,
        dg: &mut DependencyGraph,
        database_key_index: DatabaseKeyIndex,
        to_id: RuntimeId,
    ) -> (outcome: Result<(), Unwind>)
        requires
            old(self)@.stack is Some,
            old(dg)@.is_running(old(self)@.id),
            old(dg)@.depends_on(to_id, old(self)@.id),
            old(dg)@.resolvable(
                old(self)@.id,
                old(self)@.stack->0,
                database_key_index,
                to_id,
                recovery_in(db.spec_ingredients()),
            ),
        ensures
            ({
                let resolved = old(dg)@.resolve(
                    old(self)@.id,
                    old(self)@.stack->0,
                    database_key_index,
                    to_id,
                    recovery_in(db.spec_ingredients()),
                );
                &&& outcome_view(outcome) == resolved.outcome
                &&& final(dg)@ == resolved.graph
                &&& final(self)@ == old(self)@.with_stack(resolved.stack)
            }),
            outcome is Ok ==> !final(dg)@.depends_on(to_id, old(self)@.id),
            old(self)@.wf() ==> final(self)@.wf(),
    {
        let ghost graph = dg@;
        let ghost own = self@.stack->0;
        let ghost recovery = recovery_in(db.spec_ingredients());
        let from_id: RuntimeId = self.id();
        let mut from_stack: Vec<ActiveQuery> = self.local_state.take_query_stack();

        // Identify the cycle participants, and gather what they depend on:
        proof {
            use_type_invariant(&*dg);
            lemma_cycle_trail(graph, database_key_index, to_id, from_id);
            lemma_resolve(graph, from_id, own, database_key_index, to_id, recovery);
        }
        let hops: Vec<Hop> = dg.cycle_trail(database_key_index, to_id, from_id);
        let (mut cycle_query, keys) = dg.collect_cycle(&hops, &from_stack, database_key_index);

        // We want to give the participants in a deterministic order
        // (at least for this execution, not necessarily across executions),
        // no matter where it started on the stack. Find the minimum
        // key and rotate it to the front.
        let cycle: Cycle = Cycle::new(Arc::new(rotate_to_min(keys)));

        // We can remove the cycle participants from the list of dependencies;
        // they are a strongly connected component (SCC) and we only care about
        // dependencies to things outside the SCC that control whether it will
        // form again.
        cycle_query.remove_cycle_participants(&cycle);

        // Mark each cycle participant that has recovery set, along with
        // any frames that come after them on the same thread. Those frames
        // are going to be unwound so that fallback can occur.
        proof {
            lemma_cycle_query_wf(graph, hops@, own, database_key_index);
        }
        dg.mark_cycle(&hops, db.ingredients(), &cycle_query, &cycle);
        let last: usize = hops.len() - 1;
        let (_, last_key) = hops[last];
        mark_participants(&mut from_stack, last_key, db.ingredients(), &cycle_query, &cycle);
        proof {
            lemma_mark_hops_frame(
                graph,
                hops@,
                recovery,
                cycle_query@,
                cycle@,
                (hops@.len() - 1) as nat,
            );
        }

        // Unblock every thread that has cycle recovery. They will throw the
        // cycle, which will be caught by the frame that has cycle recovery so
        // that it can execute that recovery.
        let (me_recovered, others_recovered) = dg.maybe_unblock_runtimes_in_cycle(
            &hops,
            &from_stack,
        );
        self.local_state.restore_query_stack(from_stack);

        if me_recovered {
            // If the current thread has recovery, we want to throw
            // so that it can begin.
            Err(Unwind::Cycle(cycle))
        } else if others_recovered {
            // If other threads have recovery but we didn't: return and we will block on them.
            Ok(())
        } else {
            // if nobody has recover, then we panic
            Err(Unwind::UnrecoveredCycle(cycle))
        }
    }

    /// Makes the current thread block on `database_key`, which `other_id`
    /// executes, or says how it has to unwind because of a cycle. The graph is
    /// given; the thread still has to wait until it is unblocked.
    pub fn block_on<H: Fn(Event)>(
        &mut self,
        db: &mut Database<H>,
        dg: &mut DependencyGraph,
        database_key: DatabaseKeyIndex,
        other_id: RuntimeId,
    ) -> (outcome: Result<(), Unwind>)
        requires
            old(self)@.wf(),
            old(db).takes_events(),
            old(self)@.can_block(
                old(dg)@,
                database_key,
                other_id,
                recovery_in(old(db).spec_ingredients()),
            ),
        ensures
            ({
                let step = old(self)@.block_step(
                    old(dg)@,
                    database_key,
                    other_id,
                    recovery_in(old(db).spec_ingredients()),
                );
                &&& outcome_view(outcome) == step.outcome
                &&& final(self)@ == step.runtime
                &&& final(dg)@ == step.graph
            }),
            final(self)@.wf(),
            final(db).told_since(
                *old(db),
                if outcome is Ok {
                    seq![old(self)@.will_block_on(database_key, other_id)]
                } else {
                    seq![]
                },
            ),
    {
        let id: RuntimeId = self.id();
        if dg.depends_on(other_id, id) {
            proof {
                lemma_resolve(
                    dg@,
                    id,
                    self@.stack->0,
                    database_key,
                    other_id,
                    recovery_in(db.spec_ingredients()),
                );
            }
            match self.unblock_cycle_and_maybe_throw(&*db, dg, database_key, other_id) {
                Ok(()) => {
                    // Cycle recovery has unblocked the cycle, so we can continue.
                    assert(!dg@.depends_on(other_id, id));
                },
                Err(unwind) => {
                    assert(db.told() =~= db.told() + seq![]);
                    return Err(unwind);
                },
            }
        }
        db.salsa_event(
            Event {
                runtime_id: id,
                kind: EventKind::WillBlockOn { other_runtime_id: other_id, database_key },
            },
        );
        let stack: Vec<ActiveQuery> = self.local_state.take_query_stack();
        dg.add_edge(id, database_key, other_id, stack);
        Ok(())
    }

    /// True if the current thread can try to block, with the given graph.
    pub fn can_block_on<H>(
        &self,
        db: &Database<H>,
        dg: &DependencyGraph,
        database_key: DatabaseKeyIndex,
        other_id: RuntimeId,
    ) -> (can_block: bool)
        requires
            self@.stack is Some,
        ensures
            can_block == self@.can_block(
                dg@,
                database_key,
                other_id,
                recovery_in(db.spec_ingredients()),
            ),
    {
        let id: RuntimeId = self.id();
        if !dg.is_running(id) {
            return false;
        }
        if !dg.depends_on(other_id, id) {
            return true;
        }
        let stack: &Vec<ActiveQuery> = self.local_state.query_stack();
        dg.is_resolvable(id, stack, database_key, other_id, db.ingredients())
    }

    /// The queries that would take part in a cycle if the current thread blocked
    /// on `database_key`, which `other_id` executes; `None` if that closes no
    /// cycle. Theirs are the ingredients whose recovery strategies count.
    ///
    /// Which graph is found behind the lock is up to the other threads. It is left
    /// as it is.
    pub fn cycle_participants(&self, database_key: DatabaseKeyIndex, other_id: RuntimeId) -> (keys:
        Option<Vec<DatabaseKeyIndex>>)
        requires
            self@.stack is Some,
        ensures
            exists|found: GraphView, left: GraphView| #[trigger]
                visited(self@.lock, found, left) && found.wf() && left == found && match keys {
                    Some(keys) => {
                        let hops = found.cycle_trail(database_key, other_id, self@.id);
                        &&& found.depends_on(other_id, self@.id)
                        &&& keys@ == found.participants(
                            hops,
                            self@.stack->0,
                            hops.len(),
                        ).map_values(|query: QueryView| query.key)
                    },
                    None => !found.depends_on(other_id, self@.id),
                },
    {
        let mut guard = enter(&self.dependency_graph);
        let ghost taken = guard;
        let dg: &mut DependencyGraph = graph_of(&mut guard);
        proof {
            use_type_invariant(&*dg);
        }
        let keys = if dg.depends_on(other_id, self.id) {
            proof {
                lemma_cycle_trail(dg@, database_key, other_id, self.id);
            }
            let hops: Vec<Hop> = dg.cycle_trail(database_key, other_id, self.id);
            let stack: &Vec<ActiveQuery> = self.local_state.query_stack();
            let (_, keys) = dg.collect_cycle(&hops, stack, database_key);
            Some(keys)
        } else {
            None
        };
        let ghost done = guard;
        leave(guard);
        assert(visited(self@.lock, guarded(taken)@, guarded(done)@));
        keys
    }

    /// Registers that the current thread waits until `other_id` completes
    /// executing `database_key`, or says how it has to unwind because of a
    /// cycle. Once registered, the thread has to wait until [`Runtime::resume`]
    /// tells it how to go on.
    ///
    /// `_query_mutex_guard` is the guard for the current query's state;
    /// it will be dropped after we have successfully registered the
    /// dependency.
    ///
    /// # Cycle handling
    ///
    /// If the thread `other_id` already depends on the current thread,
    /// and hence there is a cycle in the query graph, then the current thread
    /// may have to unwind instead. The method of unwinding depends on the
    /// recovery strategies of the cycle participants:
    ///
    /// * [`Unwind::UnrecoveredCycle`]: nobody recovers; panic with the cycle.
    /// * [`Unwind::Cycle`]: a query on our stack recovers; unwind up to it.
    ///
    /// `None` means that the graph does not fit the current thread: the thread
    /// counts as blocked already, or the cycle has no participants or overlaps
    /// one that is still being unwound. Nothing has been changed then.
    ///
    /// Which graph is found behind the lock is up to the other threads.
    pub fn block_on_or_unwind<QueryMutexGuard, H: Fn(Event)>(
        &mut self,
        db: &mut Database<H>,
        database_key: DatabaseKeyIndex,
        other_id: RuntimeId,
        _query_mutex_guard: QueryMutexGuard,
    ) -> (outcome: Option<Result<(), Unwind>>)
        requires
            old(self)@.wf(),
            old(self)@.stack is Some,
            old(db).takes_events(),
        ensures
            exists|found: GraphView, left: GraphView| #[trigger]
                visited(old(self)@.lock, found, left) && found.wf() && match outcome {
                    Some(outcome) => {
                        let recovery = recovery_in(old(db).spec_ingredients());
                        let step = old(self)@.block_step(found, database_key, other_id, recovery);
                        &&& old(self)@.can_block(found, database_key, other_id, recovery)
                        &&& outcome_view(outcome) == step.outcome
                        &&& final(self)@ == step.runtime
                        &&& left == step.graph
                    },
                    None => {
                        &&& !old(self)@.can_block(
                            found,
                            database_key,
                            other_id,
                            recovery_in(old(db).spec_ingredients()),
                        )
                        &&& final(self)@ == old(self)@
                        &&& left == found
                    },
                },
            final(self)@.wf(),
            final(db).told_since(
                *old(db),
                if outcome is Some && outcome->0 is Ok {
                    seq![old(self)@.will_block_on(database_key, other_id)]
                } else {
                    seq![]
                },
            ),
    {
        let lock = self.dependency_graph.clone();
        let mut guard = enter(&lock);
        let ghost taken = guard;
        let dg: &mut DependencyGraph = graph_of(&mut guard);
        proof {
            use_type_invariant(&*dg);
        }
        let outcome = if self.can_block_on(&*db, &*dg, database_key, other_id) {
            Some(self.block_on(db, dg, database_key, other_id))
        } else {
            assert(db.told() =~= db.told() + seq![]);
            None
        };
        let ghost done = guard;
        leave(guard);
        assert(visited(old(self)@.lock, guarded(taken)@, guarded(done)@));
        outcome
    }

    /// Goes on after a wait: puts the stack back, and says whether the thread
    /// has to unwind.
    ///
    /// # Propagating panics
    ///
    /// If the thread that was waited for panicked, then our thread is considered
    /// cancelled. The assumption is that the panic will be detected by the
    /// other thread and responded to appropriately.
    pub fn end_wait(&mut self, stack: Vec<ActiveQuery>, result: WaitResult) -> (outcome: Result<
        (),
        Unwind,
    >)
        requires
            old(self)@.stack is None,
        ensures
            outcome_view(outcome) == after_wait(result@),
            final(self)@ == old(self)@.with_stack(stack_view(stack@)),
            old(self)@.wf() && stack_wf(stack_view(stack@)) ==> final(self)@.wf(),
    {
        self.local_state.restore_query_stack(stack);
        match result {
            WaitResult::Completed => Ok(()),
            WaitResult::Panicked => Err(Unwind::Cancelled(Cancelled::PropagatedPanic)),
            WaitResult::Cycle(cycle) => Err(Unwind::Cycle(cycle)),
        }
    }

    /// Goes on after a wait that [`Runtime::block_on_or_unwind`] registered, if
    /// the current thread has been unblocked. `None` means that it has not; it
    /// has to go on waiting.
    ///
    /// Which graph is found behind the lock is up to the other threads.
    pub fn resume(&mut self) -> (outcome: Option<Result<(), Unwind>>)
        requires
            old(self)@.stack is None,
        ensures
            exists|found: GraphView, left: GraphView| #[trigger]
                visited(old(self)@.lock, found, left) && found.wf() && left
                    == found.without_result(old(self)@.id) && match outcome {
                    Some(outcome) => {
                        &&& found.results.dom().contains(old(self)@.id)
                        &&& outcome_view(outcome) == after_wait(found.results[old(self)@.id].1)
                        &&& final(self)@ == old(self)@.with_stack(found.results[old(self)@.id].0)
                    },
                    None => {
                        &&& !found.results.dom().contains(old(self)@.id)
                        &&& final(self)@ == old(self)@
                    },
                },
            old(self)@.wf() ==> final(self)@.wf(),
    {
        let lock = self.dependency_graph.clone();
        let mut guard = enter(&lock);
        let ghost taken = guard;
        let dg: &mut DependencyGraph = graph_of(&mut guard);
        proof {
            use_type_invariant(&*dg);
        }
        let ended = dg.take_wait_result(self.id);
        let ghost done = guard;
        leave(guard);
        assert(visited(old(self)@.lock, guarded(taken)@, guarded(done)@));
        match ended {
            Some((stack, result)) => Some(self.end_wait(stack, result)),
            None => None,
        }
    }

    /// Invoked when this runtime completed computing `database_key` with
    /// the given result `wait_result` (which tells if computing `database_key`
    /// panicked and could not complete).
    /// This function unblocks any dependent queries and allows them
    /// to continue executing. It gives the runtimes that can resume, each once.
    ///
    /// Which graph is found behind the lock is up to the other threads.
    pub fn unblock_queries_blocked_on(
        &self,
        database_key: DatabaseKeyIndex,
        wait_result: WaitResult,
    ) -> (unblocked: Vec<RuntimeId>)
        ensures
            exists|found: GraphView, left: GraphView| #[trigger]
                visited(self@.lock, found, left) && found.wf() && left == found.unblock_all(
                    database_key,
                    wait_result@,
                ) && unblocked@.to_set() == found.blocked_on(database_key),
            unblocked@.no_duplicates(),
    {
        let mut guard = enter(&self.dependency_graph);
        let ghost taken = guard;
        let dg: &mut DependencyGraph = graph_of(&mut guard);
        proof {
            use_type_invariant(&*dg);
        }
        let unblocked = dg.unblock_runtimes_blocked_on(database_key, wait_result);
        let ghost done = guard;
        leave(guard);
        assert(visited(self@.lock, guarded(taken)@, guarded(done)@));
        unblocked
    }

    /// True while the current thread is blocked: it has no stack until it
    /// resumes.
    pub fn is_blocked(&self) -> (blocked: bool)
        ensures
            blocked == (self@.stack is None),
    {
        self.local_state.is_taken()
    }

    /// The number of the next runtime.
    pub fn next_id(&self) -> (next: usize)
        ensures
            next == self@.next_id,
    {
        self.next_id
    }

    /// For each durability, from the lowest up, the revision in which something
    /// of it may have changed last.
    pub fn revisions(&self) -> (revisions: &Vec<Revision>)
        ensures
            revisions@ == self@.revisions,
    {
        &self.revisions
    }

    /// The cell of the cancellation flag.
    pub open spec fn flag(&self) -> AtomicCell<bool> {
        self@.flag
    }

    /// The cell of the cancellation flag, shared.
    pub fn revision_canceled(&self) -> (flag: Arc<AtomicCell<bool>>)
        ensures
            *flag == self.flag(),
    {
        self.revision_canceled.share()
    }

    /// The lock on the dependency graph.
    pub open spec fn graph_lock(&self) -> GraphLock {
        self@.lock
    }

    /// The lock on the dependency graph. It can be shown, but not taken.
    pub fn dependency_graph(&self) -> (lock: &GraphLock)
        ensures
            *lock == self.graph_lock(),
    {
        &self.dependency_graph
    }
}

} // verus!
