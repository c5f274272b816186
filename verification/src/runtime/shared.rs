//! What runtimes on several threads share: the cancellation flag and the lock
//! on the dependency graph.
//!
//! Both change behind shared references, at any time and from any thread. So
//! nothing is said here of what a cell or a lock holds when nobody looks: a
//! load gives whatever is there at that moment, and so does taking the lock.
//! What was stored into the cell, and what a load gave, can be stated
//! nevertheless, as a statement about a call: `call_ensures(f, args, result)`
//! says that `f` can give `result` when it is called on `args`, and of the
//! functions here this is known only from a call that was made and gave it.
//! Likewise for the lock: while it is held, nobody else can reach the graph, so
//! which graph was found when it was taken, and which one was there when it was
//! let go of, can be stated.

use crate::runtime::dependency_graph::DependencyGraph;
use crate::runtime::graph_view::GraphView;
use crossbeam::atomic::AtomicCell;
use parking_lot::{Mutex, MutexGuard};
use std::sync::Arc;
use vstd::prelude::*;

verus! {

/// `crossbeam::atomic::AtomicCell`: a place in memory that several threads read
/// and write.
#[verifier::external_type_specification]
#[verifier::external_body]
#[verifier::reject_recursive_types(T)]
pub struct ExAtomicCell<T>(AtomicCell<T>);

/// `AtomicCell::new` makes a cell that holds `val`.
///
/// That a load gives `val` is left unsaid: another thread may store in between.
pub assume_specification<T>[ AtomicCell::<T>::new ](val: T) -> AtomicCell<T>;

/// `AtomicCell::store` writes `val` into the cell. It takes a shared reference,
/// so the cell is the same value before and after, and the write shows only in
/// what threads load.
pub assume_specification<T>[ AtomicCell::<T>::store ](cell: &AtomicCell<T>, val: T);

/// `AtomicCell::load` gives what the cell holds at that moment: what was stored
/// last, by whatever thread.
pub assume_specification<T: Copy>[ AtomicCell::<T>::load ](cell: &AtomicCell<T>) -> T;

/// `parking_lot::RawMutex`: the lock proper inside of a `parking_lot::Mutex`.
#[verifier::external_type_specification]
#[verifier::external_body]
pub struct ExRawMutex(parking_lot::RawMutex);

/// `parking_lot::Mutex`, which is `lock_api::Mutex` over `parking_lot::RawMutex`:
/// data that is reached only while a lock is held.
#[verifier::external_type_specification]
#[verifier::external_body]
#[verifier::reject_recursive_types(R)]
#[verifier::reject_recursive_types(T)]
pub struct ExMutex<R, T: ?Sized>(parking_lot::lock_api::Mutex<R, T>);

/// A dependency graph behind a lock.
///
/// Only the runtime takes the lock, and it lets go of it before it takes it
/// again, so no thread waits for a lock that it holds itself.
#[derive(Debug)]
pub struct GraphLock(Mutex<DependencyGraph>);

/// A lock on the dependency graph, held until this value goes out of scope.
///
/// It holds a `parking_lot::MutexGuard`. That type asks a trait of its crate of
/// its parameter, so it is kept in a private field.
#[verifier::external_body]
pub struct GraphGuard<'a>(MutexGuard<'a, DependencyGraph>);

/// The graph that a lock is held on. While the guard lives nobody else can
/// reach the graph, so what it is belongs to the guard.
pub uninterp spec fn guarded(guard: GraphGuard<'_>) -> DependencyGraph;

/// The lock that is held. A guard keeps a reference to its lock
/// (`MutexGuard::mutex` gives it) and never changes it.
pub uninterp spec fn lock_of(guard: GraphGuard<'_>) -> GraphLock;

/// Calls `function` on `argument`, so that it can be stated that it was called.
pub(crate) fn call<A, B, F: Fn(A) -> B>(function: F, argument: A) -> (result: B)
    requires
        call_requires(function, (argument,)),
    ensures
        call_ensures(function, (argument,), result),
{
    function(argument)
}

/// Makes the current revision count as cancelled, for all threads that look at
/// the flag.
///
/// What the flag holds afterwards is up to all of them. What is stated is that
/// `true` has been stored into it.
pub fn raise(flag: &AtomicCell<bool>)
    ensures
        call_ensures(AtomicCell::<bool>::store, (flag, true), ()),
{
    store_into(AtomicCell::<bool>::store, flag, true)
}

/// The flag that says whether the current revision has been cancelled.
///
/// Everybody who shares the cell can raise the flag. It is lowered by its owner
/// alone, and the owner keeps count: `cleared` is how often `false` has been
/// stored into the cell since it was made.
pub struct CancellationFlag {
    cell: Arc<AtomicCell<bool>>,
    cleared: Ghost<nat>,
}

impl CancellationFlag {
    /// The cell of the flag.
    pub closed spec fn cell(&self) -> AtomicCell<bool> {
        *self.cell
    }

    /// How often the flag has been lowered.
    pub closed spec fn cleared(&self) -> nat {
        self.cleared@
    }

    /// A flag that has not been raised.
    pub(crate) fn new() -> (flag: CancellationFlag)
        ensures
            call_ensures(AtomicCell::<bool>::new, (false,), flag.cell()),
            flag.cleared() == 0,
    {
        let cell = call(AtomicCell::<bool>::new, false);
        CancellationFlag { cell: Arc::new(cell), cleared: Ghost(0) }
    }

    /// Looks whether the flag is raised.
    pub(crate) fn is_raised(&self) -> (raised: bool)
        ensures
            call_ensures(AtomicCell::<bool>::load, (&self.cell(),), raised),
    {
        call(AtomicCell::<bool>::load, &*self.cell)
    }

    /// Raises the flag.
    pub(crate) fn raise(&self)
        ensures
            call_ensures(AtomicCell::<bool>::store, (&self.cell(), true), ()),
    {
        raise(&self.cell)
    }

    /// The cell of the flag, shared, for others to raise it.
    pub(crate) fn share(&self) -> (cell: Arc<AtomicCell<bool>>)
        ensures
            *cell == self.cell(),
    {
        self.cell.clone()
    }
}

/// Lowers the flag: makes the current revision count as not cancelled.
///
/// What is stated is that `false` has been stored into the flag, and that this
/// has been counted.
pub(crate) fn lower(flag: &mut CancellationFlag)
    ensures
        call_ensures(AtomicCell::<bool>::store, (&old(flag).cell(), false), ()),
        final(flag).cell() == old(flag).cell(),
        final(flag).cleared() == old(flag).cleared() + 1,
{
    store_into(AtomicCell::<bool>::store, &*flag.cell, false);
    flag.cleared = Ghost(flag.cleared@ + 1);
}

/// Calls `store` on a cell and a value, so that it can be stated that it was
/// called.
fn store_into<F: Fn(&AtomicCell<bool>, bool)>(store: F, cell: &AtomicCell<bool>, val: bool)
    requires
        call_requires(store, (cell, val)),
    ensures
        call_ensures(store, (cell, val), ()),
{
    store(cell, val)
}

/// `Mutex::new` puts a graph behind a lock that nobody holds.
///
/// That the first to take the lock finds `graph` is left unsaid: the lock is
/// shared, and any thread can be the first.
#[verifier::external_body]
pub(crate) fn new_lock(graph: DependencyGraph) -> (lock: GraphLock) {
    GraphLock(Mutex::new(graph))
}

/// `Mutex::lock` waits until nobody else holds the lock and takes it: what it
/// gives is a guard of this very lock. The graph behind it is whatever its last
/// holder left there.
///
/// Which graph that is depends on the other threads and is left unsaid.
#[verifier::external_body]
pub(crate) fn lock_graph<'a>(lock: &'a GraphLock) -> (guard: GraphGuard<'a>)
    ensures
        lock_of(guard) == *lock,
{
    GraphGuard(lock.0.lock())
}

/// `MutexGuard::deref_mut` gives access to the graph that the lock is held on:
/// what is written there is what the guard holds afterwards. The lock that is
/// held stays the same.
#[verifier::external_body]
pub(crate) fn graph_of<'g, 'a>(guard: &'g mut GraphGuard<'a>) -> (graph: &'g mut DependencyGraph)
    ensures
        *graph == guarded(*old(guard)),
        guarded(*final(guard)) == *final(graph),
        lock_of(*final(guard)) == lock_of(*old(guard)),
{
    &mut guard.0
}

/// `MutexGuard::drop` lets go of the lock: the next to take it finds the graph
/// that the guard held.
///
/// Who that is, and when, depends on the other threads and is left unsaid.
#[verifier::external_body]
pub(crate) fn unlock_graph(guard: GraphGuard<'_>) {
    drop(guard.0)
}

/// True if `lock` has been made around the graph `held`.
pub closed spec fn made_around(lock: GraphLock, held: GraphView) -> bool {
    exists|graph: DependencyGraph| #[trigger]
        call_ensures(new_lock, (graph,), lock) && graph@ == held
}

/// Makes a lock around a graph.
pub(crate) fn make_lock(graph: DependencyGraph) -> (lock: GraphLock)
    ensures
        made_around(lock, graph@),
{
    call(new_lock, graph)
}

/// True if `lock` has been held: it was taken with the graph `found` behind it,
/// and it was let go of with the graph `left` behind it.
pub closed spec fn visited(lock: GraphLock, found: GraphView, left: GraphView) -> bool {
    exists|taken: GraphGuard<'_>, done: GraphGuard<'_>|
        #![trigger guarded(taken), guarded(done)]
        {
            &&& call_ensures(lock_graph, (&lock,), taken)
            &&& call_ensures(unlock_graph, (done,), ())
            &&& lock_of(taken) == lock
            &&& lock_of(done) == lock
            &&& guarded(taken)@ == found
            &&& guarded(done)@ == left
        }
}

/// Takes the lock.
pub(crate) fn enter<'a>(lock: &'a GraphLock) -> (guard: GraphGuard<'a>)
    ensures
        call_ensures(lock_graph, (lock,), guard),
        lock_of(guard) == *lock,
{
    call(lock_graph, lock)
}

/// Lets go of the lock. This ends a visit that began with [`enter`].
pub(crate) fn leave(guard: GraphGuard<'_>)
    ensures
        call_ensures(unlock_graph, (guard,), ()),
        forall|taken: GraphGuard<'_>| #[trigger]
            call_ensures(lock_graph, (&lock_of(guard),), taken) ==> visited(
                lock_of(guard),
                guarded(taken)@,
                guarded(guard)@,
            ),
{
    let ghost done = guard;
    call(unlock_graph, guard);
    assert forall|taken: GraphGuard<'_>| #[trigger]
        call_ensures(lock_graph, (&lock_of(done),), taken) implies visited(
        lock_of(done),
        guarded(taken)@,
        guarded(done)@,
    ) by {
        assert(lock_of(taken) == lock_of(done));
    }
}

/// A visit is what it says: there was a guard of this very lock that held the
/// graph which was found, and one that held the graph which was left.
pub proof fn law_visit_is_of_this_lock(lock: GraphLock, found: GraphView, left: GraphView)
    requires
        visited(lock, found, left),
    ensures
        exists|taken: GraphGuard<'_>| #[trigger]
            guarded(taken)@ == found && lock_of(taken) == lock,
        exists|done: GraphGuard<'_>| #[trigger] guarded(done)@ == left && lock_of(done) == lock,
{
}

/// A visit is made by taking the lock, and ends by letting go of it.
pub(crate) proof fn law_visit_takes_and_lets_go(
    lock: GraphLock,
    found: GraphView,
    left: GraphView,
)
    requires
        visited(lock, found, left),
    ensures
        exists|taken: GraphGuard<'_>| #[trigger]
            guarded(taken)@ == found && call_ensures(lock_graph, (&lock,), taken),
        exists|done: GraphGuard<'_>| #[trigger]
            guarded(done)@ == left && call_ensures(unlock_graph, (done,), ()),
{
}

/// A lock that was made around a graph was made with it.
pub(crate) proof fn law_lock_is_made_around_graph(lock: GraphLock, held: GraphView)
    requires
        made_around(lock, held),
    ensures
        exists|graph: DependencyGraph| #[trigger]
            call_ensures(new_lock, (graph,), lock) && graph@ == held,
{
}

} // verus!
