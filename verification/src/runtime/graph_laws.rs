//! Laws of blocking, unblocking and cycles.

use crate::cycle::CycleRecoveryStrategy;
use crate::event::{Cancelled, UnwindView};
use crate::key::{DatabaseKeyIndex, DependencyIndex};
use crate::runtime::active_query::{
    gather, lemma_edges_with_all, reads_one_of, stack_wf, EdgeKind, QueryView,
};
use crate::runtime::graph_view::{
    first_participant, first_recovering, innermost_mark, lemma_cycle_trail, lemma_mark_hops_frame,
    lemma_release_hops_frame, lemma_resolve, marked, participating,
    unmarked, unwound_for, unwound_from, GraphView, Hop, Recovery, WaitView,
};
use crate::runtime::laws::same_but_stack;
use crate::runtime::runtime_view::{after_wait, RuntimeView};
use crate::runtime::waits::{
    lemma_acyclic_smaller, lemma_link_keeps_acyclic, lemma_reaches_next, lemma_walk_compose, walk,
};
use crate::runtime::RuntimeId;
use vstd::prelude::*;

verus! {

/// A runtime that blocks on one that does not depend on it closes no cycle:
/// still nobody waits for itself, directly or through others.
pub proof fn law_blocking_closes_no_cycle(
    graph: GraphView,
    from: RuntimeId,
    key: DatabaseKeyIndex,
    to: RuntimeId,
    stack: Seq<QueryView>,
)
    requires
        graph.wf(),
        graph.is_running(from),
        !graph.depends_on(to, from),
        stack_wf(stack),
    ensures
        graph.block(from, key, to, stack).wf(),
        graph.block(from, key, to, stack).depends_on(from, to),
{
    let after = graph.block(from, key, to, stack);
    assert(graph.links().dom() =~= graph.edges.dom());
    lemma_link_keeps_acyclic(graph.links(), from, to);
    assert(after.links() =~= graph.links().insert(from, to));
    assert(after.edges.dom() =~= graph.edges.dom().insert(from));
    assert(walk(after.links(), to, 0) == Some(to));
    assert(walk(after.links(), from, 1) == Some(to));
}

/// Unblocking runtimes, and fetching a result, closes no cycle either.
pub proof fn law_unblocking_closes_no_cycle(
    graph: GraphView,
    key: DatabaseKeyIndex,
    id: RuntimeId,
    result: WaitView,
)
    requires
        graph.wf(),
    ensures
        graph.unblock_all(key, result).wf(),
        graph.edges.dom().contains(id) ==> graph.unblock(id, result).wf(),
        graph.without_result(id).wf(),
{
    let all = graph.unblock_all(key, result);
    assert(all.links().submap_of(graph.links()));
    lemma_acyclic_smaller(all.links(), graph.links());
    vstd::set_lib::lemma_set_subset_finite(graph.edges.dom(), all.edges.dom());
    let one = graph.unblock(id, result);
    assert(one.links().submap_of(graph.links()));
    lemma_acyclic_smaller(one.links(), graph.links());
    assert(one.edges.dom() =~= graph.edges.dom().remove(id));
    assert(graph.without_result(id).links() =~= graph.links());
}

/// A runtime that blocks on a query and is unblocked when the query completes
/// gets its own stack back, with the result of the query, and is running again
/// once it has fetched it.
pub proof fn law_wait_gives_stack_back(
    graph: GraphView,
    from: RuntimeId,
    key: DatabaseKeyIndex,
    to: RuntimeId,
    stack: Seq<QueryView>,
    result: WaitView,
)
    requires
        graph.is_running(from),
    ensures
        ({
            let done = graph.block(from, key, to, stack).unblock_all(key, result);
            &&& !done.edges.dom().contains(from)
            &&& done.results.dom().contains(from)
            &&& done.results[from] == (stack, result)
            &&& done.without_result(from).is_running(from)
        }),
{
    let blocked = graph.block(from, key, to, stack);
    assert(blocked.blocked_on(key).contains(from));
}

/// When a query completes, nobody stays blocked on it, and whoever is blocked
/// on something else stays blocked, with the same stack.
pub proof fn law_completion_unblocks_all(
    graph: GraphView,
    key: DatabaseKeyIndex,
    result: WaitView,
    id: RuntimeId,
)
    requires
        graph.edges.dom().contains(id),
    ensures
        graph.unblock_all(key, result).blocked_on(key) == Set::<RuntimeId>::empty(),
        graph.edges[id].blocked_on_key == key ==> graph.unblock_all(key, result).results[id] == (
            graph.edges[id].stack,
            result,
        ),
        graph.edges[id].blocked_on_key != key ==> graph.unblock_all(
            key,
            result,
        ).edges.dom().contains(id) && graph.unblock_all(key, result).edges[id] == graph.edges[id],
{
    let done = graph.unblock_all(key, result);
    assert(done.blocked_on(key) =~= Set::<RuntimeId>::empty());
    assert(graph.blocked_on(key).contains(id) <==> graph.edges[id].blocked_on_key == key);
}

/// How a query ended decides what those do that waited for it, once they
/// resume. If it completed, all of them go on. If it panicked, all of them
/// unwind with [`Cancelled::PropagatedPanic`], and none goes on.
pub proof fn law_completion_decides_for_waiters(
    graph: GraphView,
    key: DatabaseKeyIndex,
    id: RuntimeId,
)
    requires
        graph.blocked_on(key).contains(id),
    ensures
        ({
            let done = graph.unblock_all(key, WaitView::Completed);
            let failed = graph.unblock_all(key, WaitView::Panicked);
            &&& done.results.dom().contains(id)
            &&& after_wait(done.results[id].1) == Ok::<(), UnwindView>(())
            &&& failed.results.dom().contains(id)
            &&& after_wait(failed.results[id].1) == Err::<(), UnwindView>(
                UnwindView::Cancelled(Cancelled::PropagatedPanic),
            )
        }),
{
}

/// If the runtime that ran into a cycle goes on, then what it is about to wait
/// for no longer depends on it. However the cycle is resolved, nobody waits for
/// itself.
pub proof fn law_resolved_cycle_is_gone(
    graph: GraphView,
    from: RuntimeId,
    own: Seq<QueryView>,
    key: DatabaseKeyIndex,
    to: RuntimeId,
    recovery: Recovery,
)
    requires
        graph.wf(),
        graph.is_running(from),
        graph.depends_on(to, from),
    ensures
        graph.resolve(from, own, key, to, recovery).graph.wf(),
        graph.resolve(from, own, key, to, recovery).outcome is Ok ==> !graph.resolve(
            from,
            own,
            key,
            to,
            recovery,
        ).graph.depends_on(to, from),
{
    lemma_resolve(graph, from, own, key, to, recovery);
}

/// An attempt to block ends in one of two ways. Either the runtime is blocked:
/// it waits for the query that it asked for, with its stack put away. Or it
/// unwinds: it is still running and still has its queries on its stack. Both
/// ways nobody waits for itself.
pub proof fn law_block_or_unwind(
    runtime: RuntimeView,
    graph: GraphView,
    key: DatabaseKeyIndex,
    other: RuntimeId,
    recovery: Recovery,
)
    requires
        runtime.wf(),
        graph.wf(),
        runtime.can_block(graph, key, other, recovery),
    ensures
        ({
            let step = runtime.block_step(graph, key, other, recovery);
            &&& step.graph.wf()
            &&& step.runtime.wf()
            &&& step.outcome is Ok ==> {
                &&& step.runtime.stack is None
                &&& step.graph.blocked_on(key).contains(runtime.id)
                &&& step.graph.edges[runtime.id].blocked_on_id == other
            }
            &&& step.outcome is Err ==> {
                &&& step.graph.is_running(runtime.id)
                &&& step.runtime.stack is Some
                &&& step.runtime.stack->0.map_values(|query: QueryView| query.key)
                    == runtime.stack->0.map_values(|query: QueryView| query.key)
            }
        }),
{
    let own = runtime.stack->0;
    if graph.depends_on(other, runtime.id) {
        let resolved = graph.resolve(runtime.id, own, key, other, recovery);
        lemma_resolve(graph, runtime.id, own, key, other, recovery);
        if resolved.outcome is Ok {
            law_blocking_closes_no_cycle(resolved.graph, runtime.id, key, other, resolved.stack);
        } else {
            assert(resolved.stack.map_values(|query: QueryView| query.key) =~= own.map_values(
                |query: QueryView| query.key,
            ));
        }
    } else {
        law_blocking_closes_no_cycle(graph, runtime.id, key, other, own);
    }
}

/// Where the search for the first query that can recover ends.
pub proof fn lemma_first_recovering(stack: Seq<QueryView>, recovery: Recovery, from: nat)
    requires
        from <= stack.len(),
    ensures
        from <= first_recovering(stack, recovery, from) <= stack.len(),
        forall|i: int|
            from <= i < first_recovering(stack, recovery, from) ==> recovery(
                (#[trigger] stack[i]).key.ingredient_index,
            ) != CycleRecoveryStrategy::Fallback,
        first_recovering(stack, recovery, from) < stack.len() ==> recovery(
            stack[first_recovering(stack, recovery, from) as int].key.ingredient_index,
        ) == CycleRecoveryStrategy::Fallback,
    decreases stack.len() - from,
{
    if from < stack.len() && recovery(stack[from as int].key.ingredient_index)
        != CycleRecoveryStrategy::Fallback {
        lemma_first_recovering(stack, recovery, from + 1);
    }
}

/// Where the search for the first participant ends.
pub proof fn lemma_first_participant(stack: Seq<QueryView>, key: DatabaseKeyIndex, from: nat)
    requires
        from <= stack.len(),
    ensures
        from <= first_participant(stack, key, from) <= stack.len(),
    decreases stack.len() - from,
{
    if from < stack.len() && stack[from as int].key != key {
        lemma_first_participant(stack, key, from + 1);
    }
}

/// The first participant lies at the same place if all keys are the same.
proof fn lemma_first_participant_by_keys(
    stack: Seq<QueryView>,
    other: Seq<QueryView>,
    key: DatabaseKeyIndex,
    from: nat,
)
    requires
        stack.len() == other.len(),
        forall|i: int| 0 <= i < stack.len() ==> (#[trigger] stack[i]).key == other[i].key,
    ensures
        first_participant(stack, key, from) == first_participant(other, key, from),
    decreases stack.len() - from,
{
    if from < stack.len() && stack[from as int].key != key {
        lemma_first_participant_by_keys(stack, other, key, from + 1);
    }
}

/// Without marks there is no innermost mark.
proof fn lemma_no_mark(stack: Seq<QueryView>, from: nat)
    requires
        forall|i: int| from <= i < stack.len() ==> (#[trigger] stack[i]).cycle is None,
    ensures
        innermost_mark(stack, from) is None,
    decreases stack.len(),
{
    if stack.len() > from {
        assert(stack.last() == stack[stack.len() - 1]);
        let front = stack.drop_last();
        assert forall|i: int| from <= i < front.len() implies (#[trigger] front[i]).cycle
            is None by {
            assert(front[i] == stack[i]);
        }
        lemma_no_mark(front, from);
    }
}

/// True if one of the queries can recover.
pub open spec fn some_recovers(queries: Seq<QueryView>, recovery: Recovery) -> bool {
    exists|i: int|
        0 <= i < queries.len() && recovery((#[trigger] queries[i]).key.ingredient_index)
            == CycleRecoveryStrategy::Fallback
}

/// True if none of the queries is marked.
pub open spec fn none_marked(queries: Seq<QueryView>) -> bool {
    forall|i: int| 0 <= i < queries.len() ==> (#[trigger] queries[i]).cycle is None
}

/// A stack is unwound, for the cycle at hand, if and only if one of its
/// participants can recover.
proof fn lemma_unwound_if_recovers(
    stack: Seq<QueryView>,
    key: DatabaseKeyIndex,
    recovery: Recovery,
    cycle_query: QueryView,
    cycle: Seq<DatabaseKeyIndex>,
)
    requires
        none_marked(participating(stack, key)),
    ensures
        unwound_for(marked(stack, key, recovery, cycle_query, cycle), key) == (if some_recovers(
            participating(stack, key),
            recovery,
        ) {
            Some(cycle)
        } else {
            None
        }),
{
    let first = first_participant(stack, key, 0);
    let start = unwound_from(stack, key, recovery);
    let after = marked(stack, key, recovery, cycle_query, cycle);
    let part = participating(stack, key);
    lemma_first_participant(stack, key, 0);
    lemma_first_recovering(stack, recovery, first);
    lemma_first_participant_by_keys(after, stack, key, 0);
    if start < stack.len() {
        assert(part[start - first] == stack[start as int]);
        assert(some_recovers(part, recovery));
        assert(after.last().cycle == Some(cycle));
    } else {
        assert forall|i: int| 0 <= i < part.len() implies recovery(
            (#[trigger] part[i]).key.ingredient_index,
        ) != CycleRecoveryStrategy::Fallback by {
            assert(part[i] == stack[i + first]);
        }
        assert forall|i: int| first <= i < after.len() implies (#[trigger] after[i]).cycle
            is None by {
            assert(part[i - first] == stack[i]);
        }
        lemma_no_mark(after, first);
    }
}

/// The stacks of the stations once they have been marked.
pub proof fn lemma_mark_hops_at(
    graph: GraphView,
    hops: Seq<Hop>,
    recovery: Recovery,
    cycle_query: QueryView,
    cycle: Seq<DatabaseKeyIndex>,
    n: nat,
    i: int,
)
    requires
        0 <= i < n <= hops.len(),
        forall|i: int| 0 <= i < n ==> graph.edges.dom().contains((#[trigger] hops[i]).0),
        forall|i: int, j: int|
            0 <= i < j < hops.len() ==> (#[trigger] hops[i]).0 != (#[trigger] hops[j]).0,
    ensures
        graph.mark_hops(hops, recovery, cycle_query, cycle, n).edges[hops[i].0].stack == marked(
            graph.edges[hops[i].0].stack,
            hops[i].1,
            recovery,
            cycle_query,
            cycle,
        ),
    decreases n,
{
    if i < n - 1 {
        lemma_mark_hops_at(graph, hops, recovery, cycle_query, cycle, (n - 1) as nat, i);
        assert(hops[i].0 != hops[n - 1].0);
    } else {
        lemma_mark_hops_frame(graph, hops, recovery, cycle_query, cycle, (n - 1) as nat);
        let before = graph.mark_hops(hops, recovery, cycle_query, cycle, (n - 1) as nat);
        assert(before.edges[hops[i].0] == graph.edges[hops[i].0]);
    }
}

/// The results of the stations that have been unblocked.
pub proof fn lemma_release_hops_at(graph: GraphView, hops: Seq<Hop>, n: nat, i: int)
    requires
        0 <= i < n <= hops.len(),
        graph.releases(hops[i]),
        forall|i: int| 0 <= i < n ==> graph.edges.dom().contains((#[trigger] hops[i]).0),
        forall|i: int, j: int|
            0 <= i < j < hops.len() ==> (#[trigger] hops[i]).0 != (#[trigger] hops[j]).0,
    ensures
        graph.release_hops(hops, n).results.dom().contains(hops[i].0),
        graph.release_hops(hops, n).results[hops[i].0] == (
            graph.edges[hops[i].0].stack,
            WaitView::Cycle(unwound_for(graph.edges[hops[i].0].stack, hops[i].1)->0),
        ),
    decreases n,
{
    lemma_release_hops_frame(graph, hops, (n - 1) as nat);
    if i < n - 1 {
        lemma_release_hops_at(graph, hops, (n - 1) as nat, i);
        assert(hops[i].0 != hops[n - 1].0);
    } else {
        let before = graph.release_hops(hops, (n - 1) as nat);
        assert(before.edges.dom().contains(hops[i].0));
        assert(before.edges[hops[i].0] == graph.edges[hops[i].0]);
    }
}

/// Who recovers decides what becomes of a cycle. The runtime that ran into it
/// unwinds if a participant on its own stack can recover. If none can, but one
/// on the stack of another runtime can, it goes on. If nobody can recover, it
/// panics. Each other runtime is unblocked, to unwind for this very cycle, if
/// and only if a participant on its stack can recover.
///
/// This is for cycles none of whose participants is being unwound already.
pub proof fn law_recovery_decides(
    graph: GraphView,
    from: RuntimeId,
    own: Seq<QueryView>,
    key: DatabaseKeyIndex,
    to: RuntimeId,
    recovery: Recovery,
)
    requires
        graph.wf(),
        graph.is_running(from),
        graph.depends_on(to, from),
        ({
            let hops = graph.cycle_trail(key, to, from);
            forall|i: int|
                0 <= i < hops.len() ==> none_marked(
                    participating(graph.stack_at(hops, own, i), (#[trigger] hops[i]).1),
                )
        }),
    ensures
        ({
            let hops = graph.cycle_trail(key, to, from);
            let cycle = graph.cycle_keys(hops, own);
            let resolved = graph.resolve(from, own, key, to, recovery);
            &&& resolved.outcome == (if some_recovers(
                participating(own, hops.last().1),
                recovery,
            ) {
                Err(UnwindView::Cycle(cycle))
            } else if exists|i: int|
                0 <= i < hops.len() - 1 && some_recovers(
                    participating(graph.stack_at(hops, own, i), (#[trigger] hops[i]).1),
                    recovery,
                ) {
                Ok(())
            } else {
                Err(UnwindView::UnrecoveredCycle(cycle))
            })
            &&& forall|i: int|
                0 <= i < hops.len() - 1 ==> if some_recovers(
                    participating(graph.stack_at(hops, own, i), (#[trigger] hops[i]).1),
                    recovery,
                ) {
                    &&& !resolved.graph.edges.dom().contains(hops[i].0)
                    &&& resolved.graph.results.dom().contains(hops[i].0)
                    &&& resolved.graph.results[hops[i].0].1 == WaitView::Cycle(cycle)
                } else {
                    resolved.graph.edges.dom().contains(hops[i].0)
                }
        }),
{
    let hops = graph.cycle_trail(key, to, from);
    let others = (hops.len() - 1) as nat;
    let cycle = graph.cycle_keys(hops, own);
    let cycle_query = graph.cycle_query(hops, own, key);
    let noted = graph.mark_hops(hops, recovery, cycle_query, cycle, others);
    let resolved = graph.resolve(from, own, key, to, recovery);
    lemma_cycle_trail(graph, key, to, from);
    lemma_mark_hops_frame(graph, hops, recovery, cycle_query, cycle, others);
    assert(hops.last() == hops[hops.len() - 1]);
    lemma_unwound_if_recovers(own, hops.last().1, recovery, cycle_query, cycle);
    assert forall|i: int| 0 <= i < others implies {
        &&& noted.releases(#[trigger] hops[i]) <==> some_recovers(
            participating(graph.stack_at(hops, own, i), hops[i].1),
            recovery,
        )
        &&& noted.releases(hops[i]) ==> unwound_for(noted.edges[hops[i].0].stack, hops[i].1)
            == Some(cycle)
    } by {
        lemma_mark_hops_at(graph, hops, recovery, cycle_query, cycle, others, i);
        lemma_unwound_if_recovers(
            graph.stack_at(hops, own, i),
            hops[i].1,
            recovery,
            cycle_query,
            cycle,
        );
    }
    lemma_release_hops_frame(noted, hops, others);
    assert forall|i: int| 0 <= i < hops.len() - 1 implies if some_recovers(
        participating(graph.stack_at(hops, own, i), (#[trigger] hops[i]).1),
        recovery,
    ) {
        &&& !resolved.graph.edges.dom().contains(hops[i].0)
        &&& resolved.graph.results.dom().contains(hops[i].0)
        &&& resolved.graph.results[hops[i].0].1 == WaitView::Cycle(cycle)
    } else {
        resolved.graph.edges.dom().contains(hops[i].0)
    } by {
        if noted.releases(hops[i]) {
            lemma_release_hops_at(noted, hops, others, i);
        } else {
            lemma_unreleased_stays(noted, hops, others, i);
        }
    }
}

/// If nobody recovers from a cycle, everything stays as it was: who waits for
/// whom, the results that have not been fetched, and every stack, that of the
/// runtime that ran into the cycle too. That runtime panics.
///
/// This is for cycles none of whose participants is being unwound already.
pub proof fn law_unrecovered_cycle_changes_nothing(
    graph: GraphView,
    from: RuntimeId,
    own: Seq<QueryView>,
    key: DatabaseKeyIndex,
    to: RuntimeId,
    recovery: Recovery,
)
    requires
        graph.wf(),
        graph.is_running(from),
        graph.depends_on(to, from),
        ({
            let hops = graph.cycle_trail(key, to, from);
            forall|i: int|
                0 <= i < hops.len() ==> {
                    let part = participating(
                        graph.stack_at(hops, own, i),
                        (#[trigger] hops[i]).1,
                    );
                    none_marked(part) && !some_recovers(part, recovery)
                }
        }),
    ensures
        ({
            let resolved = graph.resolve(from, own, key, to, recovery);
            &&& resolved.graph == graph
            &&& resolved.stack == own
            &&& resolved.outcome == Err::<(), UnwindView>(
                UnwindView::UnrecoveredCycle(
                    graph.cycle_keys(graph.cycle_trail(key, to, from), own),
                ),
            )
        }),
{
    let hops = graph.cycle_trail(key, to, from);
    let others = (hops.len() - 1) as nat;
    let cycle = graph.cycle_keys(hops, own);
    let cycle_query = graph.cycle_query(hops, own, key);
    let noted = graph.mark_hops(hops, recovery, cycle_query, cycle, others);
    lemma_cycle_trail(graph, key, to, from);
    assert(hops.last() == hops[hops.len() - 1]);
    law_recovery_decides(graph, from, own, key, to, recovery);
    lemma_marks_nothing(own, hops.last().1, recovery, cycle_query, cycle);
    lemma_mark_hops_nothing(graph, hops, own, recovery, cycle_query, cycle, others);
    assert forall|i: int| 0 <= i < others implies !noted.releases(#[trigger] hops[i]) by {
        lemma_unwound_if_recovers(
            graph.stack_at(hops, own, i),
            hops[i].1,
            recovery,
            cycle_query,
            cycle,
        );
        lemma_marks_nothing(graph.stack_at(hops, own, i), hops[i].1, recovery, cycle_query, cycle);
    }
    lemma_release_hops_nothing(noted, hops, others);
}

/// A stack without a participant that can recover stays as it is.
proof fn lemma_marks_nothing(
    stack: Seq<QueryView>,
    key: DatabaseKeyIndex,
    recovery: Recovery,
    cycle_query: QueryView,
    cycle: Seq<DatabaseKeyIndex>,
)
    requires
        !some_recovers(participating(stack, key), recovery),
    ensures
        marked(stack, key, recovery, cycle_query, cycle) == stack,
{
    let first = first_participant(stack, key, 0);
    let start = unwound_from(stack, key, recovery);
    lemma_first_participant(stack, key, 0);
    lemma_first_recovering(stack, recovery, first);
    if start < stack.len() {
        assert(participating(stack, key)[start - first] == stack[start as int]);
    }
    assert(marked(stack, key, recovery, cycle_query, cycle) =~= stack);
}

/// Where no participant can recover, marking the stations changes nothing.
proof fn lemma_mark_hops_nothing(
    graph: GraphView,
    hops: Seq<Hop>,
    own: Seq<QueryView>,
    recovery: Recovery,
    cycle_query: QueryView,
    cycle: Seq<DatabaseKeyIndex>,
    n: nat,
)
    requires
        n < hops.len(),
        forall|i: int| 0 <= i < n ==> graph.edges.dom().contains((#[trigger] hops[i]).0),
        forall|i: int|
            0 <= i < hops.len() ==> !some_recovers(
                participating(graph.stack_at(hops, own, i), (#[trigger] hops[i]).1),
                recovery,
            ),
    ensures
        graph.mark_hops(hops, recovery, cycle_query, cycle, n) == graph,
    decreases n,
{
    if n > 0 {
        lemma_mark_hops_nothing(graph, hops, own, recovery, cycle_query, cycle, (n - 1) as nat);
        let (id, key) = hops[n - 1];
        let stack = graph.edges[id].stack;
        assert(graph.stack_at(hops, own, n - 1) == stack);
        lemma_marks_nothing(stack, key, recovery, cycle_query, cycle);
        assert(graph.with_stack(id, stack) =~= graph);
    }
}

/// Where no station is unwound, nobody is unblocked.
proof fn lemma_release_hops_nothing(graph: GraphView, hops: Seq<Hop>, n: nat)
    requires
        n <= hops.len(),
        forall|i: int| 0 <= i < n ==> !graph.releases(#[trigger] hops[i]),
    ensures
        graph.release_hops(hops, n) == graph,
    decreases n,
{
    if n > 0 {
        lemma_release_hops_nothing(graph, hops, (n - 1) as nat);
        assert(!graph.releases(hops[n - 1]));
    }
}

/// A station that is not unwound stays blocked.
pub proof fn lemma_unreleased_stays(graph: GraphView, hops: Seq<Hop>, n: nat, i: int)
    requires
        0 <= i < hops.len(),
        n <= hops.len(),
        !graph.releases(hops[i]),
        graph.edges.dom().contains(hops[i].0),
        forall|i: int, j: int|
            0 <= i < j < hops.len() ==> (#[trigger] hops[i]).0 != (#[trigger] hops[j]).0,
    ensures
        graph.release_hops(hops, n).edges.dom().contains(hops[i].0),
    decreases n,
{
    if n > 0 {
        lemma_unreleased_stays(graph, hops, (n - 1) as nat, i);
        if n - 1 != i {
            assert(hops[n - 1].0 != hops[i].0);
        }
    }
}

/// What the cycle as a whole depends on: every read and write of a participant,
/// but for reads of participants; no more durable than any participant, and
/// changed no earlier.
pub proof fn law_cycle_query_covers_participants(
    graph: GraphView,
    hops: Seq<Hop>,
    own: Seq<QueryView>,
    key: DatabaseKeyIndex,
)
    ensures
        ({
            let cycle = graph.cycle_keys(hops, own);
            let cycle_query = graph.cycle_query(hops, own, key);
            let frames = graph.participants(hops, own, hops.len());
            &&& forall|edge: (EdgeKind, DependencyIndex)| #[trigger]
                cycle_query.edges.contains(edge) <==> !reads_one_of(cycle, edge) && exists|i: int|
                    0 <= i < frames.len() && (#[trigger] frames[i]).edges.contains(edge)
            &&& forall|i: int|
                0 <= i < frames.len() ==> cycle_query.durability.spec_index() <= (
                #[trigger] frames[i]).durability.spec_index() && cycle_query.changed_at.since_start
                    >= frames[i].changed_at.since_start
        }),
{
    let cycle = graph.cycle_keys(hops, own);
    let frames = graph.participants(hops, own, hops.len());
    let gathered = gather(QueryView::fresh(key), frames);
    let pred = |edge: (EdgeKind, DependencyIndex)| !reads_one_of(cycle, edge);
    lemma_gather_covers(QueryView::fresh(key), frames);
    lemma_filter_contains(gathered.edges, pred);
}

/// The cycle as a whole is as durable as its least durable participant, and
/// changed when the last of its participants changed: one participant has this
/// very durability, and one this very revision.
pub proof fn law_cycle_stamp_is_attained(
    graph: GraphView,
    hops: Seq<Hop>,
    own: Seq<QueryView>,
    key: DatabaseKeyIndex,
)
    requires
        graph.participants(hops, own, hops.len()).len() > 0,
    ensures
        ({
            let cycle_query = graph.cycle_query(hops, own, key);
            let frames = graph.participants(hops, own, hops.len());
            &&& exists|i: int|
                0 <= i < frames.len() && cycle_query.durability == (
                #[trigger] frames[i]).durability
            &&& exists|i: int|
                0 <= i < frames.len() && cycle_query.changed_at == (
                #[trigger] frames[i]).changed_at
        }),
{
    let frames = graph.participants(hops, own, hops.len());
    let gathered = gather(QueryView::fresh(key), frames);
    lemma_gather_covers(QueryView::fresh(key), frames);
    lemma_gather_attained(QueryView::fresh(key), frames);
    // Where nothing is less durable, or later, than a fresh query, any
    // participant will do.
    assert(frames[0].durability.spec_index() >= gathered.durability.spec_index());
    assert(frames[0].changed_at.since_start <= gathered.changed_at.since_start);
}

/// The stamp that has been gathered is, in each part, that of one of the queries
/// that it was gathered from, or the one that it started with.
proof fn lemma_gather_attained(gathered: QueryView, frames: Seq<QueryView>)
    ensures
        ({
            let all = gather(gathered, frames);
            &&& all.durability == gathered.durability || exists|i: int|
                0 <= i < frames.len() && all.durability == (#[trigger] frames[i]).durability
            &&& all.changed_at == gathered.changed_at || exists|i: int|
                0 <= i < frames.len() && all.changed_at == (#[trigger] frames[i]).changed_at
        }),
    decreases frames.len(),
{
    if frames.len() > 0 {
        let front = frames.drop_last();
        let before = gather(gathered, front);
        let last = frames[frames.len() - 1];
        lemma_gather_attained(gathered, front);
        if before.durability != gathered.durability {
            let i = choose|i: int|
                0 <= i < front.len() && before.durability == (#[trigger] front[i]).durability;
            assert(frames[i] == front[i]);
        }
        if before.changed_at != gathered.changed_at {
            let i = choose|i: int|
                0 <= i < front.len() && before.changed_at == (#[trigger] front[i]).changed_at;
            assert(frames[i] == front[i]);
        }
        assert(last == frames.last());
    }
}

/// Picking keeps exactly what the predicate holds of.
proof fn lemma_filter_contains<A>(items: Seq<A>, pred: spec_fn(A) -> bool)
    ensures
        forall|item: A| #[trigger]
            items.filter(pred).contains(item) <==> items.contains(item) && pred(item),
    decreases items.len(),
{
    reveal(Seq::filter);
    if items.len() > 0 {
        let front = items.drop_last();
        lemma_filter_contains(front, pred);
        assert(items =~= front.push(items.last()));
        assert forall|item: A| #[trigger] items.filter(pred).contains(item) <==> items.contains(
            item,
        ) && pred(item) by {
            vstd::seq_lib::lemma_seq_contains_after_push(front, items.last(), item);
            vstd::seq_lib::lemma_seq_contains_after_push(
                front.filter(pred),
                items.last(),
                item,
            );
        }
    }
}

/// What has been gathered covers each of the queries that it was gathered from.
proof fn lemma_gather_covers(gathered: QueryView, frames: Seq<QueryView>)
    ensures
        ({
            let all = gather(gathered, frames);
            &&& forall|edge: (EdgeKind, DependencyIndex)| #[trigger]
                all.edges.contains(edge) <==> gathered.edges.contains(edge) || exists|i: int|
                    0 <= i < frames.len() && (#[trigger] frames[i]).edges.contains(edge)
            &&& forall|i: int|
                0 <= i < frames.len() ==> all.durability.spec_index() <= (
                #[trigger] frames[i]).durability.spec_index() && all.changed_at.since_start
                    >= frames[i].changed_at.since_start
        }),
    decreases frames.len(),
{
    if frames.len() > 0 {
        let front = frames.drop_last();
        let before = gather(gathered, front);
        let all = gather(gathered, frames);
        lemma_gather_covers(gathered, front);
        lemma_edges_with_all(before.edges, frames.last().edges);
        assert forall|edge: (EdgeKind, DependencyIndex)| #[trigger]
            all.edges.contains(edge) <==> gathered.edges.contains(edge) || exists|i: int|
                0 <= i < frames.len() && (#[trigger] frames[i]).edges.contains(edge) by {
            if all.edges.contains(edge) && !gathered.edges.contains(edge) {
                if before.edges.contains(edge) {
                    let i = choose|i: int|
                        0 <= i < front.len() && (#[trigger] front[i]).edges.contains(edge);
                    assert(frames[i].edges.contains(edge));
                } else {
                    assert(frames[frames.len() - 1].edges.contains(edge));
                }
            }
            if exists|i: int|
                0 <= i < frames.len() && (#[trigger] frames[i]).edges.contains(edge) {
                let i = choose|i: int|
                    0 <= i < frames.len() && (#[trigger] frames[i]).edges.contains(edge);
                if i < front.len() {
                    assert(front[i].edges.contains(edge));
                }
            }
        }
        assert forall|i: int| 0 <= i < frames.len() implies all.durability.spec_index() <= (
        #[trigger] frames[i]).durability.spec_index() && all.changed_at.since_start
            >= frames[i].changed_at.since_start by {
            if i < front.len() {
                assert(front[i] == frames[i]);
            }
        }
    }
}

/// The stack that the graph keeps for a runtime that is blocked, or that has
/// been unblocked and has not resumed yet.
pub open spec fn kept_stack(graph: GraphView, id: RuntimeId) -> Seq<QueryView> {
    if graph.edges.dom().contains(id) {
        graph.edges[id].stack
    } else {
        graph.results[id].0
    }
}

/// True if both stacks hold the same queries, and these have created the same
/// entities.
pub open spec fn same_queries(stack: Seq<QueryView>, other: Seq<QueryView>) -> bool {
    &&& stack.len() == other.len()
    &&& forall|i: int|
        0 <= i < stack.len() ==> (#[trigger] stack[i]).key == other[i].key
            && stack[i].disambiguators == other[i].disambiguators
}

/// While a runtime does not run, its stack stays in the graph, with the same
/// queries and what they have created, whatever other runtimes do meanwhile.
pub proof fn law_waiting_keeps_queries(
    graph: GraphView,
    id: RuntimeId,
    from: RuntimeId,
    own: Seq<QueryView>,
    key: DatabaseKeyIndex,
    to: RuntimeId,
    recovery: Recovery,
    result: WaitView,
)
    requires
        graph.wf(),
        !graph.is_running(id),
        graph.is_running(from),
    ensures
        ({
            let after = graph.block(from, key, to, own);
            !after.is_running(id) && kept_stack(after, id) == kept_stack(graph, id)
        }),
        ({
            let after = graph.unblock_all(key, result);
            !after.is_running(id) && kept_stack(after, id) == kept_stack(graph, id)
        }),
        ({
            let after = graph.without_result(from);
            !after.is_running(id) && kept_stack(after, id) == kept_stack(graph, id)
        }),
        graph.depends_on(to, from) ==> ({
            let after = graph.resolve(from, own, key, to, recovery).graph;
            !after.is_running(id) && same_queries(kept_stack(after, id), kept_stack(graph, id))
        }),
{
    if graph.depends_on(to, from) {
        let hops = graph.cycle_trail(key, to, from);
        let others = (hops.len() - 1) as nat;
        let cycle = graph.cycle_keys(hops, own);
        let cycle_query = graph.cycle_query(hops, own, key);
        let noted = graph.mark_hops(hops, recovery, cycle_query, cycle, others);
        lemma_cycle_trail(graph, key, to, from);
        lemma_mark_hops_frame(graph, hops, recovery, cycle_query, cycle, others);
        lemma_mark_hops_queries(graph, hops, recovery, cycle_query, cycle, others, id);
        lemma_release_hops_keeps(noted, hops, others, id);
    }
}

/// Marking leaves each stack with the same queries.
proof fn lemma_mark_hops_queries(
    graph: GraphView,
    hops: Seq<Hop>,
    recovery: Recovery,
    cycle_query: QueryView,
    cycle: Seq<DatabaseKeyIndex>,
    n: nat,
    id: RuntimeId,
)
    requires
        n <= hops.len(),
    ensures
        same_queries(
            graph.mark_hops(hops, recovery, cycle_query, cycle, n).edges[id].stack,
            graph.edges[id].stack,
        ),
    decreases n,
{
    if n > 0 {
        lemma_mark_hops_queries(graph, hops, recovery, cycle_query, cycle, (n - 1) as nat, id);
    }
}

/// Unblocking stations leaves each stack as it is.
pub proof fn lemma_release_hops_keeps(graph: GraphView, hops: Seq<Hop>, n: nat, id: RuntimeId)
    requires
        n <= hops.len(),
        !graph.is_running(id),
        graph.edges.dom().disjoint(graph.results.dom()),
        forall|i: int| 0 <= i < n ==> graph.edges.dom().contains((#[trigger] hops[i]).0),
        forall|i: int, j: int|
            0 <= i < j < hops.len() ==> (#[trigger] hops[i]).0 != (#[trigger] hops[j]).0,
    ensures
        !graph.release_hops(hops, n).is_running(id),
        kept_stack(graph.release_hops(hops, n), id) == kept_stack(graph, id),
    decreases n,
{
    if n > 0 {
        lemma_release_hops_keeps(graph, hops, (n - 1) as nat, id);
        lemma_release_hops_frame(graph, hops, (n - 1) as nat);
        let before = graph.release_hops(hops, (n - 1) as nat);
        let last = hops[n - 1].0;
        assert(graph.edges.dom().contains(last));
        assert(before.edges.dom().contains(last));
        assert(before.edges[last] == graph.edges[last]);
    }
}

/// Who depends on whom: everybody depends on itself, on the runtime that it is
/// blocked on, and on whatever that one depends on; on nobody else.
pub proof fn law_dependence_follows_waits(
    graph: GraphView,
    a: RuntimeId,
    b: RuntimeId,
    c: RuntimeId,
)
    ensures
        graph.depends_on(a, a),
        graph.edges.dom().contains(a) ==> graph.depends_on(a, graph.edges[a].blocked_on_id),
        graph.depends_on(a, b) && graph.depends_on(b, c) ==> graph.depends_on(a, c),
        a != b && graph.depends_on(a, b) ==> graph.edges.dom().contains(a) && graph.depends_on(
            graph.edges[a].blocked_on_id,
            b,
        ),
{
    let links = graph.links();
    assert(walk(links, a, 0) == Some(a));
    if graph.edges.dom().contains(a) {
        let next = graph.edges[a].blocked_on_id;
        assert(links.dom().contains(a) && links[a] == next);
        assert(walk(links, next, 0) == Some(next));
        assert(walk(links, a, 1) == Some(next));
    }
    if graph.depends_on(a, b) && graph.depends_on(b, c) {
        let n = choose|n: nat| #[trigger] walk(links, a, n) == Some(b);
        let m = choose|m: nat| #[trigger] walk(links, b, m) == Some(c);
        lemma_walk_compose(links, a, n, b, m);
        assert(walk(links, a, n + m) == Some(c));
    }
    if a != b && graph.depends_on(a, b) {
        lemma_reaches_next(links, a, b);
        assert(links[a] == graph.edges[a].blocked_on_id);
    }
}

/// A runtime that blocks waits for the query that it asked for, of the runtime
/// that it asked, with its stack as it is. Nobody else is touched.
pub proof fn law_block_records_the_wait(
    graph: GraphView,
    from: RuntimeId,
    key: DatabaseKeyIndex,
    to: RuntimeId,
    stack: Seq<QueryView>,
    id: RuntimeId,
)
    ensures
        ({
            let after = graph.block(from, key, to, stack);
            &&& after.edges.dom().contains(from)
            &&& after.edges[from].blocked_on_id == to
            &&& after.edges[from].blocked_on_key == key
            &&& after.edges[from].stack == stack
            &&& id != from ==> {
                &&& after.edges.dom().contains(id) <==> graph.edges.dom().contains(id)
                &&& graph.edges.dom().contains(id) ==> after.edges[id] == graph.edges[id]
            }
            &&& after.results == graph.results
        }),
{
}

/// When a query completes, exactly those are unblocked that wait for it: each has
/// a result, which is the given one together with the stack that it had. All
/// others keep their waits and their results.
pub proof fn law_completion_touches_waiters_only(
    graph: GraphView,
    key: DatabaseKeyIndex,
    result: WaitView,
    id: RuntimeId,
)
    ensures
        ({
            let waits = graph.edges.dom().contains(id) && graph.edges[id].blocked_on_key == key;
            let after = graph.unblock_all(key, result);
            &&& graph.blocked_on(key).contains(id) <==> waits
            &&& after.edges.dom().contains(id) <==> graph.edges.dom().contains(id) && !waits
            &&& after.edges.dom().contains(id) ==> after.edges[id] == graph.edges[id]
            &&& after.results.dom().contains(id) <==> graph.results.dom().contains(id) || waits
            &&& waits ==> after.results[id].0 == graph.edges[id].stack && after.results[id].1
                == result
            &&& !waits && graph.results.dom().contains(id) ==> after.results[id]
                == graph.results[id]
        }),
{
}

/// A result that is fetched is gone, and that is all that changes.
pub proof fn law_fetched_result_is_gone(graph: GraphView, id: RuntimeId, other: RuntimeId)
    ensures
        !graph.without_result(id).results.dom().contains(id),
        graph.without_result(id).edges == graph.edges,
        other != id ==> {
            &&& graph.without_result(id).results.dom().contains(other)
                <==> graph.results.dom().contains(other)
            &&& graph.results.dom().contains(other) ==> graph.without_result(id).results[other]
                == graph.results[other]
        },
        graph.is_running(id) <==> !graph.edges.dom().contains(id)
            && !graph.results.dom().contains(id),
{
}

/// A runtime that has its stack and is running can try to block wherever that
/// closes no cycle. Where it closes a cycle, it can if the cycle has a
/// participant and none of its participants is being unwound already. A runtime
/// that is not running cannot.
pub proof fn law_running_runtime_can_block(
    runtime: RuntimeView,
    graph: GraphView,
    key: DatabaseKeyIndex,
    other: RuntimeId,
    recovery: Recovery,
)
    requires
        runtime.stack is Some,
    ensures
        graph.is_running(runtime.id) && !graph.depends_on(other, runtime.id) ==> runtime.can_block(
            graph,
            key,
            other,
            recovery,
        ),
        ({
            let hops = graph.cycle_trail(key, other, runtime.id);
            let own = runtime.stack->0;
            &&& graph.is_running(runtime.id)
            &&& graph.participants(hops, own, hops.len()).len() > 0
            &&& forall|i: int|
                0 <= i < hops.len() ==> none_marked(
                    participating(graph.stack_at(hops, own, i), (#[trigger] hops[i]).1),
                )
        }) ==> runtime.can_block(graph, key, other, recovery),
        !graph.is_running(runtime.id) ==> !runtime.can_block(graph, key, other, recovery),
{
    let hops = graph.cycle_trail(key, other, runtime.id);
    let own = runtime.stack->0;
    if forall|i: int|
        0 <= i < hops.len() ==> none_marked(
            participating(graph.stack_at(hops, own, i), (#[trigger] hops[i]).1),
        ) {
        assert forall|i: int| 0 <= i < hops.len() implies unmarked(
            graph.stack_at(hops, own, i),
            (#[trigger] hops[i]).1,
            recovery,
        ) by {
            let stack = graph.stack_at(hops, own, i);
            let entry = hops[i].1;
            let first = first_participant(stack, entry, 0);
            lemma_first_participant(stack, entry, 0);
            lemma_first_recovering(stack, recovery, first);
            assert forall|p: int|
                unwound_from(stack, entry, recovery) <= p < stack.len() implies (
            #[trigger] stack[p]).cycle is None by {
                assert(participating(stack, entry)[p - first] == stack[p]);
            }
        }
    }
}

/// A runtime cannot block where that closes a cycle without participants, or one
/// with a query that is to be unwound and is being unwound already.
pub proof fn law_runtime_cannot_block(
    runtime: RuntimeView,
    graph: GraphView,
    key: DatabaseKeyIndex,
    other: RuntimeId,
    recovery: Recovery,
    i: int,
    p: int,
)
    requires
        runtime.stack is Some,
        graph.depends_on(other, runtime.id),
        ({
            let hops = graph.cycle_trail(key, other, runtime.id);
            let own = runtime.stack->0;
            ||| graph.participants(hops, own, hops.len()).len() == 0
            ||| {
                &&& 0 <= i < hops.len()
                &&& unwound_from(graph.stack_at(hops, own, i), hops[i].1, recovery) <= p
                    < graph.stack_at(hops, own, i).len()
                &&& graph.stack_at(hops, own, i)[p].cycle is Some
            }
        }),
    ensures
        !runtime.can_block(graph, key, other, recovery),
{
    let hops = graph.cycle_trail(key, other, runtime.id);
    if graph.participants(hops, runtime.stack->0, hops.len()).len() > 0 {
        let stack = graph.stack_at(hops, runtime.stack->0, i);
        assert(!unmarked(stack, hops[i].1, recovery)) by {
            assert(stack[p].cycle is Some);
        }
    }
}

/// In the empty graph nobody waits and nobody has a result. At a station of a
/// cycle lies the stack that the graph keeps for the runtime there; at the last
/// one that of the runtime which ran into the cycle.
pub proof fn law_stacks_are_where_they_belong(
    graph: GraphView,
    hops: Seq<Hop>,
    own: Seq<QueryView>,
    i: int,
    id: RuntimeId,
)
    requires
        0 <= i < hops.len(),
    ensures
        !GraphView::empty().edges.dom().contains(id),
        !GraphView::empty().results.dom().contains(id),
        i < hops.len() - 1 ==> graph.stack_at(hops, own, i) == graph.edges[hops[i].0].stack,
        i == hops.len() - 1 ==> graph.stack_at(hops, own, i) == own,
{
}

/// A runtime that goes on to block after a cycle has been resolved has the stack
/// that it had: none of its queries is unwound, so none is changed.
pub proof fn law_going_on_keeps_own_stack(
    graph: GraphView,
    from: RuntimeId,
    own: Seq<QueryView>,
    key: DatabaseKeyIndex,
    to: RuntimeId,
    recovery: Recovery,
)
    requires
        graph.resolve(from, own, key, to, recovery).outcome is Ok,
    ensures
        graph.resolve(from, own, key, to, recovery).stack == own,
{
    let hops = graph.cycle_trail(key, to, from);
    let cycle = graph.cycle_keys(hops, own);
    let cycle_query = graph.cycle_query(hops, own, key);
    let entry = hops.last().1;
    let after = marked(own, entry, recovery, cycle_query, cycle);
    let first = first_participant(own, entry, 0);
    let start = unwound_from(own, entry, recovery);
    lemma_first_participant(own, entry, 0);
    lemma_first_recovering(own, recovery, first);
    lemma_first_participant_by_keys(after, own, entry, 0);
    if start < own.len() {
        assert(after.last().cycle == Some(cycle));
        assert(unwound_for(after, entry) is Some);
    }
    assert(after =~= own);
}

/// When an attempt to block succeeds, the graph keeps the very stack that the
/// runtime had: the same queries in the same order, each with the edges, the stamp
/// and all else that it had, whether or not a cycle was resolved first. So
/// blocking, completion and resuming give the runtime back as it was, and the
/// result of the query that was waited for.
pub proof fn law_blocking_and_resuming_gives_runtime_back(
    runtime: RuntimeView,
    graph: GraphView,
    key: DatabaseKeyIndex,
    other: RuntimeId,
    recovery: Recovery,
    result: WaitView,
)
    requires
        runtime.stack is Some,
        runtime.block_step(graph, key, other, recovery).outcome is Ok,
    ensures
        ({
            let step = runtime.block_step(graph, key, other, recovery);
            let done = step.graph.unblock_all(key, result);
            &&& step.runtime.stack is None
            &&& same_but_stack(runtime, step.runtime)
            &&& step.graph.edges.dom().contains(runtime.id)
            &&& step.graph.edges[runtime.id].blocked_on_id == other
            &&& step.graph.edges[runtime.id].blocked_on_key == key
            &&& step.graph.edges[runtime.id].stack == runtime.stack->0
            &&& done.results.dom().contains(runtime.id)
            &&& done.results[runtime.id].0 == runtime.stack->0
            &&& done.results[runtime.id].1 == result
            &&& step.runtime.with_stack(done.results[runtime.id].0) == runtime
        }),
{
    let own = runtime.stack->0;
    if graph.depends_on(other, runtime.id) {
        law_going_on_keeps_own_stack(graph, runtime.id, own, key, other, recovery);
    }
    let step = runtime.block_step(graph, key, other, recovery);
    assert(step.graph.blocked_on(key).contains(runtime.id));
}

/// Where blocking closes no cycle, it always succeeds, and touches nobody else.
pub proof fn law_blocking_without_cycle_succeeds(
    runtime: RuntimeView,
    graph: GraphView,
    key: DatabaseKeyIndex,
    other: RuntimeId,
    recovery: Recovery,
    id: RuntimeId,
)
    requires
        runtime.stack is Some,
        !graph.depends_on(other, runtime.id),
    ensures
        ({
            let step = runtime.block_step(graph, key, other, recovery);
            &&& step.outcome is Ok
            &&& step.graph.results == graph.results
            &&& id != runtime.id ==> {
                &&& step.graph.edges.dom().contains(id) <==> graph.edges.dom().contains(id)
                &&& graph.edges.dom().contains(id) ==> step.graph.edges[id] == graph.edges[id]
            }
        }),
{
}

/// Where blocking closes a cycle, what becomes of the cycle decides. A runtime
/// that has to unwind keeps its stack and is not blocked; what the cycle made of
/// the graph and of the stack stands. One that goes on waits besides.
pub proof fn law_blocking_resolves_cycle_first(
    runtime: RuntimeView,
    graph: GraphView,
    key: DatabaseKeyIndex,
    other: RuntimeId,
    recovery: Recovery,
    id: RuntimeId,
)
    requires
        runtime.stack is Some,
        graph.depends_on(other, runtime.id),
    ensures
        ({
            let step = runtime.block_step(graph, key, other, recovery);
            let resolved = graph.resolve(runtime.id, runtime.stack->0, key, other, recovery);
            &&& step.outcome == resolved.outcome
            &&& same_but_stack(runtime, step.runtime)
            &&& step.graph.results == resolved.graph.results
            &&& step.outcome is Err ==> step.graph == resolved.graph && step.runtime.stack == Some(
                resolved.stack,
            )
            &&& step.outcome is Ok && id != runtime.id ==> {
                &&& step.graph.edges.dom().contains(id)
                    <==> resolved.graph.edges.dom().contains(id)
                &&& resolved.graph.edges.dom().contains(id) ==> step.graph.edges[id]
                    == resolved.graph.edges[id]
            }
        }),
{
}

/// A stack that is put back is the stack that the runtime has then. Nothing else
/// changes.
pub proof fn law_stack_is_put_back(runtime: RuntimeView, stack: Seq<QueryView>)
    ensures
        runtime.with_stack(stack).stack == Some(stack),
        same_but_stack(runtime, runtime.with_stack(stack)),
{
}

} // verus!
