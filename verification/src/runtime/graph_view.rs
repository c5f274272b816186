//! What the dependency graph is, and what each step does to it.

use crate::cycle::{from_min, CycleRecoveryStrategy};
use crate::event::UnwindView;
use crate::key::{DatabaseKeyIndex, IngredientIndex};
use crate::runtime::active_query::{gather, lemma_gather_wf, stack_wf, QueryView};
use crate::runtime::waits::{
    acyclic, lemma_acyclic_smaller, lemma_walk_bounded, lemma_walk_compose, lemma_walk_in_larger,
    lemma_walk_prefix, reaches, walk,
};
use crate::runtime::RuntimeId;
use vstd::prelude::*;

verus! {

/// What a blocked runtime waits for, and the queries that wait with it.
#[verifier::ext_equal]
pub struct EdgeView {
    /// The runtime that executes what is waited for.
    pub blocked_on_id: RuntimeId,
    /// The query that is waited for.
    pub blocked_on_key: DatabaseKeyIndex,
    /// The stack of the blocked runtime.
    pub stack: Seq<QueryView>,
}

/// How a wait ended, with the cycle as a sequence of participants.
pub enum WaitView {
    Completed,
    Panicked,
    Cycle(Seq<DatabaseKeyIndex>),
}

/// Who is blocked on whom, and who has been unblocked but has not resumed yet.
#[verifier::ext_equal]
pub struct GraphView {
    pub edges: Map<RuntimeId, EdgeView>,
    pub results: Map<RuntimeId, (Seq<QueryView>, WaitView)>,
}

/// One station on the way round a cycle: a runtime, and the first query on its
/// stack that takes part.
pub type Hop = (RuntimeId, DatabaseKeyIndex);

/// What recovery strategy each ingredient has.
pub type Recovery = spec_fn(IngredientIndex) -> CycleRecoveryStrategy;

/// The position of the first query at or behind `from` that is `key`; the
/// length of `stack` if there is none.
pub open spec fn first_participant(stack: Seq<QueryView>, key: DatabaseKeyIndex, from: nat) -> nat
    decreases stack.len() - from,
{
    if from >= stack.len() {
        stack.len()
    } else if stack[from as int].key == key {
        from
    } else {
        first_participant(stack, key, from + 1)
    }
}

/// The part of `stack` that takes part in a cycle that enters it at `key`.
pub open spec fn participating(stack: Seq<QueryView>, key: DatabaseKeyIndex) -> Seq<QueryView> {
    stack.skip(first_participant(stack, key, 0) as int)
}

/// The position of the first query at or behind `from` that can recover; the
/// length of `stack` if there is none.
pub open spec fn first_recovering(stack: Seq<QueryView>, recovery: Recovery, from: nat) -> nat
    decreases stack.len() - from,
{
    if from >= stack.len() {
        stack.len()
    } else if recovery(stack[from as int].key.ingredient_index) == CycleRecoveryStrategy::Fallback {
        from
    } else {
        first_recovering(stack, recovery, from + 1)
    }
}

/// The position from which on the queries of `stack` are unwound, where the
/// cycle enters it at `key`.
pub open spec fn unwound_from(
    stack: Seq<QueryView>,
    key: DatabaseKeyIndex,
    recovery: Recovery,
) -> nat {
    first_recovering(stack, recovery, first_participant(stack, key, 0))
}

/// True if none of the queries that are about to be unwound is already marked.
pub open spec fn unmarked(
    stack: Seq<QueryView>,
    key: DatabaseKeyIndex,
    recovery: Recovery,
) -> bool {
    forall|i: int|
        unwound_from(stack, key, recovery) <= i < stack.len() ==> (#[trigger] stack[i]).cycle
            is None
}

/// The stack, with the queries that are unwound marked: they depend on what
/// the whole cycle depends on.
pub open spec fn marked(
    stack: Seq<QueryView>,
    key: DatabaseKeyIndex,
    recovery: Recovery,
    cycle_query: QueryView,
    cycle: Seq<DatabaseKeyIndex>,
) -> Seq<QueryView> {
    Seq::new(
        stack.len(),
        |i: int|
            if i >= unwound_from(stack, key, recovery) {
                stack[i].with_inputs_of(cycle_query).with_cycle(cycle)
            } else {
                stack[i]
            },
    )
}

/// The cycle that the innermost marked query of `stack` is marked with, not
/// counting the outermost `from` queries.
pub open spec fn innermost_mark(stack: Seq<QueryView>, from: nat) -> Option<Seq<DatabaseKeyIndex>>
    decreases stack.len(),
{
    if stack.len() <= from {
        None
    } else if stack.last().cycle is Some {
        stack.last().cycle
    } else {
        innermost_mark(stack.drop_last(), from)
    }
}

/// The cycle for which a runtime with this stack is unwound, if it is unwound,
/// where the cycle enters the stack at `key`.
pub open spec fn unwound_for(
    stack: Seq<QueryView>,
    key: DatabaseKeyIndex,
) -> Option<Seq<DatabaseKeyIndex>> {
    innermost_mark(stack, first_participant(stack, key, 0))
}

/// The stations from the runtime `id`, entered at `key`, along the runtimes
/// that are waited for, up to the first that is `target`. At most `fuel` links
/// are followed.
pub open spec fn trail(
    edges: Map<RuntimeId, EdgeView>,
    id: RuntimeId,
    key: DatabaseKeyIndex,
    target: RuntimeId,
    fuel: nat,
) -> Seq<Hop>
    decreases fuel,
{
    if id == target || fuel == 0 || !edges.dom().contains(id) {
        seq![(id, key)]
    } else {
        seq![(id, key)] + trail(
            edges,
            edges[id].blocked_on_id,
            edges[id].blocked_on_key,
            target,
            (fuel - 1) as nat,
        )
    }
}

/// What becomes of a cycle: the graph, the stack of the runtime that ran into
/// it, and what that runtime does next.
pub struct Resolution {
    pub graph: GraphView,
    pub stack: Seq<QueryView>,
    pub outcome: Result<(), UnwindView>,
}

impl GraphView {
    /// The graph in which nobody waits.
    pub open spec fn empty() -> GraphView {
        GraphView { edges: Map::empty(), results: Map::empty() }
    }

    /// Which runtime each blocked runtime waits for.
    pub open spec fn links(self) -> Map<RuntimeId, RuntimeId> {
        self.edges.map_values(|edge: EdgeView| edge.blocked_on_id)
    }

    /// What holds of every dependency graph: nobody waits for itself, directly
    /// or through others, nobody is both blocked and unblocked, and all stacks
    /// that it keeps are what stacks have to be.
    pub open spec fn wf(self) -> bool {
        &&& self.edges.dom().finite()
        &&& acyclic(self.links())
        &&& self.edges.dom().disjoint(self.results.dom())
        &&& self.stacks_wf()
    }

    /// True if all stacks that the graph keeps are what stacks have to be.
    pub open spec fn stacks_wf(self) -> bool {
        &&& forall|id: RuntimeId| #[trigger]
            self.edges.dom().contains(id) ==> stack_wf(self.edges[id].stack)
        &&& forall|id: RuntimeId| #[trigger]
            self.results.dom().contains(id) ==> stack_wf(self.results[id].0)
    }

    /// True if `from` is `to` or waits for it, directly or through others.
    pub open spec fn depends_on(self, from: RuntimeId, to: RuntimeId) -> bool {
        reaches(self.links(), from, to)
    }

    /// True if the runtime is running: neither blocked, nor unblocked with a
    /// result that it has not fetched.
    pub open spec fn is_running(self, id: RuntimeId) -> bool {
        !self.edges.dom().contains(id) && !self.results.dom().contains(id)
    }

    /// The graph, after `from` has blocked on `key`, which `to` executes.
    pub open spec fn block(
        self,
        from: RuntimeId,
        key: DatabaseKeyIndex,
        to: RuntimeId,
        stack: Seq<QueryView>,
    ) -> GraphView {
        GraphView {
            edges: self.edges.insert(
                from,
                EdgeView { blocked_on_id: to, blocked_on_key: key, stack },
            ),
            ..self
        }
    }

    /// The graph, after the blocked runtime `id` has been unblocked.
    pub open spec fn unblock(self, id: RuntimeId, result: WaitView) -> GraphView {
        GraphView {
            edges: self.edges.remove(id),
            results: self.results.insert(id, (self.edges[id].stack, result)),
        }
    }

    /// The runtimes that are blocked on `key`.
    pub open spec fn blocked_on(self, key: DatabaseKeyIndex) -> Set<RuntimeId> {
        self.edges.dom().filter(|id: RuntimeId| self.edges[id].blocked_on_key == key)
    }

    /// The graph, after the blocked runtimes `ids` have been unblocked.
    pub open spec fn unblock_set(self, ids: Set<RuntimeId>, result: WaitView) -> GraphView {
        GraphView {
            edges: self.edges.remove_keys(ids),
            results: Map::new(
                |id: RuntimeId| self.results.dom().contains(id) || ids.contains(id),
                |id: RuntimeId|
                    if ids.contains(id) {
                        (self.edges[id].stack, result)
                    } else {
                        self.results[id]
                    },
            ),
        }
    }

    /// The graph, after all that were blocked on `key` have been unblocked.
    pub open spec fn unblock_all(self, key: DatabaseKeyIndex, result: WaitView) -> GraphView {
        self.unblock_set(self.blocked_on(key), result)
    }

    /// The graph, after the runtime `id` has fetched its result.
    pub open spec fn without_result(self, id: RuntimeId) -> GraphView {
        GraphView { results: self.results.remove(id), ..self }
    }

    /// The graph, with another stack for the blocked runtime `id`.
    pub open spec fn with_stack(self, id: RuntimeId, stack: Seq<QueryView>) -> GraphView {
        GraphView {
            edges: self.edges.insert(id, EdgeView { stack, ..self.edges[id] }),
            ..self
        }
    }

    /// The stations of the cycle that forms when `from` blocks on `key`, which
    /// `to` executes. The last one is `from` itself.
    pub open spec fn cycle_trail(
        self,
        key: DatabaseKeyIndex,
        to: RuntimeId,
        from: RuntimeId,
    ) -> Seq<Hop> {
        trail(self.edges, to, key, from, self.edges.dom().len())
    }

    /// The stack of the runtime at station `i`. The last station is the running
    /// runtime, whose stack is `own`.
    pub open spec fn stack_at(self, hops: Seq<Hop>, own: Seq<QueryView>, i: int) -> Seq<QueryView> {
        if i == hops.len() - 1 {
            own
        } else {
            self.edges[hops[i].0].stack
        }
    }

    /// The queries that take part in a cycle, as far as they lie on the stacks
    /// of the first `n` stations.
    pub open spec fn participants(
        self,
        hops: Seq<Hop>,
        own: Seq<QueryView>,
        n: nat,
    ) -> Seq<QueryView>
        decreases n,
    {
        if n == 0 {
            Seq::empty()
        } else {
            self.participants(hops, own, (n - 1) as nat) + participating(
                self.stack_at(hops, own, n - 1),
                hops[n - 1].1,
            )
        }
    }

    /// The keys of the participants of a cycle, as the cycle reports them.
    pub open spec fn cycle_keys(self, hops: Seq<Hop>, own: Seq<QueryView>) -> Seq<
        DatabaseKeyIndex,
    > {
        from_min(self.participants(hops, own, hops.len()).map_values(|query: QueryView| query.key))
    }

    /// What the cycle as a whole depends on: all that its participants depend
    /// on, but for each other.
    pub open spec fn cycle_query(
        self,
        hops: Seq<Hop>,
        own: Seq<QueryView>,
        key: DatabaseKeyIndex,
    ) -> QueryView {
        gather(
            QueryView::fresh(key),
            self.participants(hops, own, hops.len()),
        ).without_reads_of(self.cycle_keys(hops, own))
    }

    /// The graph, with the stacks of the first `n` stations marked.
    pub open spec fn mark_hops(
        self,
        hops: Seq<Hop>,
        recovery: Recovery,
        cycle_query: QueryView,
        cycle: Seq<DatabaseKeyIndex>,
        n: nat,
    ) -> GraphView
        decreases n,
    {
        if n == 0 {
            self
        } else {
            let before = self.mark_hops(hops, recovery, cycle_query, cycle, (n - 1) as nat);
            let (id, key) = hops[n - 1];
            before.with_stack(
                id,
                marked(before.edges[id].stack, key, recovery, cycle_query, cycle),
            )
        }
    }

    /// True if the runtime of the given station is blocked and is unwound.
    pub open spec fn releases(self, hop: Hop) -> bool {
        unwound_for(self.edges[hop.0].stack, hop.1) is Some
    }

    /// The graph, after those of the first `n` stations that are unwound have
    /// been unblocked.
    pub open spec fn release_hops(self, hops: Seq<Hop>, n: nat) -> GraphView
        decreases n,
    {
        if n == 0 {
            self
        } else {
            let before = self.release_hops(hops, (n - 1) as nat);
            let (id, key) = hops[n - 1];
            match unwound_for(self.edges[id].stack, key) {
                Some(cycle) => before.unblock(id, WaitView::Cycle(cycle)),
                None => before,
            }
        }
    }

    /// True if one of the first `n` stations is unwound.
    pub open spec fn releases_any(self, hops: Seq<Hop>, n: nat) -> bool {
        exists|i: int| 0 <= i < n && self.releases(#[trigger] hops[i])
    }

    /// What becomes of the cycle that forms when the running runtime `from`,
    /// whose stack is `own`, blocks on `key`, which `to` executes.
    ///
    /// The queries that can recover, and all inside of them on the same stack,
    /// are marked. Blocked runtimes with a marked participant are unblocked, so
    /// that they unwind. The running runtime unwinds if it has one itself. If
    /// it has none, it goes on where another has one, and panics otherwise.
    pub open spec fn resolve(
        self,
        from: RuntimeId,
        own: Seq<QueryView>,
        key: DatabaseKeyIndex,
        to: RuntimeId,
        recovery: Recovery,
    ) -> Resolution {
        let hops = self.cycle_trail(key, to, from);
        let others = (hops.len() - 1) as nat;
        let cycle = self.cycle_keys(hops, own);
        let cycle_query = self.cycle_query(hops, own, key);
        let noted = self.mark_hops(hops, recovery, cycle_query, cycle, others);
        let stack = marked(own, hops.last().1, recovery, cycle_query, cycle);
        Resolution {
            graph: noted.release_hops(hops, others),
            stack,
            outcome: if unwound_for(stack, hops.last().1) is Some {
                Err(UnwindView::Cycle(cycle))
            } else if noted.releases_any(hops, others) {
                Ok(())
            } else {
                Err(UnwindView::UnrecoveredCycle(cycle))
            },
        }
    }

    /// True if the cycle that forms when `from`, whose stack is `own`, blocks
    /// on `key`, which `to` executes, has a participant, and no query that is
    /// to be unwound for it is being unwound already.
    pub open spec fn resolvable(
        self,
        from: RuntimeId,
        own: Seq<QueryView>,
        key: DatabaseKeyIndex,
        to: RuntimeId,
        recovery: Recovery,
    ) -> bool {
        let hops = self.cycle_trail(key, to, from);
        &&& self.participants(hops, own, hops.len()).len() > 0
        &&& forall|i: int|
            0 <= i < hops.len() ==> unmarked(
                self.stack_at(hops, own, i),
                (#[trigger] hops[i]).1,
                recovery,
            )
    }
}

/// A trail follows the links one by one and ends at its target.
proof fn lemma_trail_walks(
    graph: GraphView,
    id: RuntimeId,
    key: DatabaseKeyIndex,
    target: RuntimeId,
    n: nat,
    fuel: nat,
)
    requires
        walk(graph.links(), id, n) == Some(target),
        n <= fuel,
    ensures
        ({
            let hops = trail(graph.edges, id, key, target, fuel);
            &&& hops.len() > 0
            &&& hops[0] == (id, key)
            &&& hops.last().0 == target
            &&& forall|i: int|
                0 <= i < hops.len() ==> walk(graph.links(), id, i as nat) == Some(
                    (#[trigger] hops[i]).0,
                )
            &&& forall|i: int|
                0 <= i < hops.len() - 1 ==> graph.edges.dom().contains((#[trigger] hops[i]).0)
                    && hops[i].0 != target
        }),
    decreases fuel,
{
    let hops = trail(graph.edges, id, key, target, fuel);
    assert(walk(graph.links(), id, 0) == Some(id));
    if id == target {
        assert(hops =~= seq![(id, key)]);
    } else {
        let edge = graph.edges[id];
        assert(graph.links()[id] == edge.blocked_on_id);
        lemma_trail_walks(
            graph,
            edge.blocked_on_id,
            edge.blocked_on_key,
            target,
            (n - 1) as nat,
            (fuel - 1) as nat,
        );
        let rest = trail(
            graph.edges,
            edge.blocked_on_id,
            edge.blocked_on_key,
            target,
            (fuel - 1) as nat,
        );
        assert(hops =~= seq![(id, key)] + rest);
        assert forall|i: int| 0 <= i < hops.len() implies walk(graph.links(), id, i as nat) == Some(
            (#[trigger] hops[i]).0,
        ) by {
            if i > 0 {
                assert(hops[i] == rest[i - 1]);
            }
        }
        assert forall|i: int| 0 <= i < hops.len() - 1 implies graph.edges.dom().contains(
            (#[trigger] hops[i]).0,
        ) && hops[i].0 != target by {
            if i > 0 {
                assert(hops[i] == rest[i - 1]);
            }
        }
    }
}

/// The stations of a cycle: it starts where it was entered, every runtime but
/// the last is blocked, the last is the running one, and none comes twice.
pub proof fn lemma_cycle_trail(
    graph: GraphView,
    key: DatabaseKeyIndex,
    to: RuntimeId,
    from: RuntimeId,
)
    requires
        graph.wf(),
        graph.depends_on(to, from),
    ensures
        ({
            let hops = graph.cycle_trail(key, to, from);
            &&& hops.len() > 0
            &&& hops[0] == (to, key)
            &&& hops.last().0 == from
            &&& forall|i: int|
                0 <= i < hops.len() - 1 ==> graph.edges.dom().contains((#[trigger] hops[i]).0)
                    && hops[i].0 != from
            &&& forall|i: int|
                0 <= i < hops.len() ==> walk(graph.links(), to, i as nat) == Some(
                    (#[trigger] hops[i]).0,
                )
            &&& forall|i: int, j: int|
                0 <= i < j < hops.len() ==> (#[trigger] hops[i]).0 != (#[trigger] hops[j]).0
        }),
{
    let hops = graph.cycle_trail(key, to, from);
    let links = graph.links();
    let n = choose|n: nat| #[trigger] walk(links, to, n) == Some(from);
    assert(links.dom() =~= graph.edges.dom());
    lemma_walk_bounded(links, to, n);
    lemma_trail_walks(graph, to, key, from, n, graph.edges.dom().len());
    assert forall|i: int, j: int| 0 <= i < j < hops.len() implies (#[trigger] hops[i]).0 != (
    #[trigger] hops[j]).0 by {
        lemma_walk_compose(links, to, i as nat, hops[i].0, (j - i) as nat);
        assert(walk(links, hops[i].0, (j - i) as nat) == Some(hops[j].0));
    }
}

/// Marking stacks changes nothing but the stacks of the stations marked: who
/// waits for whom and who has a result stay as they are.
pub proof fn lemma_mark_hops_frame(
    graph: GraphView,
    hops: Seq<Hop>,
    recovery: Recovery,
    cycle_query: QueryView,
    cycle: Seq<DatabaseKeyIndex>,
    n: nat,
)
    requires
        n <= hops.len(),
        forall|i: int| 0 <= i < n ==> graph.edges.dom().contains((#[trigger] hops[i]).0),
    ensures
        ({
            let after = graph.mark_hops(hops, recovery, cycle_query, cycle, n);
            &&& after.links() == graph.links()
            &&& after.edges.dom() == graph.edges.dom()
            &&& after.results == graph.results
            &&& forall|id: RuntimeId| #[trigger]
                after.edges.dom().contains(id) ==> after.edges[id].blocked_on_key
                    == graph.edges[id].blocked_on_key
            &&& forall|id: RuntimeId|
                (forall|i: int| 0 <= i < n ==> (#[trigger] hops[i]).0 != id)
                    ==> #[trigger] after.edges[id] == graph.edges[id]
        }),
    decreases n,
{
    if n > 0 {
        lemma_mark_hops_frame(graph, hops, recovery, cycle_query, cycle, (n - 1) as nat);
        let before = graph.mark_hops(hops, recovery, cycle_query, cycle, (n - 1) as nat);
        let after = graph.mark_hops(hops, recovery, cycle_query, cycle, n);
        let last = hops[n - 1].0;
        assert(graph.edges.dom().contains(last));
        assert(after.edges.dom() =~= graph.edges.dom());
        assert forall|id: RuntimeId| graph.edges.dom().contains(id) implies (
        #[trigger] after.edges[id]).blocked_on_id == graph.edges[id].blocked_on_id by {
            assert(before.links()[id] == graph.links()[id]);
            assert(before.edges[id].blocked_on_id == graph.edges[id].blocked_on_id);
        }
        assert(after.links() =~= graph.links());
    }
}

/// Marking keeps stacks what they have to be.
pub proof fn lemma_mark_hops_stacks(
    graph: GraphView,
    hops: Seq<Hop>,
    recovery: Recovery,
    cycle_query: QueryView,
    cycle: Seq<DatabaseKeyIndex>,
    n: nat,
)
    requires
        n <= hops.len(),
        forall|i: int| 0 <= i < n ==> graph.edges.dom().contains((#[trigger] hops[i]).0),
        graph.stacks_wf(),
        cycle_query.wf(),
    ensures
        graph.mark_hops(hops, recovery, cycle_query, cycle, n).stacks_wf(),
    decreases n,
{
    if n > 0 {
        lemma_mark_hops_stacks(graph, hops, recovery, cycle_query, cycle, (n - 1) as nat);
        lemma_mark_hops_frame(graph, hops, recovery, cycle_query, cycle, (n - 1) as nat);
        let before = graph.mark_hops(hops, recovery, cycle_query, cycle, (n - 1) as nat);
        assert(before.edges.dom().contains(hops[n - 1].0));
    }
}

/// Unblocking some of the stations removes their edges and no others.
pub proof fn lemma_release_hops_frame(graph: GraphView, hops: Seq<Hop>, n: nat)
    requires
        n <= hops.len(),
        forall|i: int| 0 <= i < n ==> graph.edges.dom().contains((#[trigger] hops[i]).0),
        forall|i: int, j: int|
            0 <= i < j < hops.len() ==> (#[trigger] hops[i]).0 != (#[trigger] hops[j]).0,
    ensures
        ({
            let after = graph.release_hops(hops, n);
            &&& after.edges.submap_of(graph.edges)
            &&& after.links().submap_of(graph.links())
            &&& forall|id: RuntimeId|
                (forall|i: int| 0 <= i < n ==> (#[trigger] hops[i]).0 != id) ==> (
                #[trigger] after.edges.dom().contains(id) <==> graph.edges.dom().contains(id))
            &&& forall|id: RuntimeId|
                (forall|i: int| 0 <= i < n ==> (#[trigger] hops[i]).0 != id) ==> (
                #[trigger] after.results.dom().contains(id) <==> graph.results.dom().contains(id))
            &&& forall|i: int|
                0 <= i < n && graph.releases(#[trigger] hops[i])
                    ==> !after.edges.dom().contains(hops[i].0)
        }),
    decreases n,
{
    if n > 0 {
        lemma_release_hops_frame(graph, hops, (n - 1) as nat);
        let before = graph.release_hops(hops, (n - 1) as nat);
        let after = graph.release_hops(hops, n);
        assert(after.edges.submap_of(before.edges));
        assert forall|i: int| 0 <= i < n && graph.releases(
            #[trigger] hops[i],
        ) implies !after.edges.dom().contains(hops[i].0) by {
            if i < n - 1 {
                assert(!before.edges.dom().contains(hops[i].0));
            }
        }
        assert forall|id: RuntimeId|
            (forall|i: int| 0 <= i < n ==> (#[trigger] hops[i]).0 != id) implies (
        #[trigger] after.edges.dom().contains(id) <==> graph.edges.dom().contains(id)) by {
            assert(hops[n - 1].0 != id);
            assert(before.edges.dom().contains(id) <==> graph.edges.dom().contains(id));
        }
        assert forall|id: RuntimeId|
            (forall|i: int| 0 <= i < n ==> (#[trigger] hops[i]).0 != id) implies (
        #[trigger] after.results.dom().contains(id) <==> graph.results.dom().contains(id)) by {
            assert(hops[n - 1].0 != id);
            assert(before.results.dom().contains(id) <==> graph.results.dom().contains(id));
        }
        assert(after.links().submap_of(graph.links()));
    }
}

/// Unblocking some of the stations keeps the graph well formed.
proof fn lemma_release_hops_wf(graph: GraphView, hops: Seq<Hop>, n: nat)
    requires
        graph.wf(),
        n <= hops.len(),
        forall|i: int| 0 <= i < n ==> graph.edges.dom().contains((#[trigger] hops[i]).0),
        forall|i: int, j: int|
            0 <= i < j < hops.len() ==> (#[trigger] hops[i]).0 != (#[trigger] hops[j]).0,
    ensures
        graph.release_hops(hops, n).wf(),
    decreases n,
{
    if n > 0 {
        lemma_release_hops_wf(graph, hops, (n - 1) as nat);
        lemma_release_hops_frame(graph, hops, (n - 1) as nat);
        let before = graph.release_hops(hops, (n - 1) as nat);
        let after = graph.release_hops(hops, n);
        assert(after.links().submap_of(before.links()));
        lemma_acyclic_smaller(after.links(), before.links());
    }
}

/// A trail depends on who waits for whom and for what, not on the stacks.
proof fn lemma_trail_ignores_stacks(
    first: GraphView,
    second: GraphView,
    id: RuntimeId,
    key: DatabaseKeyIndex,
    target: RuntimeId,
    fuel: nat,
)
    requires
        first.links() == second.links(),
        first.edges.dom() == second.edges.dom(),
        forall|id: RuntimeId| #[trigger]
            second.edges.dom().contains(id) ==> second.edges[id].blocked_on_key
                == first.edges[id].blocked_on_key,
    ensures
        trail(first.edges, id, key, target, fuel) == trail(second.edges, id, key, target, fuel),
    decreases fuel,
{
    if id != target && fuel > 0 && first.edges.dom().contains(id) {
        assert(second.edges.dom().contains(id));
        assert(first.links()[id] == first.edges[id].blocked_on_id);
        assert(second.links()[id] == second.edges[id].blocked_on_id);
        lemma_trail_ignores_stacks(
            first,
            second,
            first.edges[id].blocked_on_id,
            first.edges[id].blocked_on_key,
            target,
            (fuel - 1) as nat,
        );
    }
}

/// The stations of a cycle are the same once some of them have been marked.
pub proof fn lemma_mark_hops_keeps_trail(
    graph: GraphView,
    key: DatabaseKeyIndex,
    to: RuntimeId,
    from: RuntimeId,
    recovery: Recovery,
    cycle_query: QueryView,
    cycle: Seq<DatabaseKeyIndex>,
    n: nat,
)
    requires
        graph.wf(),
        graph.depends_on(to, from),
        n < graph.cycle_trail(key, to, from).len(),
        cycle_query.wf(),
    ensures
        ({
            let hops = graph.cycle_trail(key, to, from);
            let after = graph.mark_hops(hops, recovery, cycle_query, cycle, n);
            &&& after.wf()
            &&& after.cycle_trail(key, to, from) == hops
            &&& after.links() == graph.links()
        }),
{
    let hops = graph.cycle_trail(key, to, from);
    let after = graph.mark_hops(hops, recovery, cycle_query, cycle, n);
    lemma_cycle_trail(graph, key, to, from);
    lemma_mark_hops_frame(graph, hops, recovery, cycle_query, cycle, n);
    lemma_mark_hops_stacks(graph, hops, recovery, cycle_query, cycle, n);
    lemma_trail_ignores_stacks(graph, after, to, key, from, graph.edges.dom().len());
}

/// What a cycle as a whole depends on holds no edge twice.
pub proof fn lemma_cycle_query_wf(
    graph: GraphView,
    hops: Seq<Hop>,
    own: Seq<QueryView>,
    key: DatabaseKeyIndex,
)
    ensures
        graph.cycle_query(hops, own, key).wf(),
{
    lemma_gather_wf(
        QueryView::fresh(key),
        graph.participants(hops, own, hops.len()),
        graph.cycle_keys(hops, own),
    );
}

/// The stations of a cycle, with their stacks marked, and the cycle resolved:
/// the graph stays well formed, the running runtime stays running, and if it
/// goes on, nobody that it is about to wait for waits for it.
pub proof fn lemma_resolve(
    graph: GraphView,
    from: RuntimeId,
    own: Seq<QueryView>,
    key: DatabaseKeyIndex,
    to: RuntimeId,
    recovery: Recovery,
)
    requires
        graph.wf(),
        graph.is_running(from),
        graph.depends_on(to, from),
    ensures
        ({
            let resolved = graph.resolve(from, own, key, to, recovery);
            &&& resolved.graph.wf()
            &&& resolved.graph.is_running(from)
            &&& resolved.outcome is Ok ==> !resolved.graph.depends_on(to, from)
            &&& stack_wf(own) ==> stack_wf(resolved.stack)
        }),
{
    let hops = graph.cycle_trail(key, to, from);
    let others = (hops.len() - 1) as nat;
    let cycle = graph.cycle_keys(hops, own);
    let cycle_query = graph.cycle_query(hops, own, key);
    let noted = graph.mark_hops(hops, recovery, cycle_query, cycle, others);
    lemma_cycle_query_wf(graph, hops, own, key);
    lemma_cycle_trail(graph, key, to, from);
    lemma_mark_hops_keeps_trail(graph, key, to, from, recovery, cycle_query, cycle, others);
    lemma_mark_hops_frame(graph, hops, recovery, cycle_query, cycle, others);
    lemma_release_hops_frame(noted, hops, others);
    lemma_release_hops_wf(noted, hops, others);
    if noted.releases_any(hops, others) {
        lemma_release_cuts(noted, key, to, from);
    }
}

/// Once a station of the cycle has been unblocked, the way from where the
/// cycle was entered to the running runtime is cut.
pub proof fn lemma_release_cuts(
    graph: GraphView,
    key: DatabaseKeyIndex,
    to: RuntimeId,
    from: RuntimeId,
)
    requires
        graph.wf(),
        graph.depends_on(to, from),
        ({
            let hops = graph.cycle_trail(key, to, from);
            graph.releases_any(hops, (hops.len() - 1) as nat)
        }),
    ensures
        ({
            let hops = graph.cycle_trail(key, to, from);
            !graph.release_hops(hops, (hops.len() - 1) as nat).depends_on(to, from)
        }),
{
    let hops = graph.cycle_trail(key, to, from);
    let others = (hops.len() - 1) as nat;
    let after = graph.release_hops(hops, others);
    lemma_cycle_trail(graph, key, to, from);
    lemma_release_hops_frame(graph, hops, others);
    let cut = choose|i: int| 0 <= i < others && graph.releases(#[trigger] hops[i]);
    assert(!after.edges.dom().contains(hops[cut].0));
    if after.depends_on(to, from) {
        let n = choose|n: nat| #[trigger] walk(after.links(), to, n) == Some(from);
        lemma_walk_in_larger(after.links(), graph.links(), to, n);
        // In the larger graph the walk passes the station that was cut off
        // before it gets to the running runtime.
        if n <= cut {
            assert(walk(graph.links(), to, n) == Some(hops[n as int].0));
            assert(false);
        }
        lemma_walk_prefix(after.links(), to, n, cut as nat);
        lemma_walk_in_larger(after.links(), graph.links(), to, cut as nat);
        let there = walk(after.links(), to, cut as nat)->0;
        assert(there == hops[cut].0);
        lemma_walk_compose(after.links(), to, cut as nat, there, (n - cut) as nat);
        assert(after.links().dom().contains(there));
    }
}

} // verus!
