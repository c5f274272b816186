//! The graph of runtimes that are blocked on one another.

use crate::cycle::Cycle;
use crate::event::Ingredients;
use crate::key::DatabaseKeyIndex;
use crate::runtime::active_query::{gather, stack_view, stack_wf, ActiveQuery, QueryView};
use crate::runtime::graph_view::{
    lemma_cycle_trail, lemma_mark_hops_frame, lemma_release_hops_frame, marked, participating,
    trail, unmarked, unwound_for, EdgeView, GraphView, Hop, WaitView,
};
use crate::runtime::participants::{
    collect_participants, find_unwound_for, is_unmarked, lemma_gather_append, mark_participants,
    recovery_in,
};
use crate::runtime::waits::{
    lemma_acyclic_smaller, lemma_link_keeps_acyclic, lemma_reaches_next,
    lemma_walk_bounded, lemma_walk_step, reaches, walk,
};
use crate::runtime::{RuntimeId, WaitResult};
use std::collections::HashMap;
use vstd::prelude::*;

verus! {

broadcast use vstd::std_specs::hash::group_hash_axioms;

/// What a blocked runtime waits for.
#[derive(Debug)]
struct Edge {
    blocked_on_id: RuntimeId,
    blocked_on_key: DatabaseKeyIndex,
    stack: Vec<ActiveQuery>,
}

impl Edge {
    spec fn view(&self) -> EdgeView {
        EdgeView {
            blocked_on_id: self.blocked_on_id,
            blocked_on_key: self.blocked_on_key,
            stack: stack_view(self.stack@),
        }
    }
}

/// Who is blocked on whom. Nobody is ever blocked on itself, directly or
/// through others.
#[derive(Debug)]
pub struct DependencyGraph {
    /// For each blocked runtime, by its number, what it waits for.
    edges: HashMap<usize, Edge>,
    /// For each runtime that has been unblocked and has not resumed yet, by its
    /// number, its stack and how its wait ended.
    wait_results: HashMap<usize, (Vec<ActiveQuery>, WaitResult)>,
}

spec fn edges_view(edges: Map<usize, Edge>) -> Map<RuntimeId, EdgeView> {
    Map::new(
        |id: RuntimeId| edges.dom().contains(id.counter),
        |id: RuntimeId| edges[id.counter].view(),
    )
}

spec fn results_view(results: Map<usize, (Vec<ActiveQuery>, WaitResult)>) -> Map<
    RuntimeId,
    (Seq<QueryView>, WaitView),
> {
    Map::new(
        |id: RuntimeId| results.dom().contains(id.counter),
        |id: RuntimeId| (stack_view(results[id.counter].0@), results[id.counter].1@),
    )
}

impl View for DependencyGraph {
    type V = GraphView;

    closed spec fn view(&self) -> GraphView {
        GraphView {
            edges: edges_view(self.edges@),
            results: results_view(self.wait_results@),
        }
    }
}

/// Nobody waits in a graph without edges.
proof fn lemma_no_edges_wf(graph: GraphView)
    requires
        graph.edges == Map::<RuntimeId, EdgeView>::empty(),
        graph.stacks_wf(),
    ensures
        graph.wf(),
{
    assert forall|id: RuntimeId, n: nat| n > 0 implies #[trigger] walk(graph.links(), id, n)
        != Some(id) by {
        reveal_with_fuel(walk, 1);
    }
}

impl Default for DependencyGraph {
    fn default() -> (graph: DependencyGraph)
        ensures
            graph@ == GraphView::empty(),
            graph@.wf(),
    {
        let edges: HashMap<usize, Edge> = HashMap::new();
        let wait_results: HashMap<usize, (Vec<ActiveQuery>, WaitResult)> = HashMap::new();
        proof {
            assert(edges_view(edges@) =~= Map::<RuntimeId, EdgeView>::empty());
            assert(results_view(wait_results@) =~= Map::<
                RuntimeId,
                (Seq<QueryView>, WaitView),
            >::empty());
            lemma_no_edges_wf(GraphView::empty());
        }
        DependencyGraph { edges, wait_results }
    }
}

impl DependencyGraph {
    /// What holds of every dependency graph.
    #[verifier::type_invariant]
    pub open spec fn inv(self) -> bool {
        self@.wf()
    }

    /// Empties the graph and hands out what it held.
    fn take(&mut self) -> (parts: (
        HashMap<usize, Edge>,
        HashMap<usize, (Vec<ActiveQuery>, WaitResult)>,
    ))
        ensures
            parts.0@ == old(self).edges@,
            parts.1@ == old(self).wait_results@,
    {
        proof {
            use_type_invariant(&*self);
            assert(edges_view(Map::empty()) =~= Map::<RuntimeId, EdgeView>::empty());
            lemma_no_edges_wf(
                GraphView {
                    edges: edges_view(Map::empty()),
                    results: results_view(self.wait_results@),
                },
            );
            lemma_no_edges_wf(
                GraphView {
                    edges: edges_view(Map::empty()),
                    results: results_view(Map::empty()),
                },
            );
        }
        let mut edges: HashMap<usize, Edge> = HashMap::new();
        let mut results: HashMap<usize, (Vec<ActiveQuery>, WaitResult)> = HashMap::new();
        std::mem::swap(&mut edges, &mut self.edges);
        std::mem::swap(&mut results, &mut self.wait_results);
        (edges, results)
    }

    /// True if `from_id` is `to_id` or waits for it, directly or through
    /// others.
    pub fn depends_on(&self, from_id: RuntimeId, to_id: RuntimeId) -> (depends: bool)
        ensures
            depends == self@.depends_on(from_id, to_id),
            self@.wf(),
    {
        proof {
            use_type_invariant(self);
        }
        let ghost links = self@.links();
        let ghost mut n: nat = 0;
        let mut p: RuntimeId = from_id;
        while p != to_id
            invariant
                links == self@.links(),
                self@.wf(),
                walk(links, from_id, n) == Some(p),
                reaches(links, from_id, to_id) == reaches(links, p, to_id),
            decreases links.dom().len() + 1 - n,
        {
            assert(links.dom() =~= self@.edges.dom());
            match self.edges.get(&p.counter) {
                Some(edge) => {
                    let q: RuntimeId = edge.blocked_on_id;
                    proof {
                        assert(links[p] == q);
                        lemma_walk_step(links, from_id, n, p);
                        lemma_walk_bounded(links, from_id, n + 1);
                        if reaches(links, p, to_id) {
                            lemma_reaches_next(links, p, to_id);
                        }
                        if reaches(links, q, to_id) {
                            let k = choose|k: nat| #[trigger] walk(links, q, k) == Some(to_id);
                            assert(walk(links, p, k + 1) == Some(to_id));
                        }
                        n = n + 1;
                    }
                    p = q;
                },
                None => {
                    proof {
                        if reaches(links, p, to_id) {
                            lemma_reaches_next(links, p, to_id);
                        }
                    }
                    return false;
                },
            }
        }
        assert(walk(links, p, 0) == Some(to_id));
        true
    }

    /// True if the runtime is running: neither blocked, nor unblocked with a
    /// result that it has not fetched.
    pub fn is_running(&self, id: RuntimeId) -> (running: bool)
        ensures
            running == self@.is_running(id),
    {
        !self.edges.contains_key(&id.counter) && !self.wait_results.contains_key(&id.counter)
    }

    /// Records that the running runtime `from_id`, whose stack is `from_stack`,
    /// is blocked on `database_key`, which `to_id` executes.
    pub fn add_edge(
        &mut self,
        from_id: RuntimeId,
        database_key: DatabaseKeyIndex,
        to_id: RuntimeId,
        from_stack: Vec<ActiveQuery>,
    )
        requires
            old(self)@.is_running(from_id),
            !old(self)@.depends_on(to_id, from_id),
            stack_wf(stack_view(from_stack@)),
        ensures
            final(self)@ == old(self)@.block(
                from_id,
                database_key,
                to_id,
                stack_view(from_stack@),
            ),
            final(self)@.wf(),
    {
        proof {
            use_type_invariant(&*self);
        }
        let ghost before = self@;
        let ghost after = before.block(from_id, database_key, to_id, stack_view(from_stack@));
        let (mut edges, wait_results) = self.take();
        let edge = Edge { blocked_on_id: to_id, blocked_on_key: database_key, stack: from_stack };
        edges.insert(from_id.counter, edge);
        proof {
            assert(edges_view(edges@) =~= after.edges);
            lemma_link_keeps_acyclic(before.links(), from_id, to_id);
            assert(after.links() =~= before.links().insert(from_id, to_id));
        }
        *self = DependencyGraph { edges, wait_results };
    }

    /// Unblocks the runtime `id`.
    fn unblock_runtime(&mut self, id: RuntimeId, wait_result: WaitResult)
        requires
            old(self)@.edges.dom().contains(id),
        ensures
            final(self)@ == old(self)@.unblock(id, wait_result@),
            final(self)@.wf(),
    {
        proof {
            use_type_invariant(&*self);
        }
        let ghost before = self@;
        let ghost after = before.unblock(id, wait_result@);
        let (mut edges, mut wait_results) = self.take();
        let edge: Edge = edges.remove(&id.counter).unwrap();
        wait_results.insert(id.counter, (edge.stack, wait_result));
        proof {
            assert(edges_view(edges@) =~= after.edges);
            assert(results_view(wait_results@) =~= after.results);
            assert(after.links().submap_of(before.links()));
            lemma_acyclic_smaller(after.links(), before.links());
        }
        *self = DependencyGraph { edges, wait_results };
    }

    /// The runtimes that are blocked on `database_key`, each once.
    fn dependents(&self, database_key: DatabaseKeyIndex) -> (ids: Vec<RuntimeId>)
        ensures
            ids@.no_duplicates(),
            ids@.to_set() == self@.blocked_on(database_key),
    {
        let mut counters: Vec<usize> = Vec::new();
        for counter in it: self.edges.keys()
            invariant
                it.seq().no_duplicates(),
                it.seq().unref().to_set() == self.edges@.dom(),
                counters@ == it.seq().unref().take(it.index() as int),
                it.index() == it.seq().len() ==> counters@ == it.seq().unref(),
        {
            counters.push(*counter);
            assert(counters@ =~= it.seq().unref().take(it.index() + 1));
        }
        assert(counters@.no_duplicates());
        let mut ids: Vec<RuntimeId> = Vec::new();
        let mut i: usize = 0;
        while i < counters.len()
            invariant
                i <= counters@.len(),
                counters@.no_duplicates(),
                counters@.to_set() == self.edges@.dom(),
                ids@.no_duplicates(),
                forall|id: RuntimeId| #[trigger]
                    ids@.contains(id) ==> counters@.take(i as int).contains(id.counter)
                        && self@.blocked_on(database_key).contains(id),
                forall|j: int|
                    0 <= j < i && self@.blocked_on(database_key).contains(
                        RuntimeId { counter: #[trigger] counters@[j] },
                    ) ==> ids@.contains(RuntimeId { counter: counters@[j] }),
            decreases counters@.len() - i,
        {
            let counter: usize = counters[i];
            let id = RuntimeId { counter };
            let ghost before = ids@;
            assert(counters@.to_set().contains(counter));
            assert(counters@.take(i + 1) =~= counters@.take(i as int).push(counter));
            assert(!counters@.take(i as int).contains(counter));
            assert(!before.contains(id));
            match self.edges.get(&counter) {
                Some(edge) => {
                    if edge.blocked_on_key == database_key {
                        ids.push(id);
                        assert(ids@[before.len() as int] == id);
                    }
                },
                None => {},
            }
            assert forall|other: RuntimeId| #[trigger] ids@.contains(other) implies counters@.take(
                i + 1,
            ).contains(other.counter) && self@.blocked_on(database_key).contains(other) by {
                if before.contains(other) {
                    let k = choose|k: int|
                        0 <= k < i && counters@.take(i as int)[k] == other.counter;
                    assert(counters@.take(i + 1)[k] == other.counter);
                } else {
                    assert(other == id);
                    assert(counters@.take(i + 1)[i as int] == counter);
                }
            }
            assert forall|j: int|
                0 <= j < i + 1 && self@.blocked_on(database_key).contains(
                    RuntimeId { counter: #[trigger] counters@[j] },
                ) implies ids@.contains(RuntimeId { counter: counters@[j] }) by {
                let other = RuntimeId { counter: counters@[j] };
                if j < i {
                    let k = choose|k: int| 0 <= k < before.len() && before[k] == other;
                    assert(ids@[k] == other);
                }
            }
            i = i + 1;
        }
        assert forall|id: RuntimeId| self@.blocked_on(database_key).contains(
            id,
        ) implies ids@.contains(id) by {
            assert(counters@.to_set().contains(id.counter));
            let j = choose|j: int| 0 <= j < counters@.len() && counters@[j] == id.counter;
            assert(RuntimeId { counter: counters@[j] } == id);
        }
        assert(ids@.to_set() =~= self@.blocked_on(database_key));
        ids
    }

    /// Unblocks all that are blocked on `database_key`, because it has been
    /// computed or cannot be. Gives the runtimes that can go on, each once.
    pub fn unblock_runtimes_blocked_on(
        &mut self,
        database_key: DatabaseKeyIndex,
        wait_result: WaitResult,
    ) -> (unblocked: Vec<RuntimeId>)
        ensures
            final(self)@ == old(self)@.unblock_all(database_key, wait_result@),
            final(self)@.wf(),
            unblocked@.no_duplicates(),
            unblocked@.to_set() == old(self)@.blocked_on(database_key),
    {
        let ids: Vec<RuntimeId> = self.dependents(database_key);
        let ghost before = self@;
        proof {
            use_type_invariant(&*self);
            assert(before =~= before.unblock_set(ids@.take(0).to_set(), wait_result@));
        }
        let mut i: usize = 0;
        while i < ids.len()
            invariant
                i <= ids@.len(),
                ids@.no_duplicates(),
                ids@.to_set() == before.blocked_on(database_key),
                self@ == before.unblock_set(ids@.take(i as int).to_set(), wait_result@),
                self@.wf(),
            decreases ids@.len() - i,
        {
            let ghost done = ids@.take(i as int);
            let id: RuntimeId = ids[i];
            proof {
                assert(ids@.to_set().contains(id));
                assert(!done.contains(id));
                assert(ids@.take(i + 1) =~= done.push(id));
                assert(done.push(id).to_set() =~= done.to_set().insert(id)) by {
                    broadcast use vstd::seq_lib::group_seq_properties;

                }
            }
            self.unblock_runtime(id, wait_result.clone());
            assert(self@ =~= before.unblock_set(ids@.take(i + 1).to_set(), wait_result@));
            i = i + 1;
        }
        assert(ids@.take(i as int) =~= ids@);
        ids
    }

    /// Fetches how the wait of the runtime `id` ended, and its stack, if it has
    /// been unblocked.
    pub fn take_wait_result(&mut self, id: RuntimeId) -> (ended: Option<
        (Vec<ActiveQuery>, WaitResult),
    >)
        ensures
            ended is Some <==> old(self)@.results.dom().contains(id),
            ended matches Some((stack, result)) ==> (stack_view(stack@), result@) == old(
                self,
            )@.results[id],
            final(self)@ == old(self)@.without_result(id),
            final(self)@.wf(),
    {
        proof {
            use_type_invariant(&*self);
        }
        let ghost before = self@;
        let ghost after = before.without_result(id);
        let (edges, mut wait_results) = self.take();
        let ended = wait_results.remove(&id.counter);
        proof {
            assert(results_view(wait_results@) =~= after.results);
            assert(after.links() =~= before.links());
        }
        *self = DependencyGraph { edges, wait_results };
        ended
    }

    /// The stations of the cycle that forms when `from_id` blocks on
    /// `database_key`, which `to_id` executes.
    pub fn cycle_trail(
        &self,
        database_key: DatabaseKeyIndex,
        to_id: RuntimeId,
        from_id: RuntimeId,
    ) -> (hops: Vec<Hop>)
        requires
            self@.depends_on(to_id, from_id),
        ensures
            hops@ == self@.cycle_trail(database_key, to_id, from_id),
    {
        proof {
            use_type_invariant(self);
            lemma_cycle_trail(self@, database_key, to_id, from_id);
        }
        let ghost full = self@.cycle_trail(database_key, to_id, from_id);
        let ghost links = self@.links();
        let ghost mut fuel: nat = self@.edges.dom().len();
        let mut hops: Vec<Hop> = Vec::new();
        let mut id: RuntimeId = to_id;
        let mut key: DatabaseKeyIndex = database_key;
        while id != from_id
            invariant
                self@.wf(),
                links == self@.links(),
                full == hops@ + trail(self@.edges, id, key, from_id, fuel),
                fuel + hops@.len() == self@.edges.dom().len(),
                walk(links, to_id, hops@.len()) == Some(id),
                reaches(links, id, from_id),
            decreases fuel,
        {
            proof {
                assert(links.dom() =~= self@.edges.dom());
                lemma_reaches_next(links, id, from_id);
                lemma_walk_step(links, to_id, hops@.len(), id);
                lemma_walk_bounded(links, to_id, hops@.len() + 1);
            }
            let ghost rest = trail(self@.edges, id, key, from_id, fuel);
            let ghost before = hops@;
            hops.push((id, key));
            match self.edges.get(&id.counter) {
                Some(edge) => {
                    id = edge.blocked_on_id;
                    key = edge.blocked_on_key;
                },
                None => {
                    return hops;
                },
            }
            proof {
                fuel = (fuel - 1) as nat;
                assert(hops@ + trail(self@.edges, id, key, from_id, fuel) =~= before + rest);
            }
        }
        hops.push((id, key));
        assert(hops@ =~= full);
        hops
    }

    /// The stack of the blocked runtime `id`.
    fn stack_of(&self, id: RuntimeId) -> (stack: &Vec<ActiveQuery>)
        requires
            self@.edges.dom().contains(id),
        ensures
            stack_view(stack@) == self@.edges[id].stack,
    {
        &self.edges.get(&id.counter).unwrap().stack
    }

    /// What the participants of a cycle depend on, taken together, and their
    /// keys in the order in which the cycle passes them. `from_stack` is the
    /// stack of the runtime at the last station.
    pub fn collect_cycle(
        &self,
        hops: &Vec<Hop>,
        from_stack: &Vec<ActiveQuery>,
        database_key: DatabaseKeyIndex,
    ) -> (collected: (ActiveQuery, Vec<DatabaseKeyIndex>))
        requires
            forall|i: int|
                0 <= i < hops@.len() - 1 ==> self@.edges.dom().contains((#[trigger] hops@[i]).0),
        ensures
            collected.0@ == gather(
                QueryView::fresh(database_key),
                self@.participants(hops@, stack_view(from_stack@), hops@.len()),
            ),
            collected.1@ == self@.participants(
                hops@,
                stack_view(from_stack@),
                hops@.len(),
            ).map_values(|query: QueryView| query.key),
    {
        let ghost own = stack_view(from_stack@);
        let ghost name = |query: QueryView| query.key;
        let mut cycle_query: ActiveQuery = ActiveQuery::new(database_key);
        let mut keys: Vec<DatabaseKeyIndex> = Vec::new();
        let len: usize = hops.len();
        let mut i: usize = 0;
        assert(keys@ =~= self@.participants(hops@, own, 0).map_values(name));
        while i < len
            invariant
                len == hops@.len(),
                i <= len,
                own == stack_view(from_stack@),
                name == (|query: QueryView| query.key),
                forall|i: int|
                    0 <= i < hops@.len() - 1 ==> self@.edges.dom().contains(
                        (#[trigger] hops@[i]).0,
                    ),
                cycle_query@ == gather(
                    QueryView::fresh(database_key),
                    self@.participants(hops@, own, i as nat),
                ),
                keys@ == self@.participants(hops@, own, i as nat).map_values(name),
            decreases len - i,
        {
            let (id, key) = hops[i];
            let stack: &Vec<ActiveQuery> = if i == len - 1 {
                from_stack
            } else {
                self.stack_of(id)
            };
            let ghost seen = self@.participants(hops@, own, i as nat);
            let ghost part = participating(stack_view(stack@), key);
            collect_participants(stack, key, &mut cycle_query, &mut keys);
            proof {
                assert(self@.participants(hops@, own, (i + 1) as nat) == seen + part);
                lemma_gather_append(QueryView::fresh(database_key), seen, part);
                assert(keys@ =~= (seen + part).map_values(name));
            }
            i = i + 1;
        }
        (cycle_query, keys)
    }

    /// True if the cycle that forms when `from_id`, whose stack is `from_stack`,
    /// blocks on `database_key`, which `to_id` executes, has a participant, and
    /// no query that is to be unwound for it is being unwound already.
    pub fn is_resolvable(
        &self,
        from_id: RuntimeId,
        from_stack: &Vec<ActiveQuery>,
        database_key: DatabaseKeyIndex,
        to_id: RuntimeId,
        ingredients: &Ingredients,
    ) -> (resolvable: bool)
        requires
            self@.depends_on(to_id, from_id),
        ensures
            resolvable == self@.resolvable(
                from_id,
                stack_view(from_stack@),
                database_key,
                to_id,
                recovery_in(*ingredients),
            ),
    {
        let ghost own = stack_view(from_stack@);
        let hops: Vec<Hop> = self.cycle_trail(database_key, to_id, from_id);
        proof {
            use_type_invariant(self);
            lemma_cycle_trail(self@, database_key, to_id, from_id);
        }
        let (_, keys) = self.collect_cycle(&hops, from_stack, database_key);
        if keys.len() == 0 {
            return false;
        }
        let len: usize = hops.len();
        let mut i: usize = 0;
        while i < len
            invariant
                len == hops@.len(),
                i <= len,
                own == stack_view(from_stack@),
                hops@ == self@.cycle_trail(database_key, to_id, from_id),
                forall|i: int|
                    0 <= i < hops@.len() - 1 ==> self@.edges.dom().contains(
                        (#[trigger] hops@[i]).0,
                    ),
                forall|j: int|
                    0 <= j < i ==> unmarked(
                        self@.stack_at(hops@, own, j),
                        (#[trigger] hops@[j]).1,
                        recovery_in(*ingredients),
                    ),
            decreases len - i,
        {
            let (id, key) = hops[i];
            let stack: &Vec<ActiveQuery> = if i == len - 1 {
                from_stack
            } else {
                self.stack_of(id)
            };
            if !is_unmarked(stack, key, ingredients) {
                assert(!unmarked(
                    self@.stack_at(hops@, own, i as int),
                    hops@[i as int].1,
                    recovery_in(*ingredients),
                ));
                return false;
            }
            i = i + 1;
        }
        true
    }

    /// Marks the stack of one blocked runtime.
    fn mark_stack(
        &mut self,
        hop: Hop,
        ingredients: &Ingredients,
        cycle_query: &ActiveQuery,
        cycle: &Cycle,
    )
        requires
            old(self)@.edges.dom().contains(hop.0),
            unmarked(old(self)@.edges[hop.0].stack, hop.1, recovery_in(*ingredients)),
            cycle_query@.wf(),
        ensures
            final(self)@ == old(self)@.with_stack(
                hop.0,
                marked(
                    old(self)@.edges[hop.0].stack,
                    hop.1,
                    recovery_in(*ingredients),
                    cycle_query@,
                    cycle@,
                ),
            ),
            final(self)@.wf(),
    {
        proof {
            use_type_invariant(&*self);
        }
        let (id, key) = hop;
        let ghost before = self@;
        let ghost after = before.with_stack(
            id,
            marked(before.edges[id].stack, key, recovery_in(*ingredients), cycle_query@, cycle@),
        );
        let (mut edges, wait_results) = self.take();
        let mut edge: Edge = edges.remove(&id.counter).unwrap();
        mark_participants(&mut edge.stack, key, ingredients, cycle_query, cycle);
        edges.insert(id.counter, edge);
        proof {
            assert(edges_view(edges@) =~= after.edges);
            assert(after.links() =~= before.links());
            assert(after.edges.dom() =~= before.edges.dom());
        }
        *self = DependencyGraph { edges, wait_results };
    }

    /// Marks the stacks of the blocked runtimes that a cycle passes: of each,
    /// the first participant that can recover and all inside of it.
    pub fn mark_cycle(
        &mut self,
        hops: &Vec<Hop>,
        ingredients: &Ingredients,
        cycle_query: &ActiveQuery,
        cycle: &Cycle,
    )
        requires
            hops@.len() > 0,
            cycle_query@.wf(),
            forall|i: int|
                0 <= i < hops@.len() - 1 ==> old(self)@.edges.dom().contains(
                    (#[trigger] hops@[i]).0,
                ) && unmarked(
                    old(self)@.edges[hops@[i].0].stack,
                    hops@[i].1,
                    recovery_in(*ingredients),
                ),
            forall|i: int, j: int|
                0 <= i < j < hops@.len() ==> (#[trigger] hops@[i]).0 != (#[trigger] hops@[j]).0,
        ensures
            final(self)@ == old(self)@.mark_hops(
                hops@,
                recovery_in(*ingredients),
                cycle_query@,
                cycle@,
                (hops@.len() - 1) as nat,
            ),
            final(self)@.wf(),
    {
        proof {
            use_type_invariant(&*self);
        }
        let ghost before = self@;
        let others: usize = hops.len() - 1;
        let mut i: usize = 0;
        while i < others
            invariant
                i <= others,
                others == hops@.len() - 1,
                cycle_query@.wf(),
                forall|i: int|
                    0 <= i < hops@.len() - 1 ==> before.edges.dom().contains(
                        (#[trigger] hops@[i]).0,
                    ) && unmarked(
                        before.edges[hops@[i].0].stack,
                        hops@[i].1,
                        recovery_in(*ingredients),
                    ),
                forall|i: int, j: int|
                    0 <= i < j < hops@.len() ==> (#[trigger] hops@[i]).0 != (
                    #[trigger] hops@[j]).0,
                self@ == before.mark_hops(
                    hops@,
                    recovery_in(*ingredients),
                    cycle_query@,
                    cycle@,
                    i as nat,
                ),
                self@.wf(),
            decreases others - i,
        {
            proof {
                lemma_mark_hops_frame(
                    before,
                    hops@,
                    recovery_in(*ingredients),
                    cycle_query@,
                    cycle@,
                    i as nat,
                );
                assert(self@.edges[hops@[i as int].0] == before.edges[hops@[i as int].0]);
            }
            self.mark_stack(hops[i], ingredients, cycle_query, cycle);
            i = i + 1;
        }
    }

    /// Unblocks each blocked runtime that a cycle passes and that has a marked
    /// participant, so that it unwinds. `from_stack` is the stack of the
    /// runtime at the last station, which is running.
    ///
    /// Says whether that runtime has a marked participant itself, and whether
    /// another runtime has been unblocked.
    pub fn maybe_unblock_runtimes_in_cycle(
        &mut self,
        hops: &Vec<Hop>,
        from_stack: &Vec<ActiveQuery>,
    ) -> (recovered: (bool, bool))
        requires
            hops@.len() > 0,
            forall|i: int|
                0 <= i < hops@.len() - 1 ==> old(self)@.edges.dom().contains(
                    (#[trigger] hops@[i]).0,
                ),
            forall|i: int, j: int|
                0 <= i < j < hops@.len() ==> (#[trigger] hops@[i]).0 != (#[trigger] hops@[j]).0,
        ensures
            recovered.0 == (unwound_for(stack_view(from_stack@), hops@.last().1) is Some),
            recovered.1 == old(self)@.releases_any(hops@, (hops@.len() - 1) as nat),
            final(self)@ == old(self)@.release_hops(hops@, (hops@.len() - 1) as nat),
            final(self)@.wf(),
    {
        proof {
            use_type_invariant(&*self);
        }
        let ghost before = self@;
        let others: usize = hops.len() - 1;
        let mut others_unblocked: bool = false;
        let mut i: usize = 0;
        while i < others
            invariant
                i <= others,
                others == hops@.len() - 1,
                forall|i: int|
                    0 <= i < hops@.len() - 1 ==> before.edges.dom().contains(
                        (#[trigger] hops@[i]).0,
                    ),
                forall|i: int, j: int|
                    0 <= i < j < hops@.len() ==> (#[trigger] hops@[i]).0 != (
                    #[trigger] hops@[j]).0,
                self@ == before.release_hops(hops@, i as nat),
                self@.wf(),
                others_unblocked == before.releases_any(hops@, i as nat),
            decreases others - i,
        {
            proof {
                lemma_release_hops_frame(before, hops@, i as nat);
                let id = hops@[i as int].0;
                assert(self@.edges.dom().contains(id));
                assert(self@.edges[id] == before.edges[id]);
            }
            let (id, key) = hops[i];
            let unwound: Option<Cycle> = find_unwound_for(self.stack_of(id), key);
            match unwound {
                Some(cycle) => {
                    assert(before.releases(hops@[i as int]));
                    self.unblock_runtime(id, WaitResult::Cycle(cycle));
                    others_unblocked = true;
                },
                None => {
                    assert(!before.releases(hops@[i as int]));
                },
            }
            i = i + 1;
        }
        let (_, last_key) = hops[others];
        let this_unblocked: bool = find_unwound_for(from_stack, last_key).is_some();
        (this_unblocked, others_unblocked)
    }
}

} // verus!
