//! What holds of a runtime whatever is done with it.

use crate::durability::Durability;
use crate::key::{DatabaseKeyIndex, DependencyIndex, IngredientIndex};
use crate::revision::Revision;
use crate::runtime::active_query::{lemma_edges_with, stack_wf, EdgeKind, QueryView};
use crate::runtime::graph_view::{lemma_resolve, GraphView, Recovery};
use crate::runtime::laws::is_less_durable;
use crate::runtime::runtime_view::{
    lemma_entity_wf, lemma_output_wf, lemma_read_wf, lemma_untracked_read_wf, RuntimeView,
};
use crate::runtime::RuntimeId;
use vstd::prelude::*;

verus! {

/// Something that can be done with a runtime and that may change it.
pub enum Step {
    /// The innermost query reads something.
    Read(DependencyIndex, Durability, Revision),
    /// The innermost query reads untracked state. A query that is unwound
    /// because the revision has been cancelled counts as such.
    UntrackedRead,
    /// The innermost query writes something.
    Output(DependencyIndex),
    /// The innermost query creates an entity.
    Entity(IngredientIndex, Revision, u64),
    /// An input is written.
    Write(Durability),
    /// The next revision begins.
    NewRevision,
    /// A query is started.
    Push(DatabaseKeyIndex),
    /// The innermost query ends.
    Pop,
    /// A probe is over: the innermost query goes back to the dependencies that
    /// it had before.
    Restore(QueryView),
    /// A cycle is resolved that forms by blocking on a query of another runtime.
    Resolve(GraphView, DatabaseKeyIndex, RuntimeId, Recovery),
    /// The runtime tries to block on a query of another runtime.
    Block(GraphView, DatabaseKeyIndex, RuntimeId, Recovery),
    /// The runtime resumes after a wait, with the stack that it gets back.
    Resume(Seq<QueryView>),
}

impl RuntimeView {
    /// True if the step can be taken now.
    #[verifier::opaque]
    pub open spec fn allows(self, step: Step) -> bool {
        match step {
            Step::Read(..) | Step::UntrackedRead | Step::Output(_) | Step::Push(_) => self.stack
                is Some,
            Step::Entity(_, _, data_hash) => {
                &&& self.is_executing()
                &&& self.top().next_disambiguator(data_hash).0 < u32::MAX
            },
            Step::Write(_) => true,
            Step::NewRevision => self.current().since_start < usize::MAX,
            Step::Pop => self.is_executing(),
            Step::Restore(earlier) => self.is_executing() && earlier.wf(),
            Step::Resolve(graph, key, other, recovery) => {
                &&& graph.wf()
                &&& self.can_block(graph, key, other, recovery)
                &&& graph.depends_on(other, self.id)
            },
            Step::Block(graph, key, other, recovery) => {
                &&& graph.wf()
                &&& self.can_block(graph, key, other, recovery)
            },
            Step::Resume(stack) => self.stack is None && stack_wf(stack),
        }
    }

    /// The runtime, after the step has been taken.
    #[verifier::opaque]
    pub open spec fn after_step(self, step: Step) -> RuntimeView {
        match step {
            Step::Read(input, durability, changed_at) => self.after_tracked_read(
                input,
                durability,
                changed_at,
            ),
            Step::UntrackedRead => self.after_untracked_read(),
            Step::Output(key) => self.after_output(key),
            Step::Entity(entity_index, reset_at, data_hash) => self.after_entity(
                entity_index,
                reset_at,
                data_hash,
            ),
            Step::Write(durability) => self.after_write(durability),
            Step::NewRevision => self.after_new_revision(),
            Step::Push(key) => self.after_push(key),
            Step::Pop => self.after_pop(),
            Step::Restore(earlier) => self.with_top(self.top().with_dependencies_of(earlier)),
            Step::Resolve(graph, key, other, recovery) => self.with_stack(
                graph.resolve(self.id, self.stack->0, key, other, recovery).stack,
            ),
            Step::Block(graph, key, other, recovery) => self.block_step(
                graph,
                key,
                other,
                recovery,
            ).runtime,
            Step::Resume(stack) => self.with_stack(stack),
        }
    }

    /// The runtime, after the first `n` of the steps have been taken.
    pub open spec fn after_steps(self, steps: Seq<Step>, n: nat) -> RuntimeView
        decreases n,
    {
        if n == 0 {
            self
        } else {
            self.after_steps(steps, (n - 1) as nat).after_step(steps[n - 1])
        }
    }

    /// True if each of the steps can be taken when its turn comes.
    pub open spec fn allows_all(self, steps: Seq<Step>) -> bool {
        forall|k: int|
            0 <= k < steps.len() ==> self.after_steps(steps, k as nat).allows(#[trigger] steps[k])
    }
}

/// How many of the first `n` steps begin a revision.
pub open spec fn new_revisions(steps: Seq<Step>, n: nat) -> nat
    decreases n,
{
    if n == 0 {
        0
    } else {
        new_revisions(steps, (n - 1) as nat) + if steps[n - 1] is NewRevision {
            1nat
        } else {
            0nat
        }
    }
}

/// Whatever is done with a runtime, it stays what a runtime has to be. What it
/// shares with other threads, and who it is, stay the same.
pub proof fn law_step_keeps_invariant(runtime: RuntimeView, step: Step)
    requires
        runtime.wf(),
        runtime.allows(step),
    ensures
        runtime.after_step(step).wf(),
        runtime.after_step(step).id == runtime.id,
        runtime.after_step(step).next_id == runtime.next_id,
        runtime.after_step(step).flag == runtime.flag,
        runtime.after_step(step).lock == runtime.lock,
{
    reveal(RuntimeView::allows);
    reveal(RuntimeView::after_step);
    match step {
        Step::Read(input, durability, changed_at) => {
            lemma_read_wf(runtime, input, durability, changed_at);
        },
        Step::UntrackedRead => {
            lemma_untracked_read_wf(runtime);
        },
        Step::Output(key) => {
            lemma_output_wf(runtime, key);
        },
        Step::Entity(entity_index, reset_at, data_hash) => {
            lemma_entity_wf(runtime, entity_index, reset_at, data_hash);
        },
        Step::Resolve(graph, key, other, recovery) | Step::Block(graph, key, other, recovery) => {
            if graph.depends_on(other, runtime.id) {
                lemma_resolve(graph, runtime.id, runtime.stack->0, key, other, recovery);
            }
        },
        _ => {},
    }
}

/// What a step does to the revisions and to the flag.
proof fn lemma_step_on_revisions(runtime: RuntimeView, step: Step)
    ensures
        ({
            let after = runtime.after_step(step);
            &&& after.flag == runtime.flag
            &&& step is NewRevision ==> after == runtime.after_new_revision()
            &&& !(step is NewRevision) ==> after.cleared == runtime.cleared
            &&& step matches Step::Write(written) ==> after == runtime.after_write(written)
            &&& !(step is NewRevision) && !(step is Write) ==> after.revisions
                == runtime.revisions
        }),
{
    reveal(RuntimeView::after_step);
}

/// Only a new revision changes the current revision, and each one takes it one
/// further: after any steps, the current revision is as many revisions after
/// the one before them as new revisions have begun meanwhile. So it never goes
/// back.
pub proof fn law_current_revision_counts(
    runtime: RuntimeView,
    steps: Seq<Step>,
    before: nat,
    after: nat,
)
    requires
        runtime.wf(),
        runtime.allows_all(steps),
        before <= after <= steps.len(),
    ensures
        runtime.after_steps(steps, after).current().since_start == runtime.after_steps(
            steps,
            before,
        ).current().since_start + new_revisions(steps, after) - new_revisions(steps, before),
        runtime.after_steps(steps, after).current().since_start >= runtime.after_steps(
            steps,
            before,
        ).current().since_start,
        runtime.after_steps(steps, after).wf(),
    decreases after,
{
    if after > before {
        law_current_revision_counts(runtime, steps, before, (after - 1) as nat);
        let earlier = runtime.after_steps(steps, (after - 1) as nat);
        assert(earlier.allows(steps[after - 1]));
        law_step_keeps_invariant(earlier, steps[after - 1]);
        lemma_step_on_revisions(earlier, steps[after - 1]);
        if steps[after - 1] is NewRevision {
            reveal(RuntimeView::allows);
        }
    } else if after > 0 {
        law_current_revision_counts(runtime, steps, (before - 1) as nat, (after - 1) as nat);
        let earlier = runtime.after_steps(steps, (after - 1) as nat);
        assert(earlier.allows(steps[after - 1]));
        law_step_keeps_invariant(earlier, steps[after - 1]);
        lemma_step_on_revisions(earlier, steps[after - 1]);
        if steps[after - 1] is NewRevision {
            reveal(RuntimeView::allows);
        }
    }
}

/// Only a new revision clears the cancellation flag, and each one clears it once.
/// So a revision that has been cancelled stays cancelled until the next one
/// begins: neither a check, whether or not it unwinds, nor anything else that
/// is done with the runtime in between stores `false` into the flag. The flag is
/// the same cell all along.
pub proof fn law_only_new_revisions_clear_the_flag(
    runtime: RuntimeView,
    steps: Seq<Step>,
    before: nat,
    after: nat,
)
    requires
        before <= after <= steps.len(),
    ensures
        runtime.after_steps(steps, after).cleared == runtime.after_steps(steps, before).cleared
            + new_revisions(steps, after) - new_revisions(steps, before),
        runtime.after_steps(steps, after).flag == runtime.after_steps(steps, before).flag,
        (forall|k: int| before <= k < after ==> !((#[trigger] steps[k]) is NewRevision))
            ==> runtime.after_steps(steps, after).cleared == runtime.after_steps(
            steps,
            before,
        ).cleared,
    decreases after,
{
    if after > before {
        law_only_new_revisions_clear_the_flag(runtime, steps, before, (after - 1) as nat);
        lemma_step_on_revisions(
            runtime.after_steps(steps, (after - 1) as nat),
            steps[after - 1],
        );
    }
}

/// A runtime that starts in the first revision is in the first revision,
/// advanced once for each new revision, whatever else has been done with it.
pub proof fn law_current_revision_of_fresh(runtime: RuntimeView, steps: Seq<Step>)
    requires
        runtime.wf(),
        runtime.current() == Revision::spec_start(),
        runtime.allows_all(steps),
    ensures
        runtime.after_steps(steps, steps.len()).current().since_start
            == Revision::spec_start().since_start + new_revisions(steps, steps.len()),
{
    law_current_revision_counts(runtime, steps, 0, steps.len());
}

/// The query at position `depth` of the stack, after the first `n` steps; while
/// the runtime is blocked, as it was when the runtime blocked.
pub open spec fn query_at(runtime: RuntimeView, steps: Seq<Step>, depth: int, n: nat) -> QueryView
    decreases n,
{
    let now = runtime.after_steps(steps, n);
    if now.stack is Some || n == 0 {
        now.stack->0[depth]
    } else {
        query_at(runtime, steps, depth, (n - 1) as nat)
    }
}

/// True if the query at position `depth` of the stack is being executed all
/// along: it is never ended, and whenever the runtime resumes after a wait, the
/// query comes back with the disambiguators that it had.
pub open spec fn executes_all_along(runtime: RuntimeView, steps: Seq<Step>, depth: int) -> bool {
    &&& runtime.stack is Some
    &&& 0 <= depth < runtime.stack->0.len()
    &&& forall|k: int|
        0 <= k < steps.len() ==> ({
            let next = runtime.after_steps(steps, (k + 1) as nat);
            &&& next.stack is Some ==> depth < next.stack->0.len()
            &&& (#[trigger] steps[k]) matches Step::Resume(stack) ==> stack[depth].disambiguators
                == query_at(runtime, steps, depth, k as nat).disambiguators
        })
}

/// True if step `k` creates an entity from data with the given hash, in the query
/// at position `depth` of the stack.
pub open spec fn creates(
    runtime: RuntimeView,
    steps: Seq<Step>,
    depth: int,
    k: int,
    hash: u64,
) -> bool {
    &&& 0 <= k < steps.len()
    &&& steps[k] matches Step::Entity(_, _, data_hash) && data_hash == hash
    &&& runtime.after_steps(steps, k as nat).stack->0.len() == depth + 1
}

/// The disambiguator that the entity of step `k` gets.
pub open spec fn disambiguator_of(
    runtime: RuntimeView,
    steps: Seq<Step>,
    k: int,
    hash: u64,
) -> u32 {
    runtime.after_steps(steps, k as nat).top().next_disambiguator(hash).0
}

/// Entities that one execution of a query creates from data with the same hash
/// get different disambiguators, later ones larger ones, whatever else is done
/// in between.
pub proof fn law_disambiguators_are_unique(
    runtime: RuntimeView,
    steps: Seq<Step>,
    depth: int,
    i: int,
    j: int,
    hash: u64,
)
    requires
        runtime.wf(),
        runtime.allows_all(steps),
        executes_all_along(runtime, steps, depth),
        i < j,
        creates(runtime, steps, depth, i, hash),
        creates(runtime, steps, depth, j, hash),
    ensures
        disambiguator_of(runtime, steps, i, hash) < disambiguator_of(runtime, steps, j, hash),
{
    lemma_disambiguator_grows(runtime, steps, depth, i, hash);
    lemma_disambiguators_never_shrink(runtime, steps, depth, i + 1, j, hash);
    lemma_step_creates(runtime.after_steps(steps, i as nat), steps[i]);
    lemma_step_creates(runtime.after_steps(steps, j as nat), steps[j]);
}

/// An entity changes the disambiguator that comes next for its own hash only.
pub proof fn law_disambiguators_are_per_hash(
    runtime: RuntimeView,
    entity_index: IngredientIndex,
    reset_at: Revision,
    data_hash: u64,
    other: u64,
)
    requires
        runtime.is_executing(),
        other != data_hash,
    ensures
        runtime.after_entity(entity_index, reset_at, data_hash).top().next_disambiguator(other)
            == runtime.top().next_disambiguator(other),
{
}

/// A step changes the disambiguators of a query only if it creates an entity in
/// this very query.
proof fn lemma_step_on_disambiguators(runtime: RuntimeView, step: Step, depth: int)
    requires
        runtime.allows(step),
        runtime.stack is Some,
        0 <= depth < runtime.stack->0.len(),
        runtime.after_step(step).stack is Some,
        depth < runtime.after_step(step).stack->0.len(),
    ensures
        ({
            let now = runtime.stack->0[depth];
            let next = runtime.after_step(step).stack->0[depth];
            match step {
                Step::Entity(_, _, data_hash) if runtime.stack->0.len() == depth + 1 =>
                    next.disambiguators == now.with_entity(data_hash).disambiguators,
                _ => next.disambiguators == now.disambiguators,
            }
        }),
{
    reveal(RuntimeView::allows);
    reveal(RuntimeView::after_step);
}

/// A blocked runtime stays blocked until it resumes.
proof fn lemma_step_while_blocked(runtime: RuntimeView, step: Step)
    requires
        runtime.allows(step),
        runtime.stack is None,
    ensures
        !(step is Entity),
        match step {
            Step::Resume(stack) => runtime.after_step(step).stack == Some(stack),
            _ => runtime.after_step(step).stack is None,
        },
{
    reveal(RuntimeView::allows);
    reveal(RuntimeView::after_step);
}

/// Creating an entity needs a disambiguator that is left.
proof fn lemma_step_creates(runtime: RuntimeView, step: Step)
    requires
        runtime.allows(step),
        step is Entity,
    ensures
        runtime.is_executing(),
        runtime.after_step(step).is_executing(),
        step matches Step::Entity(_, _, hash) ==> runtime.top().next_disambiguator(hash).0
            < u32::MAX,
{
    reveal(RuntimeView::allows);
    reveal(RuntimeView::after_step);
}

/// No step makes the disambiguator that comes next smaller. One that creates an
/// entity makes it larger.
proof fn lemma_disambiguator_grows(
    runtime: RuntimeView,
    steps: Seq<Step>,
    depth: int,
    k: int,
    hash: u64,
)
    requires
        runtime.allows_all(steps),
        executes_all_along(runtime, steps, depth),
        0 <= k < steps.len(),
    ensures
        ({
            let now = query_at(runtime, steps, depth, k as nat).next_disambiguator(hash).0;
            let next = query_at(runtime, steps, depth, (k + 1) as nat).next_disambiguator(hash).0;
            &&& now <= next
            &&& creates(runtime, steps, depth, k, hash) ==> now < next
        }),
{
    let now = runtime.after_steps(steps, k as nat);
    let next = runtime.after_steps(steps, (k + 1) as nat);
    let step = steps[k];
    assert(now.allows(step));
    assert(next == now.after_step(step));
    if step is Entity {
        lemma_step_creates(now, step);
    }
    if now.stack is None {
        lemma_step_while_blocked(now, step);
    } else {
        assert(depth < now.stack->0.len()) by {
            if k > 0 {
                let last = steps[k - 1];
            }
        }
        if next.stack is Some {
            lemma_step_on_disambiguators(now, step, depth);
        }
    }
}

/// The disambiguator that comes next never gets smaller.
proof fn lemma_disambiguators_never_shrink(
    runtime: RuntimeView,
    steps: Seq<Step>,
    depth: int,
    i: int,
    j: int,
    hash: u64,
)
    requires
        runtime.allows_all(steps),
        executes_all_along(runtime, steps, depth),
        0 <= i <= j <= steps.len(),
    ensures
        query_at(runtime, steps, depth, i as nat).next_disambiguator(hash).0 <= query_at(
            runtime,
            steps,
            depth,
            j as nat,
        ).next_disambiguator(hash).0,
    decreases j - i,
{
    if i < j {
        lemma_disambiguators_never_shrink(runtime, steps, depth, i, j - 1, hash);
        lemma_disambiguator_grows(runtime, steps, depth, j - 1, hash);
    }
}

/// The last of the first `n` steps that writes an input at least as durable as
/// `durability`, if there is one.
pub open spec fn latest_write(steps: Seq<Step>, durability: Durability, n: nat) -> Option<int>
    decreases n,
{
    if n == 0 {
        None
    } else {
        match steps[n - 1] {
            Step::Write(written) if written.spec_index() >= durability.spec_index() => Some(n - 1),
            _ => latest_write(steps, durability, (n - 1) as nat),
        }
    }
}

/// Something above the lowest durability changed last when something at least
/// as durable was written last: in what was the current revision then. Before
/// the first such write, the last change is the one that the runtime began with;
/// for a fresh runtime that is the first revision.
pub proof fn law_last_change_is_latest_write(
    runtime: RuntimeView,
    steps: Seq<Step>,
    durability: Durability,
    n: nat,
)
    requires
        runtime.wf(),
        runtime.allows_all(steps),
        durability != Durability::Low,
        n <= steps.len(),
    ensures
        runtime.after_steps(steps, n).last_changed(durability) == (match latest_write(
            steps,
            durability,
            n,
        ) {
            Some(k) => runtime.after_steps(steps, k as nat).current(),
            None => runtime.last_changed(durability),
        }),
        latest_write(steps, durability, n) matches Some(k) ==> 0 <= k < n,
    decreases n,
{
    if n > 0 {
        law_last_change_is_latest_write(runtime, steps, durability, (n - 1) as nat);
        law_current_revision_counts(runtime, steps, 0, (n - 1) as nat);
        lemma_step_on_revisions(runtime.after_steps(steps, (n - 1) as nat), steps[n - 1]);
    }
}

/// True of the steps that do nothing to a query but what it does itself: reads,
/// writes and creations, the beginning and the end of queries, and what happens
/// to inputs and revisions. Probes, cycles and waits are no such steps.
pub open spec fn is_plain(step: Step) -> bool {
    match step {
        Step::Read(..) | Step::UntrackedRead | Step::Output(_) | Step::Entity(..)
        | Step::Write(_) | Step::NewRevision | Step::Push(_) | Step::Pop => true,
        Step::Restore(_) | Step::Resolve(..) | Step::Block(..) | Step::Resume(_) => false,
    }
}

/// True if there is a query at position `depth` of the stack, before the first
/// step and after each of them.
pub open spec fn stays_on_stack(runtime: RuntimeView, steps: Seq<Step>, depth: int) -> bool {
    forall|n: nat|
        n <= steps.len() ==> {
            let now = #[trigger] runtime.after_steps(steps, n);
            now.stack is Some && 0 <= depth < now.stack->0.len()
        }
}

/// True if step `k` writes `key` while the query at position `depth` of the stack
/// is the innermost one.
pub open spec fn records(
    runtime: RuntimeView,
    steps: Seq<Step>,
    depth: int,
    k: int,
    key: DependencyIndex,
) -> bool {
    steps[k] == Step::Output(key) && runtime.after_steps(steps, k as nat).stack->0.len() == depth
        + 1
}

/// The outputs of a query are exactly those that it had before, and those that
/// were written while it was the innermost query. A query that has just been
/// started had none before.
pub proof fn law_outputs_are_those_recorded(
    runtime: RuntimeView,
    steps: Seq<Step>,
    depth: int,
    key: DependencyIndex,
    n: nat,
)
    requires
        runtime.allows_all(steps),
        stays_on_stack(runtime, steps, depth),
        forall|k: int| 0 <= k < steps.len() ==> is_plain(#[trigger] steps[k]),
        n <= steps.len(),
    ensures
        runtime.after_steps(steps, n).stack->0[depth].has_output(key) <==> (
        runtime.stack->0[depth].has_output(key) || exists|k: int|
            0 <= k < n && #[trigger] records(runtime, steps, depth, k, key)),
        forall|query: DatabaseKeyIndex| !(#[trigger] QueryView::fresh(query)).has_output(key),
    decreases n,
{
    assert(runtime.after_steps(steps, 0) == runtime);
    if n > 0 {
        law_outputs_are_those_recorded(runtime, steps, depth, key, (n - 1) as nat);
        let now = runtime.after_steps(steps, (n - 1) as nat);
        let next = runtime.after_steps(steps, n);
        let step = steps[n - 1];
        assert(now.allows(step));
        assert(is_plain(step));
        assert(next == now.after_step(step));
        lemma_step_on_outputs(now, step, depth, key);
        if next.stack->0[depth].has_output(key) && !now.stack->0[depth].has_output(key) {
            assert(records(runtime, steps, depth, n - 1, key));
        }
        if exists|k: int| 0 <= k < n && #[trigger] records(runtime, steps, depth, k, key) {
            let k = choose|k: int| 0 <= k < n && #[trigger] records(runtime, steps, depth, k, key);
            if k < n - 1 {
                assert(now.stack->0[depth].has_output(key));
            }
        }
    }
}

/// What a plain step does to the outputs of a query.
proof fn lemma_step_on_outputs(
    runtime: RuntimeView,
    step: Step,
    depth: int,
    key: DependencyIndex,
)
    requires
        runtime.allows(step),
        is_plain(step),
        runtime.stack is Some,
        0 <= depth < runtime.stack->0.len(),
        runtime.after_step(step).stack is Some,
        depth < runtime.after_step(step).stack->0.len(),
    ensures
        runtime.after_step(step).stack->0[depth].has_output(key) <==> (
        runtime.stack->0[depth].has_output(key) || (step == Step::Output(key)
            && runtime.stack->0.len() == depth + 1)),
{
    reveal(RuntimeView::allows);
    reveal(RuntimeView::after_step);
    let edges = runtime.top().edges;
    assert(runtime.top() == runtime.stack->0[runtime.stack->0.len() - 1]);
    match step {
        Step::Read(input, _, _) => {
            lemma_edges_with(edges, (EdgeKind::Input, input));
        },
        Step::Output(output) => {
            lemma_edges_with(edges, (EdgeKind::Output, output));
        },
        Step::Entity(entity_index, _, _) => {
            lemma_edges_with(
                edges,
                (EdgeKind::Input, DependencyIndex::spec_for_table(entity_index)),
            );
        },
        _ => {},
    }
}

/// True if step `k` reads `input` while the query at position `depth` of the stack
/// is the innermost one. Creating an entity reads its table.
pub open spec fn takes_in(
    runtime: RuntimeView,
    steps: Seq<Step>,
    depth: int,
    k: int,
    input: DependencyIndex,
) -> bool {
    &&& runtime.after_steps(steps, k as nat).stack->0.len() == depth + 1
    &&& match steps[k] {
        Step::Read(read, _, _) => read == input,
        Step::Entity(entity_index, _, _) => input == (DependencyIndex {
            ingredient_index: entity_index,
            key_index: None,
        }),
        _ => false,
    }
}

/// True if `query` has the read of `input` among its edges.
pub open spec fn has_input(query: QueryView, input: DependencyIndex) -> bool {
    query.edges.contains((EdgeKind::Input, input))
}

/// The reads of a query are exactly those that it had before, and those that
/// were made while it was the innermost query, whatever the durability of what
/// was read.
pub proof fn law_inputs_are_those_read(
    runtime: RuntimeView,
    steps: Seq<Step>,
    depth: int,
    input: DependencyIndex,
    n: nat,
)
    requires
        runtime.allows_all(steps),
        stays_on_stack(runtime, steps, depth),
        forall|k: int| 0 <= k < steps.len() ==> is_plain(#[trigger] steps[k]),
        n <= steps.len(),
    ensures
        has_input(runtime.after_steps(steps, n).stack->0[depth], input) <==> (has_input(
            runtime.stack->0[depth],
            input,
        ) || exists|k: int| 0 <= k < n && #[trigger] takes_in(runtime, steps, depth, k, input)),
    decreases n,
{
    assert(runtime.after_steps(steps, 0) == runtime);
    if n > 0 {
        law_inputs_are_those_read(runtime, steps, depth, input, (n - 1) as nat);
        let now = runtime.after_steps(steps, (n - 1) as nat);
        let next = runtime.after_steps(steps, n);
        let had = has_input(now.stack->0[depth], input);
        let has = has_input(next.stack->0[depth], input);
        let step = steps[n - 1];
        assert(has <==> had || takes_in(runtime, steps, depth, n - 1, input)) by {
            assert(now.allows(step));
            assert(is_plain(step));
            assert(next == now.after_step(step));
            assert(next.stack is Some && depth < next.stack->0.len());
            lemma_step_on_inputs(now, step, depth, input);
        }
        if has && !had {
            assert(takes_in(runtime, steps, depth, n - 1, input));
        }
        if has && had && !has_input(runtime.stack->0[depth], input) {
            let k = choose|k: int|
                0 <= k < n - 1 && #[trigger] takes_in(runtime, steps, depth, k, input);
            assert(0 <= k < n && takes_in(runtime, steps, depth, k, input));
        }
        if exists|k: int| 0 <= k < n && #[trigger] takes_in(runtime, steps, depth, k, input) {
            let k = choose|k: int|
                0 <= k < n && #[trigger] takes_in(runtime, steps, depth, k, input);
            if k < n - 1 {
                assert(had);
            }
        }
    }
}

/// What a plain step does to the reads of a query.
proof fn lemma_step_on_inputs(
    runtime: RuntimeView,
    step: Step,
    depth: int,
    input: DependencyIndex,
)
    requires
        runtime.allows(step),
        is_plain(step),
        runtime.stack is Some,
        0 <= depth < runtime.stack->0.len(),
        runtime.after_step(step).stack is Some,
        depth < runtime.after_step(step).stack->0.len(),
    ensures
        has_input(runtime.after_step(step).stack->0[depth], input) <==> (has_input(
            runtime.stack->0[depth],
            input,
        ) || (runtime.stack->0.len() == depth + 1 && match step {
            Step::Read(read, _, _) => read == input,
            Step::Entity(entity_index, _, _) => input == (DependencyIndex {
                ingredient_index: entity_index,
                key_index: None,
            }),
            _ => false,
        })),
{
    reveal(RuntimeView::allows);
    reveal(RuntimeView::after_step);
    let edges = runtime.top().edges;
    assert(runtime.top() == runtime.stack->0[runtime.stack->0.len() - 1]);
    match step {
        Step::Read(read, _, _) => {
            lemma_edges_with(edges, (EdgeKind::Input, read));
        },
        Step::Output(output) => {
            lemma_edges_with(edges, (EdgeKind::Output, output));
        },
        Step::Entity(entity_index, _, _) => {
            lemma_edges_with(
                edges,
                (EdgeKind::Input, DependencyIndex::spec_for_table(entity_index)),
            );
        },
        _ => {},
    }
}

/// A query is never more durable than anything that was read while it was the
/// innermost query, and if it has read no untracked state meanwhile, it never
/// counts as changed before any of that.
pub proof fn law_stamp_covers_all_reads(
    runtime: RuntimeView,
    steps: Seq<Step>,
    depth: int,
    k: int,
    n: nat,
)
    requires
        runtime.allows_all(steps),
        stays_on_stack(runtime, steps, depth),
        forall|k: int| 0 <= k < steps.len() ==> is_plain(#[trigger] steps[k]),
        0 <= k < n <= steps.len(),
        steps[k] is Read,
        runtime.after_steps(steps, k as nat).stack->0.len() == depth + 1,
    ensures
        ({
            let query = runtime.after_steps(steps, n).stack->0[depth];
            &&& steps[k] matches Step::Read(_, durability, changed_at) ==> {
                &&& !is_less_durable(durability, query.durability)
                &&& (forall|j: int| 0 <= j < steps.len() ==> !((#[trigger] steps[j])
                    is UntrackedRead)) ==> changed_at.since_start <= query.changed_at.since_start
            }
        }),
    decreases n,
{
    let now = runtime.after_steps(steps, (n - 1) as nat);
    let next = runtime.after_steps(steps, n);
    let step = steps[n - 1];
    assert(now.allows(step));
    assert(is_plain(step));
    assert(next == now.after_step(step));
    assert(next.stack is Some && depth < next.stack->0.len());
    lemma_step_on_stamp(now, step, depth);
    if k < n - 1 {
        law_stamp_covers_all_reads(runtime, steps, depth, k, (n - 1) as nat);
    }
}

/// A plain step makes no query more durable, and changed no earlier unless it is
/// a read of untracked state. A read makes the innermost query cover what is
/// read.
proof fn lemma_step_on_stamp(runtime: RuntimeView, step: Step, depth: int)
    requires
        runtime.allows(step),
        is_plain(step),
        runtime.stack is Some,
        0 <= depth < runtime.stack->0.len(),
        runtime.after_step(step).stack is Some,
        depth < runtime.after_step(step).stack->0.len(),
    ensures
        ({
            let now = runtime.stack->0[depth];
            let next = runtime.after_step(step).stack->0[depth];
            &&& !is_less_durable(now.durability, next.durability)
            &&& !(step is UntrackedRead) ==> now.changed_at.since_start
                <= next.changed_at.since_start
            &&& step matches Step::Read(_, durability, changed_at) ==> (
            runtime.stack->0.len() == depth + 1 ==> !is_less_durable(durability, next.durability)
                && changed_at.since_start <= next.changed_at.since_start)
        }),
{
    reveal(RuntimeView::allows);
    reveal(RuntimeView::after_step);
}

/// A query that is started and ended leaves the queries round it as they were,
/// whatever it and the queries inside of it read, write and create in between,
/// and whatever is probed. The query that ends is the one that was started. If
/// no input is written and no revision begins meanwhile, the runtime is as it
/// was.
pub proof fn law_query_leaves_others_alone(
    runtime: RuntimeView,
    key: DatabaseKeyIndex,
    steps: Seq<Step>,
)
    requires
        runtime.stack is Some,
        runtime.after_push(key).allows_all(steps),
        stays_on_stack(runtime.after_push(key), steps, runtime.stack->0.len() as int),
        forall|k: int|
            0 <= k < steps.len() ==> is_plain(#[trigger] steps[k]) || steps[k] is Restore,
        runtime.after_push(key).after_steps(steps, steps.len()).stack->0.len()
            == runtime.stack->0.len() + 1,
    ensures
        ({
            let end = runtime.after_push(key).after_steps(steps, steps.len());
            &&& end.top().key == key
            &&& end.after_pop() == (RuntimeView {
                revisions: end.revisions,
                cleared: runtime.cleared + new_revisions(steps, steps.len()),
                ..runtime
            })
            &&& (forall|k: int|
                0 <= k < steps.len() ==> !((#[trigger] steps[k]) is Write)
                    && !(steps[k] is NewRevision)) ==> end.after_pop() == runtime
        }),
{
    let depth = runtime.stack->0.len() as int;
    let begin = runtime.after_push(key);
    let end = begin.after_steps(steps, steps.len());
    lemma_others_left_alone(begin, steps, depth, steps.len());
    law_only_new_revisions_clear_the_flag(begin, steps, 0, steps.len());
    assert(end.after_pop().stack->0 =~= runtime.stack->0) by {
        assert forall|i: int| 0 <= i < depth implies end.stack->0[i] == runtime.stack->0[i] by {
            assert(begin.stack->0[i] == runtime.stack->0[i]);
        }
    }
    assert(end.top() == end.stack->0[depth]);
}

/// Plain steps and probes inside of the query at position `depth` leave the
/// queries outside of it alone.
proof fn lemma_others_left_alone(runtime: RuntimeView, steps: Seq<Step>, depth: int, n: nat)
    requires
        runtime.allows_all(steps),
        stays_on_stack(runtime, steps, depth),
        forall|k: int|
            0 <= k < steps.len() ==> is_plain(#[trigger] steps[k]) || steps[k] is Restore,
        n <= steps.len(),
    ensures
        ({
            let after = runtime.after_steps(steps, n);
            &&& forall|i: int|
                0 <= i < depth ==> #[trigger] after.stack->0[i] == runtime.stack->0[i]
            &&& after.stack->0[depth].key == runtime.stack->0[depth].key
            &&& after == (RuntimeView {
                stack: after.stack,
                revisions: after.revisions,
                cleared: after.cleared,
                ..runtime
            })
            &&& (forall|k: int|
                0 <= k < steps.len() ==> !((#[trigger] steps[k]) is Write)
                    && !(steps[k] is NewRevision)) ==> after.revisions == runtime.revisions
        }),
    decreases n,
{
    assert(runtime.after_steps(steps, 0) == runtime);
    if n > 0 {
        lemma_others_left_alone(runtime, steps, depth, (n - 1) as nat);
        let now = runtime.after_steps(steps, (n - 1) as nat);
        let next = runtime.after_steps(steps, n);
        let step = steps[n - 1];
        assert(now.allows(step));
        assert(is_plain(step) || step is Restore);
        assert(next == now.after_step(step));
        lemma_step_leaves_others_alone(now, step, depth);
    }
}

/// One plain step, or a probe, leaves the queries outside of the one at position
/// `depth` alone.
proof fn lemma_step_leaves_others_alone(runtime: RuntimeView, step: Step, depth: int)
    requires
        runtime.allows(step),
        is_plain(step) || step is Restore,
        runtime.stack is Some,
        0 <= depth < runtime.stack->0.len(),
        depth < runtime.after_step(step).stack->0.len(),
    ensures
        ({
            let after = runtime.after_step(step);
            &&& forall|i: int|
                0 <= i < depth ==> #[trigger] after.stack->0[i] == runtime.stack->0[i]
            &&& after.stack->0[depth].key == runtime.stack->0[depth].key
            &&& after == (RuntimeView {
                stack: after.stack,
                revisions: after.revisions,
                cleared: after.cleared,
                ..runtime
            })
            &&& !(step is Write) && !(step is NewRevision) ==> after.revisions == runtime.revisions
        }),
{
    reveal(RuntimeView::allows);
    reveal(RuntimeView::after_step);
}

} // verus!
