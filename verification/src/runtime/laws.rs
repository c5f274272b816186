//! Laws of the runtime that span several of its operations.

use crate::durability::Durability;
use crate::event::{
    outcome_view, Cancelled, Database, Event, EventKind, Ingredients, Unwind, UnwindView,
};
use crate::key::{DatabaseKeyIndex, DependencyIndex, IngredientIndex};
use crate::revision::Revision;
use crate::runtime::active_query::{
    edges_with, lemma_edges_with, lemma_edges_with_all, lemma_filter_distinct, reads_one_of,
    ActiveQuery, EdgeKind, QueryView,
};
use crate::runtime::participants::recovery_in;
use crate::runtime::runtime_view::{after_wait, lemma_output_wf, RuntimeView};
use crate::runtime::{RuntimeId, Stamp, StampedValue, WaitResult};
use vstd::prelude::*;

verus! {

/// The stamp with the given parts.
pub open spec fn spec_stamp(durability: Durability, changed_at: Revision) -> Stamp {
    StampedValue { value: (), durability, changed_at }
}

/// In what order stamps are merged into a value, and how often, does not
/// matter, nor whether they are merged with each other first.
pub proof fn law_merge_ignores_order<V, A, B>(
    value: StampedValue<V>,
    a: StampedValue<A>,
    b: StampedValue<B>,
)
    ensures
        value.spec_merge(a).spec_merge(b) == value.spec_merge(b).spec_merge(a),
        value.spec_merge(a).spec_merge(b) == value.spec_merge(a.spec_merge(b)),
        value.spec_merge(a).spec_merge(a) == value.spec_merge(a),
{
}

/// Merging two stamps gives the same stamp either way round.
pub proof fn law_merge_is_symmetric(a: Stamp, b: Stamp)
    ensures
        a.spec_merge(b) == b.spec_merge(a),
{
}

/// What is as durable as can be and has not changed since the first revision
/// changes nothing when it is merged into a value.
pub proof fn law_oldest_stamp_is_neutral<V>(value: StampedValue<V>)
    ensures
        value.spec_merge(spec_stamp(Durability::MAX, Revision::spec_start())) == value,
{
}

/// The stamp of a query is that of all it has read, merged: each read merges
/// the stamp of what is read into it.
pub proof fn law_read_merges_stamps(
    query: QueryView,
    input: DependencyIndex,
    durability: Durability,
    changed_at: Revision,
)
    ensures
        query.with_read(input, durability, changed_at).stamp() == query.stamp().spec_merge(
            spec_stamp(durability, changed_at),
        ),
{
}

/// For the lowest durability the last change is in the current revision. The
/// more durable something is, the longer ago it can have changed last.
pub proof fn law_last_changes_decline(runtime: RuntimeView, lower: Durability, higher: Durability)
    requires
        runtime.wf(),
        lower.spec_index() <= higher.spec_index(),
    ensures
        runtime.last_changed(Durability::Low) == runtime.current(),
        runtime.last_changed(lower).since_start >= runtime.last_changed(higher).since_start,
        runtime.last_changed(higher).since_start <= runtime.current().since_start,
{
}

/// Last changes never go back to an earlier revision, neither by a write nor
/// by a new revision.
pub proof fn law_last_changes_never_go_back(
    runtime: RuntimeView,
    written: Durability,
    durability: Durability,
)
    requires
        runtime.wf(),
        runtime.current().since_start < usize::MAX,
    ensures
        runtime.after_write(written).wf(),
        runtime.after_new_revision().wf(),
        runtime.after_write(written).current() == runtime.current(),
        runtime.after_write(written).last_changed(durability).since_start >= runtime.last_changed(
            durability,
        ).since_start,
        runtime.after_new_revision().last_changed(durability).since_start >= runtime.last_changed(
            durability,
        ).since_start,
        runtime.after_new_revision().current().since_start == runtime.current().since_start + 1,
{
}

/// A write of something durable in a new revision counts as a change of
/// everything as durable or less, and of nothing more durable: that still
/// dates from an earlier revision.
pub proof fn law_write_changes_lower_durabilities(
    runtime: RuntimeView,
    written: Durability,
    durability: Durability,
)
    requires
        runtime.wf(),
        runtime.current().since_start < usize::MAX,
    ensures
        ({
            let after = runtime.after_new_revision().after_write(written);
            if durability.spec_index() <= written.spec_index() {
                after.last_changed(durability) == after.current()
            } else {
                after.last_changed(durability) == runtime.last_changed(durability)
                    && after.last_changed(durability).since_start < after.current().since_start
            }
        }),
{
}

/// A query that has read untracked state is out of date in the next revision:
/// something as durable as it has changed since it did. That holds whatever
/// else it reads in the same revision.
pub proof fn law_untracked_read_is_outdated(
    runtime: RuntimeView,
    input: DependencyIndex,
    durability: Durability,
    changed_at: Revision,
)
    requires
        runtime.wf(),
        runtime.is_executing(),
        runtime.current().since_start < usize::MAX,
        changed_at.since_start <= runtime.current().since_start,
    ensures
        ({
            let read = runtime.after_untracked_read();
            let more = read.after_tracked_read(input, durability, changed_at);
            let next = more.after_new_revision();
            &&& read.top().untracked_read
            &&& more.top().stamp() == read.top().stamp()
            &&& next.top() == more.top()
            &&& next.last_changed(next.top().durability).since_start
                > next.top().changed_at.since_start
        }),
{
}

/// An output is recorded once: the query has it afterwards, in one place only,
/// whether or not it had it before. Recording it again changes nothing, what
/// else the query has written stays as it was, and so does its stamp.
pub proof fn law_output_is_recorded_once(
    runtime: RuntimeView,
    key: DependencyIndex,
    other: DependencyIndex,
)
    requires
        runtime.wf(),
        runtime.is_executing(),
    ensures
        ({
            let after = runtime.after_output(key);
            let edge = (EdgeKind::Output, key);
            &&& after.top().has_output(key)
            &&& forall|i: int, j: int|
                0 <= i < after.top().edges.len() && 0 <= j < after.top().edges.len()
                    && #[trigger] after.top().edges[i] == edge && #[trigger] after.top().edges[j]
                    == edge ==> i == j
            &&& after.after_output(key) == after
            &&& other != key ==> after.top().has_output(other) == runtime.top().has_output(other)
            &&& after.top().key == runtime.top().key
            &&& after.top().stamp() == runtime.top().stamp()
            &&& after.wf()
        }),
{
    let edges = runtime.top().edges;
    let edge = (EdgeKind::Output, key);
    let after = runtime.after_output(key);
    lemma_edges_with(edges, edge);
    lemma_output_wf(runtime, key);
    assert(after.top().edges == edges_with(edges, edge));
    assert(after.top() == after.stack->0[after.stack->0.len() - 1]);
    assert(after.top().wf());
    assert(after.after_output(key).stack->0 =~= after.stack->0);
}

/// No edge of a query ever comes twice: a fresh query has none, and nothing
/// that happens to a query makes one come twice.
pub proof fn law_edges_stay_distinct(
    query: QueryView,
    other: QueryView,
    dependency: DependencyIndex,
    durability: Durability,
    changed_at: Revision,
    keys: Seq<DatabaseKeyIndex>,
)
    requires
        query.wf(),
        other.wf(),
    ensures
        QueryView::fresh(query.key).wf(),
        query.with_read(dependency, durability, changed_at).wf(),
        query.with_untracked_read(changed_at).wf(),
        query.with_output(dependency).wf(),
        query.with_all_from(other).wf(),
        query.without_reads_of(keys).wf(),
        query.with_inputs_of(other).wf(),
{
    lemma_edges_with(query.edges, (EdgeKind::Input, dependency));
    lemma_edges_with(query.edges, (EdgeKind::Output, dependency));
    lemma_edges_with_all(query.edges, other.edges);
    lemma_filter_distinct(
        query.edges,
        |edge: (EdgeKind, DependencyIndex)| !reads_one_of(keys, edge),
    );
}

/// A query that is started and ended again leaves the runtime as it was, and
/// has read and written nothing.
pub proof fn law_push_pop(runtime: RuntimeView, key: DatabaseKeyIndex)
    requires
        runtime.stack is Some,
    ensures
        runtime.after_push(key).is_executing(),
        runtime.after_push(key).top() == QueryView::fresh(key),
        runtime.after_push(key).after_pop() == runtime,
{
    assert(runtime.after_push(key).after_pop().stack->0 =~= runtime.stack->0);
}

/// True if `after` holds what `edges` holds, in the same order, and `edge`: at its
/// end if `edges` did not hold it, and nothing else.
pub open spec fn gains_edge(
    edges: Seq<(EdgeKind, DependencyIndex)>,
    edge: (EdgeKind, DependencyIndex),
    after: Seq<(EdgeKind, DependencyIndex)>,
) -> bool {
    let had = exists|i: int| 0 <= i < edges.len() && #[trigger] edges[i] == edge;
    &&& after.len() == edges.len() + if had {
        0int
    } else {
        1int
    }
    &&& forall|i: int| 0 <= i < edges.len() ==> #[trigger] after[i] == edges[i]
    &&& !had ==> after[after.len() - 1] == edge
}

/// True if `result` is one of `a` and `b`, and neither of them is less durable.
pub open spec fn is_lower_of(result: Durability, a: Durability, b: Durability) -> bool {
    &&& result == a || result == b
    &&& !is_less_durable(a, result)
    &&& !is_less_durable(b, result)
}

/// True if `a` is less durable than `b`.
pub open spec fn is_less_durable(a: Durability, b: Durability) -> bool {
    match (a, b) {
        (Durability::Low, Durability::Medium) => true,
        (Durability::Low, Durability::High) => true,
        (Durability::Medium, Durability::High) => true,
        _ => false,
    }
}

/// True if `result` is one of `a` and `b`, and neither of them is later.
pub open spec fn is_later_of(result: Revision, a: Revision, b: Revision) -> bool {
    &&& result == a || result == b
    &&& result.since_start >= a.since_start
    &&& result.since_start >= b.since_start
}

/// True if the two runtimes differ in their stacks at most.
pub open spec fn same_but_stack(runtime: RuntimeView, after: RuntimeView) -> bool {
    &&& after.id == runtime.id
    &&& after.next_id == runtime.next_id
    &&& after.empty_dependencies == runtime.empty_dependencies
    &&& after.revisions == runtime.revisions
    &&& after.flag == runtime.flag
    &&& after.cleared == runtime.cleared
    &&& after.lock == runtime.lock
}

/// True if the two runtimes execute the same number of queries and differ in the
/// innermost one at most.
pub open spec fn same_but_innermost(runtime: RuntimeView, after: RuntimeView) -> bool {
    &&& same_but_stack(runtime, after)
    &&& runtime.stack is Some
    &&& after.stack is Some
    &&& after.stack->0.len() == runtime.stack->0.len()
    &&& forall|i: int|
        0 <= i < runtime.stack->0.len() - 1 ==> #[trigger] after.stack->0[i]
            == runtime.stack->0[i]
}

/// The query that is innermost on the stack of a runtime.
pub open spec fn innermost(runtime: RuntimeView) -> QueryView {
    runtime.stack->0[runtime.stack->0.len() - 1]
}

/// Durabilities go from low through medium to high, and high is the highest.
/// Their positions say so too.
pub proof fn law_durabilities_are_ordered(a: Durability, b: Durability)
    ensures
        is_less_durable(a, b) <==> a.spec_index() < b.spec_index(),
        0 <= a.spec_index() < Durability::LEN,
        a.spec_index() == b.spec_index() ==> a == b,
        !is_less_durable(Durability::MAX, a),
        is_lower_of(a.spec_min(b), a, b),
{
}

/// No revision comes before the one that a fresh database is in. The later of two
/// revisions is one of them.
pub proof fn law_revisions_begin_at_start(a: Revision, b: Revision)
    ensures
        Revision::spec_start().since_start <= a.since_start,
        is_later_of(a.spec_max(b), a, b),
{
}

/// Merging a stamp into a value leaves the value itself, takes the lower of the
/// durabilities and the later of the revisions.
pub proof fn law_merge_covers_both<V, U>(value: StampedValue<V>, other: StampedValue<U>)
    ensures
        value.spec_merge(other).value == value.value,
        is_lower_of(value.spec_merge(other).durability, value.durability, other.durability),
        is_later_of(value.spec_merge(other).changed_at, value.changed_at, other.changed_at),
{
}

/// The stamp of a query shows its durability and its last change. Its outputs are
/// the edges that are writes.
pub proof fn law_stamp_shows_query(query: QueryView, key: DependencyIndex)
    ensures
        query.stamp().durability == query.durability,
        query.stamp().changed_at == query.changed_at,
        query.has_output(key) <==> exists|i: int|
            0 <= i < query.edges.len() && (#[trigger] query.edges[i]).0 == EdgeKind::Output
                && query.edges[i].1 == key,
{
    let edge = (EdgeKind::Output, key);
    if query.has_output(key) {
        let i = choose|i: int| 0 <= i < query.edges.len() && query.edges[i] == edge;
        assert(query.edges[i].1 == key);
    }
    if exists|i: int|
        0 <= i < query.edges.len() && (#[trigger] query.edges[i]).0 == EdgeKind::Output
            && query.edges[i].1 == key {
        let i = choose|i: int|
            0 <= i < query.edges.len() && (#[trigger] query.edges[i]).0 == EdgeKind::Output
                && query.edges[i].1 == key;
        assert(query.edges[i] == edge);
    }
}

/// The current revision comes first, and then, durability by durability, the last
/// change of each.
pub proof fn law_revisions_are_by_durability(runtime: RuntimeView)
    ensures
        Durability::LEN == 3,
        runtime.current() == runtime.revisions[0],
        runtime.last_changed(Durability::Low) == runtime.revisions[0],
        runtime.last_changed(Durability::Medium) == runtime.revisions[1],
        runtime.last_changed(Durability::High) == runtime.revisions[2],
{
}

/// What ingredients want done about cycles is what they say.
pub proof fn law_strategies_are_those_of_ingredients(
    ingredients: Ingredients,
    index: IngredientIndex,
)
    ensures
        recovery_in(ingredients)(index) == ingredients.recovery_of(index),
{
}

/// A query that has just been started has read and written nothing, takes part
/// in no cycle, has created nothing, and is as durable and as old as can be.
pub proof fn law_fresh_query_has_nothing(key: DatabaseKeyIndex, hash: u64, any: Durability)
    ensures
        QueryView::fresh(key).key == key,
        QueryView::fresh(key).edges.len() == 0,
        !is_less_durable(QueryView::fresh(key).durability, any),
        QueryView::fresh(key).changed_at.since_start == 0,
        !QueryView::fresh(key).untracked_read,
        QueryView::fresh(key).cycle is None,
        QueryView::fresh(key).next_disambiguator(hash).0 == 0,
{
}

/// Adding an edge is what [`gains_edge`] says.
proof fn lemma_gains_edge(
    edges: Seq<(EdgeKind, DependencyIndex)>,
    edge: (EdgeKind, DependencyIndex),
)
    ensures
        gains_edge(edges, edge, edges_with(edges, edge)),
{
    if edges.contains(edge) {
        let i = choose|i: int| 0 <= i < edges.len() && edges[i] == edge;
        assert(edges[i] == edge);
    }
}

/// A read is recorded as an edge, whatever its durability and whatever the query
/// has read before, and every earlier edge stays. The query becomes as durable
/// as the lower of its own durability and that of what is read, and changed when
/// the later of the two changed. Nothing else changes. Where no query is being
/// executed, nothing changes at all.
pub proof fn law_read_is_recorded(
    runtime: RuntimeView,
    input: DependencyIndex,
    durability: Durability,
    changed_at: Revision,
)
    requires
        runtime.stack is Some,
    ensures
        ({
            let after = runtime.after_tracked_read(input, durability, changed_at);
            if runtime.stack->0.len() == 0 {
                after == runtime
            } else {
                let before = innermost(runtime);
                let query = innermost(after);
                &&& same_but_innermost(runtime, after)
                &&& gains_edge(before.edges, (EdgeKind::Input, input), query.edges)
                &&& query.edges.contains((EdgeKind::Input, input))
                &&& is_lower_of(query.durability, before.durability, durability)
                &&& is_later_of(query.changed_at, before.changed_at, changed_at)
                &&& query.key == before.key
                &&& query.untracked_read == before.untracked_read
                &&& query.cycle == before.cycle
                &&& query.disambiguators == before.disambiguators
            }
        }),
{
    if runtime.stack->0.len() > 0 {
        let edge = (EdgeKind::Input, input);
        lemma_gains_edge(innermost(runtime).edges, edge);
        lemma_edges_with(innermost(runtime).edges, edge);
    }
}

/// A read of untracked state makes the query as little durable as can be, changed
/// in the current revision, whatever it had read before. Its edges stay, and
/// nothing else changes. Where no query is being executed, nothing changes at
/// all.
pub proof fn law_untracked_read_is_recorded(runtime: RuntimeView, any: Durability)
    requires
        runtime.stack is Some,
    ensures
        ({
            let after = runtime.after_untracked_read();
            if runtime.stack->0.len() == 0 {
                after == runtime
            } else {
                let before = innermost(runtime);
                let query = innermost(after);
                &&& same_but_innermost(runtime, after)
                &&& query.untracked_read
                &&& !is_less_durable(any, query.durability)
                &&& query.changed_at == runtime.revisions[0]
                &&& query.edges == before.edges
                &&& query.key == before.key
                &&& query.cycle == before.cycle
                &&& query.disambiguators == before.disambiguators
            }
        }),
{
}

/// A write is recorded as an edge, and every earlier edge stays. Nothing else
/// changes. Where no query is being executed, nothing changes at all.
pub proof fn law_output_is_recorded(runtime: RuntimeView, key: DependencyIndex)
    requires
        runtime.stack is Some,
    ensures
        ({
            let after = runtime.after_output(key);
            if runtime.stack->0.len() == 0 {
                after == runtime
            } else {
                let before = innermost(runtime);
                let query = innermost(after);
                &&& same_but_innermost(runtime, after)
                &&& gains_edge(before.edges, (EdgeKind::Output, key), query.edges)
                &&& query.edges.contains((EdgeKind::Output, key))
                &&& query.has_output(key)
                &&& query.durability == before.durability
                &&& query.changed_at == before.changed_at
                &&& query.key == before.key
                &&& query.untracked_read == before.untracked_read
                &&& query.cycle == before.cycle
                &&& query.disambiguators == before.disambiguators
            }
        }),
{
    if runtime.stack->0.len() > 0 {
        let edge = (EdgeKind::Output, key);
        lemma_gains_edge(innermost(runtime).edges, edge);
        lemma_edges_with(innermost(runtime).edges, edge);
    }
}

/// Creating an entity is recorded as a read of its table, whatever the query has
/// read before: every earlier edge stays, and the query is changed when the table
/// was reset, unless it changed later. It stays as durable as it was. The
/// disambiguators of the hash count up by one, those of other hashes stay, and
/// nothing else changes.
pub proof fn law_entity_is_recorded(
    runtime: RuntimeView,
    entity_index: IngredientIndex,
    reset_at: Revision,
    data_hash: u64,
    other: u64,
)
    requires
        runtime.stack is Some,
        runtime.stack->0.len() > 0,
        innermost(runtime).next_disambiguator(data_hash).0 < u32::MAX,
    ensures
        ({
            let after = runtime.after_entity(entity_index, reset_at, data_hash);
            let table = DependencyIndex { ingredient_index: entity_index, key_index: None };
            let before = innermost(runtime);
            let query = innermost(after);
            &&& same_but_innermost(runtime, after)
            &&& gains_edge(before.edges, (EdgeKind::Input, table), query.edges)
            &&& query.edges.contains((EdgeKind::Input, table))
            &&& query.durability == before.durability
            &&& is_later_of(query.changed_at, before.changed_at, reset_at)
            &&& query.stamp() == before.stamp().spec_merge(spec_stamp(Durability::MAX, reset_at))
            &&& query.key == before.key
            &&& query.untracked_read == before.untracked_read
            &&& query.cycle == before.cycle
            &&& query.next_disambiguator(data_hash).0 == before.next_disambiguator(data_hash).0 + 1
            &&& other != data_hash ==> query.next_disambiguator(other)
                == before.next_disambiguator(other)
        }),
{
    let table = DependencyIndex { ingredient_index: entity_index, key_index: None };
    let edge = (EdgeKind::Input, table);
    lemma_gains_edge(innermost(runtime).edges, edge);
    lemma_edges_with(innermost(runtime).edges, edge);
}

/// A query that is started lies inside of those that are being executed, and is
/// the innermost one. Nothing else changes.
pub proof fn law_push_adds_one(runtime: RuntimeView, key: DatabaseKeyIndex)
    requires
        runtime.stack is Some,
    ensures
        ({
            let after = runtime.after_push(key);
            &&& same_but_stack(runtime, after)
            &&& after.stack is Some
            &&& after.stack->0.len() == runtime.stack->0.len() + 1
            &&& forall|i: int|
                0 <= i < runtime.stack->0.len() ==> #[trigger] after.stack->0[i]
                    == runtime.stack->0[i]
            &&& innermost(after).key == key
            &&& innermost(after) == QueryView::fresh(key)
            &&& after.top() == innermost(after)
            &&& after.is_executing()
        }),
{
}

/// When the innermost query ends, those round it stay as they are. Nothing else
/// changes.
pub proof fn law_pop_takes_one(runtime: RuntimeView)
    requires
        runtime.stack is Some,
        runtime.stack->0.len() > 0,
    ensures
        ({
            let after = runtime.after_pop();
            &&& same_but_stack(runtime, after)
            &&& after.stack is Some
            &&& after.stack->0.len() == runtime.stack->0.len() - 1
            &&& forall|i: int|
                0 <= i < after.stack->0.len() ==> #[trigger] after.stack->0[i]
                    == runtime.stack->0[i]
            &&& runtime.top() == innermost(runtime)
        }),
{
}

/// After a probe the innermost query has the dependencies that it had before it:
/// the same edges, durability, last change and untracked reads. All else is as
/// the probe left it.
pub proof fn law_probe_restores_dependencies(runtime: RuntimeView, earlier: QueryView)
    requires
        runtime.stack is Some,
        runtime.stack->0.len() > 0,
    ensures
        ({
            let after = runtime.with_top(runtime.top().with_dependencies_of(earlier));
            let probed = innermost(runtime);
            let query = innermost(after);
            &&& same_but_innermost(runtime, after)
            &&& query.edges == earlier.edges
            &&& query.durability == earlier.durability
            &&& query.changed_at == earlier.changed_at
            &&& query.untracked_read == earlier.untracked_read
            &&& query.key == probed.key
            &&& query.cycle == probed.cycle
            &&& query.disambiguators == probed.disambiguators
        }),
{
}

/// A write of an input makes the current revision the last change of everything
/// as durable or less, and of nothing else. Nothing else changes.
pub proof fn law_write_dates_changes(runtime: RuntimeView, written: Durability, other: Durability)
    requires
        runtime.wf(),
    ensures
        ({
            let after = runtime.after_write(written);
            &&& after.stack == runtime.stack
            &&& after.id == runtime.id
            &&& after.next_id == runtime.next_id
            &&& after.empty_dependencies == runtime.empty_dependencies
            &&& after.flag == runtime.flag
            &&& after.cleared == runtime.cleared
            &&& after.lock == runtime.lock
            &&& after.revisions.len() == runtime.revisions.len()
            &&& after.revisions[0] == runtime.revisions[0]
            &&& after.current() == runtime.current()
            &&& after.last_changed(other) == (if is_less_durable(written, other) {
                runtime.last_changed(other)
            } else {
                runtime.revisions[0]
            })
        }),
{
}

/// A new revision is the one right after the current one. It counts as the last
/// change of what is least durable, and of nothing else. The flag is cleared
/// once. Nothing else changes.
pub proof fn law_new_revision_follows(runtime: RuntimeView, other: Durability)
    requires
        runtime.wf(),
        runtime.current().since_start < usize::MAX,
    ensures
        ({
            let after = runtime.after_new_revision();
            &&& after.stack == runtime.stack
            &&& after.id == runtime.id
            &&& after.next_id == runtime.next_id
            &&& after.empty_dependencies == runtime.empty_dependencies
            &&& after.flag == runtime.flag
            &&& after.cleared == runtime.cleared + 1
            &&& after.lock == runtime.lock
            &&& after.revisions.len() == runtime.revisions.len()
            &&& after.current() == after.revisions[0]
            &&& after.revisions[0].since_start == runtime.revisions[0].since_start + 1
            &&& other != Durability::Low ==> after.last_changed(other) == runtime.last_changed(
                other,
            )
            &&& after.last_changed(Durability::Low) == after.current()
        }),
{
}

/// Events name the runtime that they come from and what it is about to do.
pub proof fn law_events_tell_what_happens(
    runtime: RuntimeView,
    key: DatabaseKeyIndex,
    other: RuntimeId,
)
    ensures
        runtime.will_check_cancellation().runtime_id == runtime.id,
        runtime.will_check_cancellation().kind == EventKind::WillCheckCancellation,
        runtime.will_block_on(key, other).runtime_id == runtime.id,
        runtime.will_block_on(key, other).kind == (EventKind::WillBlockOn {
            other_runtime_id: other,
            database_key: key,
        }),
{
}

/// A database that has been told of events has been told of them after all
/// earlier ones, each has been handled, and the database is otherwise the same.
pub proof fn law_told_events_are_handled<H: Fn(Event)>(
    db: Database<H>,
    earlier: Database<H>,
    events: Seq<Event>,
    i: int,
)
    requires
        db.told_since(earlier, events),
        0 <= i < events.len(),
    ensures
        call_ensures(db.spec_handler(), (events[i],), ()),
        db.told().len() == earlier.told().len() + events.len(),
        db.told()[earlier.told().len() + i] == events[i],
        forall|j: int| 0 <= j < earlier.told().len() ==> #[trigger] db.told()[j]
            == earlier.told()[j],
        db.spec_handler() == earlier.spec_handler(),
        db.spec_ingredients() == earlier.spec_ingredients(),
{
}

/// Outcomes are seen as what they are: nothing to unwind for, or the reason that
/// is given.
pub proof fn law_outcomes_are_seen_through(unwind: Unwind)
    ensures
        outcome_view(Ok(())) is Ok,
        outcome_view(Err(unwind)) == Err::<(), UnwindView>(unwind@),
        unwind matches Unwind::Cancelled(cancelled) ==> unwind@ == UnwindView::Cancelled(cancelled),
        unwind matches Unwind::Cycle(cycle) ==> unwind@ == UnwindView::Cycle(cycle@),
        unwind matches Unwind::UnrecoveredCycle(cycle) ==> unwind@
            == UnwindView::UnrecoveredCycle(cycle@),
{
}

/// How a wait ended decides what the runtime does next, and nothing else does.
pub proof fn law_wait_result_decides(result: WaitResult)
    ensures
        after_wait(result@) == (match result {
            WaitResult::Completed => Ok::<(), UnwindView>(()),
            WaitResult::Panicked => Err(UnwindView::Cancelled(Cancelled::PropagatedPanic)),
            WaitResult::Cycle(cycle) => Err(UnwindView::Cycle(cycle@)),
        }),
{
}

/// The mathematical value of a query shows all that the query holds.
pub proof fn law_query_is_seen_through(query: ActiveQuery)
    ensures
        query@.key == query.database_key_index,
        query@.durability == query.durability,
        query@.changed_at == query.changed_at,
        query@.edges == query.input_outputs@,
        query@.untracked_read == query.untracked_read,
        query@.disambiguators == query.disambiguator_map@,
        query.cycle is None ==> query@.cycle is None,
        query.cycle matches Some(cycle) ==> query@.cycle == Some(cycle@),
{
}

/// What one query takes over from another: every edge of both, and no other; the
/// lower durability, the later change, and untracked reads of either. It stays
/// the same query otherwise.
pub proof fn law_taking_over_covers_both(
    query: QueryView,
    other: QueryView,
    edge: (EdgeKind, DependencyIndex),
)
    ensures
        ({
            let after = query.with_all_from(other);
            &&& after.edges.contains(edge) <==> query.edges.contains(edge)
                || other.edges.contains(edge)
            &&& is_lower_of(after.durability, query.durability, other.durability)
            &&& is_later_of(after.changed_at, query.changed_at, other.changed_at)
            &&& after.untracked_read <==> query.untracked_read || other.untracked_read
            &&& after.key == query.key
            &&& after.cycle == query.cycle
            &&& after.disambiguators == query.disambiguators
        }),
{
    lemma_edges_with_all(query.edges, other.edges);
}

/// A dependency on a table is none on a row, and dependencies on different tables
/// or rows are different.
pub proof fn law_dependencies_are_told_apart(
    table: IngredientIndex,
    other: IngredientIndex,
    key: DatabaseKeyIndex,
    key_too: DatabaseKeyIndex,
)
    ensures
        DependencyIndex::spec_for_table(table).ingredient_index == table,
        DependencyIndex::spec_for_table(table) != DependencyIndex::spec_for_key(key),
        DependencyIndex::spec_for_table(table) == DependencyIndex::spec_for_table(other) <==> table
            == other,
        DependencyIndex::spec_for_key(key) == DependencyIndex::spec_for_key(key_too) <==> key
            == key_too,
        DependencyIndex::spec_for_key(key).ingredient_index == key.ingredient_index,
{
}

/// Keys are totally ordered, by their ingredient first.
pub proof fn law_keys_are_ordered(a: DatabaseKeyIndex, b: DatabaseKeyIndex, c: DatabaseKeyIndex)
    ensures
        !a.spec_precedes(a),
        a.spec_precedes(b) && b.spec_precedes(c) ==> a.spec_precedes(c),
        a == b || a.spec_precedes(b) || b.spec_precedes(a),
        a.ingredient_index.0 < b.ingredient_index.0 ==> a.spec_precedes(b),
        a.ingredient_index == b.ingredient_index && a.key_index.0 < b.key_index.0
            ==> a.spec_precedes(b),
{
}

} // verus!
