//! What becomes of the queries and of the runtimes that a cycle passes, told by
//! what each of them held before.

use crate::cycle::{first_min, from_min, lemma_first_min_exists, CycleRecoveryStrategy};
use crate::event::UnwindView;
use crate::key::{DatabaseKeyIndex, DependencyIndex};
use crate::runtime::active_query::{reads_one_of, EdgeKind, QueryView};
use crate::runtime::graph_laws::{
    kept_stack, law_cycle_query_covers_participants, law_cycle_stamp_is_attained,
    law_recovery_decides, lemma_first_participant, lemma_first_recovering, lemma_mark_hops_at,
    lemma_release_hops_at, lemma_release_hops_keeps, lemma_unreleased_stays, none_marked,
    some_recovers,
};
use crate::runtime::graph_view::{
    first_participant, innermost_mark, lemma_cycle_trail, lemma_mark_hops_frame, lemma_release_hops_frame, marked,
    participating, trail, unwound_for, unwound_from, EdgeView, GraphView, Hop, Recovery,
    WaitView,
};
use crate::runtime::laws::is_less_durable;
use crate::runtime::RuntimeId;
use vstd::prelude::*;

verus! {

/// True if the query at position `p` takes part in a cycle that enters the stack
/// at `entry`: it is the entry itself, or lies inside of it.
pub open spec fn takes_part(stack: Seq<QueryView>, entry: DatabaseKeyIndex, p: int) -> bool {
    0 <= p < stack.len() && exists|q: int| 0 <= q <= p && (#[trigger] stack[q]).key == entry
}

/// True if the query at position `p` is unwound: it takes part in the cycle and
/// can recover, or it lies inside of such a query.
pub open spec fn is_unwound(
    stack: Seq<QueryView>,
    entry: DatabaseKeyIndex,
    recovery: Recovery,
    p: int,
) -> bool {
    0 <= p < stack.len() && exists|r: int|
        r <= p && #[trigger] takes_part(stack, entry, r) && recovery(
            stack[r].key.ingredient_index,
        ) == CycleRecoveryStrategy::Fallback
}

/// True if station `i` of the cycle has a participant at position `p` of its
/// stack.
pub open spec fn is_participant(
    graph: GraphView,
    hops: Seq<Hop>,
    own: Seq<QueryView>,
    i: int,
    p: int,
) -> bool {
    0 <= i < hops.len() && takes_part(graph.stack_at(hops, own, i), hops[i].1, p)
}

/// The participant at position `p` of the stack of station `i`.
pub open spec fn participant(
    graph: GraphView,
    hops: Seq<Hop>,
    own: Seq<QueryView>,
    i: int,
    p: int,
) -> QueryView {
    graph.stack_at(hops, own, i)[p]
}

/// True if `query` depends on what the cycle as a whole depends on: it is as
/// durable as the least durable participant, changed when the last of them
/// changed, and has every edge of a participant but for the reads of
/// participants.
pub open spec fn depends_like_cycle(
    graph: GraphView,
    hops: Seq<Hop>,
    own: Seq<QueryView>,
    query: QueryView,
) -> bool {
    &&& forall|i: int, p: int| #[trigger]
        is_participant(graph, hops, own, i, p) ==> {
            &&& !is_less_durable(
                participant(graph, hops, own, i, p).durability,
                query.durability,
            )
            &&& participant(graph, hops, own, i, p).changed_at.since_start
                <= query.changed_at.since_start
        }
    &&& exists|i: int, p: int| #[trigger]
        is_participant(graph, hops, own, i, p) && participant(graph, hops, own, i, p).durability
            == query.durability
    &&& exists|i: int, p: int| #[trigger]
        is_participant(graph, hops, own, i, p) && participant(graph, hops, own, i, p).changed_at
            == query.changed_at
    &&& forall|edge: (EdgeKind, DependencyIndex)| #[trigger]
        query.edges.contains(edge) <==> is_edge_of_cycle(graph, hops, own, edge)
            && !is_read_within_cycle(graph, hops, own, edge)
}

/// Where the part of a stack begins that takes part in a cycle.
proof fn lemma_takes_part(stack: Seq<QueryView>, entry: DatabaseKeyIndex, from: nat)
    requires
        from <= stack.len(),
    ensures
        from <= first_participant(stack, entry, from) <= stack.len(),
        forall|q: int|
            from <= q < first_participant(stack, entry, from) ==> (#[trigger] stack[q]).key
                != entry,
        first_participant(stack, entry, from) < stack.len() ==> stack[first_participant(
            stack,
            entry,
            from,
        ) as int].key == entry,
    decreases stack.len() - from,
{
    if from < stack.len() && stack[from as int].key != entry {
        lemma_takes_part(stack, entry, from + 1);
    }
}

/// The queries that take part lie from the first participant on.
proof fn lemma_takes_part_from(stack: Seq<QueryView>, entry: DatabaseKeyIndex, p: int)
    requires
        0 <= p < stack.len(),
    ensures
        takes_part(stack, entry, p) <==> p >= first_participant(stack, entry, 0),
{
    lemma_takes_part(stack, entry, 0);
    let first = first_participant(stack, entry, 0) as int;
    if p >= first {
        assert(stack[first].key == entry);
    }
}

/// The queries that are unwound lie from the first participant on that can
/// recover.
proof fn lemma_is_unwound_from(
    stack: Seq<QueryView>,
    entry: DatabaseKeyIndex,
    recovery: Recovery,
    p: int,
)
    requires
        0 <= p < stack.len(),
    ensures
        is_unwound(stack, entry, recovery, p) <==> p >= unwound_from(stack, entry, recovery),
{
    lemma_first_participant(stack, entry, 0);
    let first = first_participant(stack, entry, 0);
    let start = unwound_from(stack, entry, recovery) as int;
    lemma_first_recovering(stack, recovery, first);
    if p >= start {
        lemma_takes_part_from(stack, entry, start);
        assert(takes_part(stack, entry, start));
    }
    if is_unwound(stack, entry, recovery, p) {
        let r = choose|r: int|
            r <= p && #[trigger] takes_part(stack, entry, r) && recovery(
                stack[r].key.ingredient_index,
            ) == CycleRecoveryStrategy::Fallback;
        lemma_takes_part_from(stack, entry, r);
    }
}

/// True if `query` is one of the participants of the cycle.
pub open spec fn is_of_cycle(
    graph: GraphView,
    hops: Seq<Hop>,
    own: Seq<QueryView>,
    query: QueryView,
) -> bool {
    exists|i: int, p: int| #[trigger]
        is_participant(graph, hops, own, i, p) && participant(graph, hops, own, i, p) == query
}

/// The participants that have been listed are those of the stations.
proof fn lemma_listed_participants(
    graph: GraphView,
    hops: Seq<Hop>,
    own: Seq<QueryView>,
    n: nat,
)
    requires
        n <= hops.len(),
    ensures
        forall|query: QueryView| #[trigger]
            graph.participants(hops, own, n).contains(query) ==> is_of_cycle(
                graph,
                hops,
                own,
                query,
            ),
        forall|i: int, p: int| #[trigger]
            is_participant(graph, hops, own, i, p) && i < n ==> graph.participants(
                hops,
                own,
                n,
            ).contains(participant(graph, hops, own, i, p)),
    decreases n,
{
    if n > 0 {
        lemma_listed_participants(graph, hops, own, (n - 1) as nat);
        let before = graph.participants(hops, own, (n - 1) as nat);
        let all = graph.participants(hops, own, n);
        let last = n - 1;
        let stack = graph.stack_at(hops, own, last);
        let entry = hops[last].1;
        let part = participating(stack, entry);
        let first = first_participant(stack, entry, 0) as int;
        lemma_takes_part(stack, entry, 0);
        assert(all =~= before + part);
        assert forall|query: QueryView| #[trigger] all.contains(query) implies is_of_cycle(
            graph,
            hops,
            own,
            query,
        ) by {
            let k = choose|k: int| 0 <= k < all.len() && all[k] == query;
            if k < before.len() {
                assert(before[k] == query);
                assert(before.contains(query));
            } else {
                let p = k - before.len() + first;
                assert(query == stack[p]);
                lemma_takes_part_from(stack, entry, p);
                assert(is_participant(graph, hops, own, last, p));
                assert(participant(graph, hops, own, last, p) == query);
            }
        }
        assert forall|i: int, p: int| #[trigger]
            is_participant(graph, hops, own, i, p) && i < n implies all.contains(
            participant(graph, hops, own, i, p),
        ) by {
            let query = participant(graph, hops, own, i, p);
            if i < last {
                assert(before.contains(query));
                let k = choose|k: int| 0 <= k < before.len() && before[k] == query;
                assert(all[k] == query);
            } else {
                lemma_takes_part_from(stack, entry, p);
                let k = before.len() + p - first;
                assert(all[k] == query);
            }
        }
    }
}

/// True if `key` is the key of one of the participants of the cycle.
pub open spec fn is_key_of_cycle(
    graph: GraphView,
    hops: Seq<Hop>,
    own: Seq<QueryView>,
    key: DatabaseKeyIndex,
) -> bool {
    exists|i: int, p: int| #[trigger]
        is_participant(graph, hops, own, i, p) && participant(graph, hops, own, i, p).key == key
}

/// A cycle reports the keys of all its participants and no others.
pub proof fn law_cycle_reports_its_participants(
    graph: GraphView,
    hops: Seq<Hop>,
    own: Seq<QueryView>,
    key: DatabaseKeyIndex,
)
    requires
        graph.participants(hops, own, hops.len()).len() > 0,
    ensures
        graph.cycle_keys(hops, own).contains(key) <==> is_key_of_cycle(graph, hops, own, key),
{
    let frames = graph.participants(hops, own, hops.len());
    let keys = frames.map_values(|query: QueryView| query.key);
    let reported = from_min(keys);
    let len = keys.len() as int;
    let m = first_min(keys);
    lemma_listed_participants(graph, hops, own, hops.len());
    lemma_first_min_exists(keys);
    if reported.contains(key) {
        let k = choose|k: int| 0 <= k < reported.len() && reported[k] == key;
        let back = if k + m < len {
            k + m
        } else {
            k + m - len
        };
        assert(reported[k] == keys[back]);
        assert(frames.contains(frames[back]));
        assert(is_of_cycle(graph, hops, own, frames[back]));
        let (i, p) = choose|i: int, p: int| #[trigger]
            is_participant(graph, hops, own, i, p) && participant(graph, hops, own, i, p)
                == frames[back];
        assert(participant(graph, hops, own, i, p).key == key);
    }
    if is_key_of_cycle(graph, hops, own, key) {
        let (i, p) = choose|i: int, p: int| #[trigger]
            is_participant(graph, hops, own, i, p) && participant(graph, hops, own, i, p).key
                == key;
        let query = participant(graph, hops, own, i, p);
        assert(frames.contains(query));
        let j = choose|j: int| 0 <= j < frames.len() && frames[j] == query;
        let k = if j >= m {
            j - m
        } else {
            j - m + len
        };
        assert(keys[j] == key);
        assert(reported[k] == keys[j]);
    }
}

/// True if `edge` is an edge of a participant of the cycle.
pub open spec fn is_edge_of_cycle(
    graph: GraphView,
    hops: Seq<Hop>,
    own: Seq<QueryView>,
    edge: (EdgeKind, DependencyIndex),
) -> bool {
    exists|i: int, p: int| #[trigger]
        is_participant(graph, hops, own, i, p) && participant(graph, hops, own, i, p).edges.contains(
            edge,
        )
}

/// True if `edge` is the read of a participant of the cycle.
pub open spec fn is_read_within_cycle(
    graph: GraphView,
    hops: Seq<Hop>,
    own: Seq<QueryView>,
    edge: (EdgeKind, DependencyIndex),
) -> bool {
    &&& edge.0 == EdgeKind::Input
    &&& edge.1.key_index matches Some(key_index) && is_key_of_cycle(
        graph,
        hops,
        own,
        DatabaseKeyIndex { ingredient_index: edge.1.ingredient_index, key_index },
    )
}

/// What has been gathered for a cycle is what the cycle as a whole depends on.
proof fn lemma_cycle_query_depends_like_cycle(
    graph: GraphView,
    hops: Seq<Hop>,
    own: Seq<QueryView>,
    key: DatabaseKeyIndex,
)
    requires
        graph.participants(hops, own, hops.len()).len() > 0,
    ensures
        depends_like_cycle(graph, hops, own, graph.cycle_query(hops, own, key)),
{
    let frames = graph.participants(hops, own, hops.len());
    let query = graph.cycle_query(hops, own, key);
    law_cycle_query_covers_participants(graph, hops, own, key);
    law_cycle_stamp_is_attained(graph, hops, own, key);
    lemma_listed_participants(graph, hops, own, hops.len());
    assert forall|i: int, p: int| #[trigger] is_participant(graph, hops, own, i, p) implies {
        &&& !is_less_durable(participant(graph, hops, own, i, p).durability, query.durability)
        &&& participant(graph, hops, own, i, p).changed_at.since_start
            <= query.changed_at.since_start
    } by {
        let one = participant(graph, hops, own, i, p);
        assert(frames.contains(one));
        let k = choose|k: int| 0 <= k < frames.len() && frames[k] == one;
        assert(query.durability.spec_index() <= frames[k].durability.spec_index());
    }
    assert(exists|i: int, p: int| #[trigger]
        is_participant(graph, hops, own, i, p) && participant(graph, hops, own, i, p).durability
            == query.durability) by {
        let d = choose|d: int|
            0 <= d < frames.len() && query.durability == (#[trigger] frames[d]).durability;
        assert(frames.contains(frames[d]));
        assert(is_of_cycle(graph, hops, own, frames[d]));
    }
    assert(exists|i: int, p: int| #[trigger]
        is_participant(graph, hops, own, i, p) && participant(graph, hops, own, i, p).changed_at
            == query.changed_at) by {
        let c = choose|c: int|
            0 <= c < frames.len() && query.changed_at == (#[trigger] frames[c]).changed_at;
        assert(frames.contains(frames[c]));
        assert(is_of_cycle(graph, hops, own, frames[c]));
    }
    assert forall|edge: (EdgeKind, DependencyIndex)| #[trigger]
        query.edges.contains(edge) <==> is_edge_of_cycle(graph, hops, own, edge)
            && !is_read_within_cycle(graph, hops, own, edge) by {
        lemma_edge_of_participant(graph, hops, own, edge);
        lemma_read_of_participant(graph, hops, own, edge);
    }
}

/// An edge of a listed participant is an edge of a participant.
proof fn lemma_edge_of_participant(
    graph: GraphView,
    hops: Seq<Hop>,
    own: Seq<QueryView>,
    edge: (EdgeKind, DependencyIndex),
)
    ensures
        (exists|k: int|
            0 <= k < graph.participants(hops, own, hops.len()).len() && (
            #[trigger] graph.participants(hops, own, hops.len())[k]).edges.contains(edge))
            <==> is_edge_of_cycle(graph, hops, own, edge),
{
    let frames = graph.participants(hops, own, hops.len());
    lemma_listed_participants(graph, hops, own, hops.len());
    if exists|k: int| 0 <= k < frames.len() && (#[trigger] frames[k]).edges.contains(edge) {
        let k = choose|k: int| 0 <= k < frames.len() && (#[trigger] frames[k]).edges.contains(edge);
        assert(frames.contains(frames[k]));
        assert(is_of_cycle(graph, hops, own, frames[k]));
    }
    if is_edge_of_cycle(graph, hops, own, edge) {
        let (i, p) = choose|i: int, p: int| #[trigger]
            is_participant(graph, hops, own, i, p) && participant(
                graph,
                hops,
                own,
                i,
                p,
            ).edges.contains(edge);
        let one = participant(graph, hops, own, i, p);
        assert(frames.contains(one));
        let k = choose|k: int| 0 <= k < frames.len() && frames[k] == one;
        assert(frames[k].edges.contains(edge));
    }
}

/// A read of a key that the cycle reports is a read of a participant.
proof fn lemma_read_of_participant(
    graph: GraphView,
    hops: Seq<Hop>,
    own: Seq<QueryView>,
    edge: (EdgeKind, DependencyIndex),
)
    requires
        graph.participants(hops, own, hops.len()).len() > 0,
    ensures
        reads_one_of(graph.cycle_keys(hops, own), edge) <==> is_read_within_cycle(
            graph,
            hops,
            own,
            edge,
        ),
{
    let cycle = graph.cycle_keys(hops, own);
    if edge.0 == EdgeKind::Input && edge.1.key_index is Some {
        let key = DatabaseKeyIndex {
            ingredient_index: edge.1.ingredient_index,
            key_index: edge.1.key_index->0,
        };
        law_cycle_reports_its_participants(graph, hops, own, key);
        assert(edge.1 == DependencyIndex::spec_for_key(key));
        if reads_one_of(cycle, edge) {
            let k = choose|k: int|
                0 <= k < cycle.len() && edge.1 == DependencyIndex::spec_for_key(
                    #[trigger] cycle[k],
                );
            assert(cycle[k] == key);
            assert(cycle.contains(key));
        }
        if cycle.contains(key) {
            let k = choose|k: int| 0 <= k < cycle.len() && cycle[k] == key;
            assert(edge.1 == DependencyIndex::spec_for_key(cycle[k]));
        }
    }
}

/// The stack of station `i` once the cycle has been resolved: that of the runtime
/// that ran into the cycle at the last station, and what the graph keeps for the
/// others.
pub open spec fn stack_after(
    graph: GraphView,
    from: RuntimeId,
    own: Seq<QueryView>,
    key: DatabaseKeyIndex,
    to: RuntimeId,
    recovery: Recovery,
    i: int,
) -> Seq<QueryView> {
    let hops = graph.cycle_trail(key, to, from);
    let resolved = graph.resolve(from, own, key, to, recovery);
    if i == hops.len() - 1 {
        resolved.stack
    } else {
        kept_stack(resolved.graph, hops[i].0)
    }
}

/// What a cycle does to each query on each stack that it passes. A participant
/// that can recover, and every query inside of it, is marked with the cycle and
/// depends on what the cycle as a whole depends on: it is exactly as durable as
/// the least durable participant, changed exactly when the last of them changed,
/// and has every edge of a participant but for the reads of participants. It is
/// the same query otherwise. Every other query stays as it is. No query is lost
/// and none comes in.
pub proof fn law_cycle_marks_what_is_unwound(
    graph: GraphView,
    from: RuntimeId,
    own: Seq<QueryView>,
    key: DatabaseKeyIndex,
    to: RuntimeId,
    recovery: Recovery,
    i: int,
)
    requires
        graph.wf(),
        graph.is_running(from),
        graph.depends_on(to, from),
        0 <= i < graph.cycle_trail(key, to, from).len(),
    ensures
        ({
            let hops = graph.cycle_trail(key, to, from);
            let before = graph.stack_at(hops, own, i);
            let after = stack_after(graph, from, own, key, to, recovery, i);
            &&& after.len() == before.len()
            &&& forall|p: int|
                0 <= p < before.len() ==> if is_unwound(before, hops[i].1, recovery, p) {
                    &&& depends_like_cycle(graph, hops, own, #[trigger] after[p])
                    &&& after[p].cycle == Some(graph.cycle_keys(hops, own))
                    &&& after[p].key == before[p].key
                    &&& after[p].untracked_read == before[p].untracked_read
                    &&& after[p].disambiguators == before[p].disambiguators
                } else {
                    after[p] == before[p]
                }
        }),
{
    let hops = graph.cycle_trail(key, to, from);
    let others = (hops.len() - 1) as nat;
    let cycle = graph.cycle_keys(hops, own);
    let cycle_query = graph.cycle_query(hops, own, key);
    let noted = graph.mark_hops(hops, recovery, cycle_query, cycle, others);
    let entry = hops[i].1;
    let before = graph.stack_at(hops, own, i);
    let after = stack_after(graph, from, own, key, to, recovery, i);
    lemma_cycle_trail(graph, key, to, from);
    assert(hops.last() == hops[hops.len() - 1]);
    assert(after == marked(before, entry, recovery, cycle_query, cycle)) by {
        if i < others {
            lemma_mark_hops_frame(graph, hops, recovery, cycle_query, cycle, others);
            lemma_mark_hops_at(graph, hops, recovery, cycle_query, cycle, others, i);
            assert(graph.edges.dom().contains(hops[i].0));
            lemma_release_hops_keeps(noted, hops, others, hops[i].0);
        }
    }
    assert forall|p: int| 0 <= p < before.len() implies if is_unwound(
        before,
        entry,
        recovery,
        p,
    ) {
        &&& depends_like_cycle(graph, hops, own, #[trigger] after[p])
        &&& after[p].cycle == Some(cycle)
        &&& after[p].key == before[p].key
        &&& after[p].untracked_read == before[p].untracked_read
        &&& after[p].disambiguators == before[p].disambiguators
    } else {
        after[p] == before[p]
    } by {
        lemma_is_unwound_from(before, entry, recovery, p);
        if is_unwound(before, entry, recovery, p) {
            let r = choose|r: int|
                r <= p && #[trigger] takes_part(before, entry, r) && recovery(
                    before[r].key.ingredient_index,
                ) == CycleRecoveryStrategy::Fallback;
            assert(is_participant(graph, hops, own, i, r));
            assert(i < hops.len());
            lemma_listed_participants(graph, hops, own, hops.len());
            lemma_cycle_query_depends_like_cycle(graph, hops, own, key);
            assert(after[p].edges == cycle_query.edges);
        }
    }
}

/// A stack has a query to unwind if and only if one of its participants can
/// recover.
proof fn lemma_some_recovers(
    stack: Seq<QueryView>,
    entry: DatabaseKeyIndex,
    recovery: Recovery,
)
    ensures
        some_recovers(participating(stack, entry), recovery) <==> exists|p: int| #[trigger]
            takes_part(stack, entry, p) && recovery(stack[p].key.ingredient_index)
                == CycleRecoveryStrategy::Fallback,
{
    let part = participating(stack, entry);
    let first = first_participant(stack, entry, 0) as int;
    lemma_takes_part(stack, entry, 0);
    if some_recovers(part, recovery) {
        let j = choose|j: int|
            0 <= j < part.len() && recovery((#[trigger] part[j]).key.ingredient_index)
                == CycleRecoveryStrategy::Fallback;
        assert(part[j] == stack[j + first]);
        lemma_takes_part_from(stack, entry, j + first);
        assert(takes_part(stack, entry, j + first));
    }
    if exists|p: int| #[trigger]
        takes_part(stack, entry, p) && recovery(stack[p].key.ingredient_index)
            == CycleRecoveryStrategy::Fallback {
        let p = choose|p: int| #[trigger]
            takes_part(stack, entry, p) && recovery(stack[p].key.ingredient_index)
                == CycleRecoveryStrategy::Fallback;
        lemma_takes_part_from(stack, entry, p);
        assert(part[p - first] == stack[p]);
    }
}

/// True if station `i` of the cycle has a participant that can recover.
pub open spec fn station_recovers(
    graph: GraphView,
    hops: Seq<Hop>,
    own: Seq<QueryView>,
    recovery: Recovery,
    i: int,
) -> bool {
    exists|p: int| #[trigger]
        is_participant(graph, hops, own, i, p) && recovery(
            participant(graph, hops, own, i, p).key.ingredient_index,
        ) == CycleRecoveryStrategy::Fallback
}

/// The recovery strategies of the participants decide what becomes of a cycle.
/// The runtime that ran into it unwinds with the cycle if a participant on its
/// own stack can recover. If none can but one on another stack can, it goes on.
/// If nobody can, it panics with the cycle. Of the blocked runtimes exactly those
/// are unblocked, to unwind with the cycle, that have a participant which can
/// recover.
///
/// This is for cycles none of whose participants is being unwound already.
pub proof fn law_strategies_decide(
    graph: GraphView,
    from: RuntimeId,
    own: Seq<QueryView>,
    key: DatabaseKeyIndex,
    to: RuntimeId,
    recovery: Recovery,
)
    requires
        graph.wf(),
        graph.is_running(from),
        graph.depends_on(to, from),
        ({
            let hops = graph.cycle_trail(key, to, from);
            forall|i: int, p: int| #[trigger]
                is_participant(graph, hops, own, i, p) ==> participant(
                    graph,
                    hops,
                    own,
                    i,
                    p,
                ).cycle is None
        }),
    ensures
        ({
            let hops = graph.cycle_trail(key, to, from);
            let last = hops.len() - 1;
            let cycle = graph.cycle_keys(hops, own);
            let resolved = graph.resolve(from, own, key, to, recovery);
            &&& resolved.outcome == (if station_recovers(graph, hops, own, recovery, last) {
                Err(UnwindView::Cycle(cycle))
            } else if exists|i: int|
                0 <= i < last && #[trigger] station_recovers(graph, hops, own, recovery, i) {
                Ok(())
            } else {
                Err(UnwindView::UnrecoveredCycle(cycle))
            })
            &&& forall|i: int|
                0 <= i < last ==> if #[trigger] station_recovers(graph, hops, own, recovery, i) {
                    &&& !resolved.graph.edges.dom().contains(hops[i].0)
                    &&& resolved.graph.results.dom().contains(hops[i].0)
                    &&& resolved.graph.results[hops[i].0].1 == WaitView::Cycle(cycle)
                } else {
                    resolved.graph.edges.dom().contains(hops[i].0)
                }
        }),
{
    let hops = graph.cycle_trail(key, to, from);
    let last = hops.len() - 1;
    lemma_cycle_trail(graph, key, to, from);
    assert forall|i: int| 0 <= i < hops.len() implies none_marked(
        participating(graph.stack_at(hops, own, i), (#[trigger] hops[i]).1),
    ) by {
        let stack = graph.stack_at(hops, own, i);
        let entry = hops[i].1;
        let part = participating(stack, entry);
        let first = first_participant(stack, entry, 0) as int;
        lemma_takes_part(stack, entry, 0);
        assert forall|j: int| 0 <= j < part.len() implies (#[trigger] part[j]).cycle is None by {
            assert(part[j] == stack[j + first]);
            lemma_takes_part_from(stack, entry, j + first);
            assert(is_participant(graph, hops, own, i, j + first));
        }
    }
    assert forall|i: int| 0 <= i < hops.len() implies (#[trigger] station_recovers(
        graph,
        hops,
        own,
        recovery,
        i,
    ) <==> some_recovers(participating(graph.stack_at(hops, own, i), hops[i].1), recovery)) by {
        lemma_some_recovers(graph.stack_at(hops, own, i), hops[i].1, recovery);
        let stack = graph.stack_at(hops, own, i);
        if some_recovers(participating(stack, hops[i].1), recovery) {
            let p = choose|p: int| #[trigger]
                takes_part(stack, hops[i].1, p) && recovery(stack[p].key.ingredient_index)
                    == CycleRecoveryStrategy::Fallback;
            assert(is_participant(graph, hops, own, i, p));
        }
        if station_recovers(graph, hops, own, recovery, i) {
            let p = choose|p: int| #[trigger]
                is_participant(graph, hops, own, i, p) && recovery(
                    participant(graph, hops, own, i, p).key.ingredient_index,
                ) == CycleRecoveryStrategy::Fallback;
            assert(takes_part(stack, hops[i].1, p));
        }
    }
    law_recovery_decides(graph, from, own, key, to, recovery);
    assert(hops.last() == hops[last]);
    assert(station_recovers(graph, hops, own, recovery, last) <==> some_recovers(
        participating(own, hops.last().1),
        recovery,
    ));
    if exists|i: int|
        0 <= i < hops.len() - 1 && some_recovers(
            participating(graph.stack_at(hops, own, i), (#[trigger] hops[i]).1),
            recovery,
        ) {
        let i = choose|i: int|
            0 <= i < hops.len() - 1 && some_recovers(
                participating(graph.stack_at(hops, own, i), (#[trigger] hops[i]).1),
                recovery,
            );
        assert(station_recovers(graph, hops, own, recovery, i));
    }
    if exists|i: int|
        0 <= i < last && #[trigger] station_recovers(graph, hops, own, recovery, i) {
        let i = choose|i: int|
            0 <= i < last && #[trigger] station_recovers(graph, hops, own, recovery, i);
        assert(some_recovers(
            participating(graph.stack_at(hops, own, i), hops[i].1),
            recovery,
        ));
    }
}

/// True if one of the queries of the stack that take part in the cycle is marked.
pub open spec fn has_mark(stack: Seq<QueryView>, entry: DatabaseKeyIndex) -> bool {
    exists|p: int| #[trigger] takes_part(stack, entry, p) && stack[p].cycle is Some
}

/// True if `cycle` is what the innermost marked query of the stack is marked with,
/// of those that take part.
pub open spec fn is_innermost_mark(
    stack: Seq<QueryView>,
    entry: DatabaseKeyIndex,
    cycle: Seq<DatabaseKeyIndex>,
) -> bool {
    exists|p: int| #[trigger]
        takes_part(stack, entry, p) && stack[p].cycle == Some(cycle) && forall|q: int|
            p < q < stack.len() ==> (#[trigger] stack[q]).cycle is None
}

/// What the search for the innermost mark finds.
proof fn lemma_innermost_mark(stack: Seq<QueryView>, from: nat)
    ensures
        match innermost_mark(stack, from) {
            Some(cycle) => exists|p: int|
                from <= p < stack.len() && (#[trigger] stack[p]).cycle == Some(cycle) && forall|
                    q: int,
                |
                    p < q < stack.len() ==> (#[trigger] stack[q]).cycle is None,
            None => forall|p: int| from <= p < stack.len() ==> (#[trigger] stack[p]).cycle is None,
        },
    decreases stack.len(),
{
    if stack.len() > from {
        let last = stack.len() - 1;
        let front = stack.drop_last();
        assert(stack.last() == stack[last]);
        if stack.last().cycle is None {
            lemma_innermost_mark(front, from);
            match innermost_mark(front, from) {
                Some(cycle) => {
                    let p = choose|p: int|
                        from <= p < front.len() && (#[trigger] front[p]).cycle == Some(cycle)
                            && forall|q: int|
                            p < q < front.len() ==> (#[trigger] front[q]).cycle is None;
                    assert(stack[p].cycle == Some(cycle));
                    assert forall|q: int| p < q < stack.len() implies (#[trigger] stack[q]).cycle
                        is None by {
                        if q < last {
                            assert(front[q] == stack[q]);
                        }
                    }
                },
                None => {
                    assert forall|p: int| from <= p < stack.len() implies (
                    #[trigger] stack[p]).cycle is None by {
                        if p < last {
                            assert(front[p] == stack[p]);
                        }
                    }
                },
            }
        }
    }
}

/// A runtime is unwound for the cycle that the innermost of its marked
/// participants is marked with, and not at all if none is marked.
pub proof fn law_unwound_for_innermost_mark(stack: Seq<QueryView>, entry: DatabaseKeyIndex)
    ensures
        unwound_for(stack, entry) is Some <==> has_mark(stack, entry),
        unwound_for(stack, entry) matches Some(cycle) ==> is_innermost_mark(stack, entry, cycle),
{
    let first = first_participant(stack, entry, 0);
    lemma_takes_part(stack, entry, 0);
    lemma_innermost_mark(stack, first);
    match unwound_for(stack, entry) {
        Some(cycle) => {
            let p = choose|p: int|
                first <= p < stack.len() && (#[trigger] stack[p]).cycle == Some(cycle) && forall|
                    q: int,
                |
                    p < q < stack.len() ==> (#[trigger] stack[q]).cycle is None;
            lemma_takes_part_from(stack, entry, p);
            assert(takes_part(stack, entry, p));
        },
        None => {
            assert forall|p: int| #[trigger] takes_part(stack, entry, p) implies stack[p].cycle
                is None by {
                lemma_takes_part_from(stack, entry, p);
            }
        },
    }
}

/// The marks that a cycle leaves decide who unwinds. The runtime that ran into
/// the cycle unwinds if one of its participants is marked then. If none is, it
/// goes on where a participant of another runtime is marked, and panics
/// otherwise. Of the blocked runtimes exactly those are unblocked that have a
/// marked participant; each is unwound for the cycle that the innermost of them
/// is marked with, and gets its stack back.
pub proof fn law_marks_decide(
    graph: GraphView,
    from: RuntimeId,
    own: Seq<QueryView>,
    key: DatabaseKeyIndex,
    to: RuntimeId,
    recovery: Recovery,
)
    requires
        graph.wf(),
        graph.is_running(from),
        graph.depends_on(to, from),
    ensures
        ({
            let hops = graph.cycle_trail(key, to, from);
            let last = hops.len() - 1;
            let cycle = graph.cycle_keys(hops, own);
            let resolved = graph.resolve(from, own, key, to, recovery);
            &&& resolved.outcome == (if has_mark(
                stack_after(graph, from, own, key, to, recovery, last),
                hops[last].1,
            ) {
                Err(UnwindView::Cycle(cycle))
            } else if exists|i: int|
                0 <= i < last && has_mark(
                    stack_after(graph, from, own, key, to, recovery, i),
                    (#[trigger] hops[i]).1,
                ) {
                Ok(())
            } else {
                Err(UnwindView::UnrecoveredCycle(cycle))
            })
            &&& forall|i: int|
                0 <= i < last ==> {
                    let stack = stack_after(graph, from, own, key, to, recovery, i);
                    let id = (#[trigger] hops[i]).0;
                    if has_mark(stack, hops[i].1) {
                        &&& !resolved.graph.edges.dom().contains(id)
                        &&& resolved.graph.results.dom().contains(id)
                        &&& resolved.graph.results[id].0 == stack
                        &&& resolved.graph.results[id].1 matches WaitView::Cycle(found)
                            && is_innermost_mark(stack, hops[i].1, found)
                    } else {
                        &&& resolved.graph.edges.dom().contains(id)
                        &&& resolved.graph.edges[id].stack == stack
                    }
                }
        }),
{
    let hops = graph.cycle_trail(key, to, from);
    let last = hops.len() - 1;
    let others = last as nat;
    let cycle = graph.cycle_keys(hops, own);
    let cycle_query = graph.cycle_query(hops, own, key);
    let noted = graph.mark_hops(hops, recovery, cycle_query, cycle, others);
    let resolved = graph.resolve(from, own, key, to, recovery);
    lemma_cycle_trail(graph, key, to, from);
    assert(hops.last() == hops[last]);
    lemma_mark_hops_frame(graph, hops, recovery, cycle_query, cycle, others);
    law_unwound_for_innermost_mark(resolved.stack, hops[last].1);
    assert forall|i: int| 0 <= i < last implies {
        let stack = stack_after(graph, from, own, key, to, recovery, i);
        let id = (#[trigger] hops[i]).0;
        &&& noted.releases(hops[i]) <==> has_mark(stack, hops[i].1)
        &&& if has_mark(stack, hops[i].1) {
            &&& !resolved.graph.edges.dom().contains(id)
            &&& resolved.graph.results.dom().contains(id)
            &&& resolved.graph.results[id].0 == stack
            &&& resolved.graph.results[id].1 matches WaitView::Cycle(found) && is_innermost_mark(
                stack,
                hops[i].1,
                found,
            )
        } else {
            &&& resolved.graph.edges.dom().contains(id)
            &&& resolved.graph.edges[id].stack == stack
        }
    } by {
        let id = hops[i].0;
        let stack = stack_after(graph, from, own, key, to, recovery, i);
        assert(graph.edges.dom().contains(id));
        assert(noted.edges.dom().contains(id));
        lemma_release_hops_keeps(noted, hops, others, id);
        assert(stack == noted.edges[id].stack);
        law_unwound_for_innermost_mark(stack, hops[i].1);
        lemma_release_hops_frame(noted, hops, others);
        if noted.releases(hops[i]) {
            lemma_release_hops_at(noted, hops, others, i);
        } else {
            lemma_unreleased_stays(noted, hops, others, i);
        }
    }
    if noted.releases_any(hops, others) {
        let i = choose|i: int| 0 <= i < others && noted.releases(#[trigger] hops[i]);
        assert(has_mark(stack_after(graph, from, own, key, to, recovery, i), hops[i].1));
    }
    if exists|i: int|
        0 <= i < last && has_mark(
            stack_after(graph, from, own, key, to, recovery, i),
            (#[trigger] hops[i]).1,
        ) {
        let i = choose|i: int|
            0 <= i < last && has_mark(
                stack_after(graph, from, own, key, to, recovery, i),
                (#[trigger] hops[i]).1,
            );
        assert(noted.releases(hops[i]));
    }
}

/// A trail goes from each station on to what is waited for there.
proof fn lemma_trail_links(
    edges: Map<RuntimeId, EdgeView>,
    id: RuntimeId,
    key: DatabaseKeyIndex,
    target: RuntimeId,
    fuel: nat,
)
    ensures
        ({
            let hops = trail(edges, id, key, target, fuel);
            &&& hops.len() > 0
            &&& hops[0] == (id, key)
            &&& forall|i: int|
                0 <= i < hops.len() - 1 ==> edges.dom().contains((#[trigger] hops[i]).0)
                    && hops[i].0 != target && hops[i + 1] == (
                    edges[hops[i].0].blocked_on_id,
                    edges[hops[i].0].blocked_on_key,
                )
        }),
    decreases fuel,
{
    let hops = trail(edges, id, key, target, fuel);
    if id != target && fuel > 0 && edges.dom().contains(id) {
        let rest = trail(
            edges,
            edges[id].blocked_on_id,
            edges[id].blocked_on_key,
            target,
            (fuel - 1) as nat,
        );
        lemma_trail_links(
            edges,
            edges[id].blocked_on_id,
            edges[id].blocked_on_key,
            target,
            (fuel - 1) as nat,
        );
        assert(hops =~= seq![(id, key)] + rest);
        assert forall|i: int| 0 <= i < hops.len() - 1 implies edges.dom().contains(
            (#[trigger] hops[i]).0,
        ) && hops[i].0 != target && hops[i + 1] == (
            edges[hops[i].0].blocked_on_id,
            edges[hops[i].0].blocked_on_key,
        ) by {
            if i > 0 {
                assert(hops[i] == rest[i - 1]);
                assert(hops[i + 1] == rest[i]);
            } else {
                assert(hops[1] == rest[0]);
            }
        }
    }
}

/// The stations of a cycle follow the waits: the first is the runtime that was
/// asked, entered at the query that was asked for. Each one but the last is
/// blocked, and the next is the runtime that it waits for, entered at the query
/// that it waits for. The last is the runtime that ran into the cycle, and no
/// runtime comes twice.
pub proof fn law_stations_follow_waits(
    graph: GraphView,
    key: DatabaseKeyIndex,
    to: RuntimeId,
    from: RuntimeId,
)
    requires
        graph.wf(),
        graph.depends_on(to, from),
    ensures
        ({
            let hops = graph.cycle_trail(key, to, from);
            &&& hops.len() > 0
            &&& hops[0] == (to, key)
            &&& hops[hops.len() - 1].0 == from
            &&& forall|i: int|
                0 <= i < hops.len() - 1 ==> graph.edges.dom().contains((#[trigger] hops[i]).0)
                    && hops[i + 1] == (
                    graph.edges[hops[i].0].blocked_on_id,
                    graph.edges[hops[i].0].blocked_on_key,
                )
            &&& forall|i: int, j: int|
                0 <= i < j < hops.len() ==> (#[trigger] hops[i]).0 != (#[trigger] hops[j]).0
        }),
{
    lemma_cycle_trail(graph, key, to, from);
    lemma_trail_links(graph.edges, to, key, from, graph.edges.dom().len());
}

/// The participants of a cycle are listed station by station, from where the
/// cycle was entered on, and at each station from the outermost participant in.
pub proof fn law_participants_are_in_order(
    graph: GraphView,
    hops: Seq<Hop>,
    own: Seq<QueryView>,
    n: nat,
    q: int,
)
    requires
        n < hops.len(),
        0 <= q <= graph.stack_at(hops, own, n as int).len(),
        forall|p: int|
            0 <= p < graph.stack_at(hops, own, n as int).len() ==> (#[trigger] takes_part(
                graph.stack_at(hops, own, n as int),
                hops[n as int].1,
                p,
            ) <==> q <= p),
    ensures
        graph.participants(hops, own, 0).len() == 0,
        graph.participants(hops, own, n + 1) == graph.participants(hops, own, n)
            + graph.stack_at(hops, own, n as int).subrange(
            q,
            graph.stack_at(hops, own, n as int).len() as int,
        ),
{
    let stack = graph.stack_at(hops, own, n as int);
    let entry = hops[n as int].1;
    let first = first_participant(stack, entry, 0) as int;
    lemma_takes_part(stack, entry, 0);
    if first < stack.len() {
        lemma_takes_part_from(stack, entry, first);
        assert(takes_part(stack, entry, first));
    }
    if q < stack.len() {
        lemma_takes_part_from(stack, entry, q);
        assert(takes_part(stack, entry, q));
    }
    assert(first == q);
    assert(participating(stack, entry) =~= stack.subrange(q, stack.len() as int));
}

/// A cycle reports its participants in the order in which it passes them, from
/// the smallest key on and round: it only turns the ring.
pub proof fn law_reported_order_turns_the_ring(keys: Seq<DatabaseKeyIndex>)
    requires
        keys.len() > 0,
    ensures
        from_min(keys).len() == keys.len(),
        exists|m: int|
            0 <= m < keys.len() && (forall|j: int|
                0 <= j < keys.len() ==> #[trigger] from_min(keys)[j] == keys[if j + m < keys.len() {
                    j + m
                } else {
                    j + m - keys.len()
                }]) && #[trigger] is_smallest(keys, m),
{
    lemma_first_min_exists(keys);
    let m = first_min(keys);
    assert(is_smallest(keys, m));
    assert forall|j: int| 0 <= j < keys.len() implies #[trigger] from_min(keys)[j] == keys[if j + m
        < keys.len() {
        j + m
    } else {
        j + m - keys.len()
    }] by {}
}

/// True if no key comes before the one at position `m`, and it does not occur
/// earlier.
pub open spec fn is_smallest(keys: Seq<DatabaseKeyIndex>, m: int) -> bool {
    &&& 0 <= m < keys.len()
    &&& forall|j: int|
        0 <= j < keys.len() ==> keys[m].ingredient_index.0 < (
        #[trigger] keys[j]).ingredient_index.0 || (keys[m].ingredient_index.0
            == keys[j].ingredient_index.0 && keys[m].key_index.0 <= keys[j].key_index.0)
    &&& forall|j: int| 0 <= j < m ==> #[trigger] keys[j] != keys[m]
}

/// A cycle reports the keys of its participants in the order in which it passes
/// them, from the smallest key on and round.
pub proof fn law_cycle_reports_in_order(graph: GraphView, hops: Seq<Hop>, own: Seq<QueryView>)
    requires
        graph.participants(hops, own, hops.len()).len() > 0,
    ensures
        ({
            let frames = graph.participants(hops, own, hops.len());
            let keys = frames.map_values(|query: QueryView| query.key);
            let cycle = graph.cycle_keys(hops, own);
            &&& cycle.len() == frames.len()
            &&& exists|m: int| #[trigger]
                is_smallest(keys, m) && forall|j: int|
                    0 <= j < frames.len() ==> #[trigger] cycle[j] == frames[if j + m
                        < frames.len() {
                        j + m
                    } else {
                        j + m - frames.len()
                    }].key
        }),
{
    let frames = graph.participants(hops, own, hops.len());
    let keys = frames.map_values(|query: QueryView| query.key);
    let cycle = graph.cycle_keys(hops, own);
    lemma_first_min_exists(keys);
    let m = first_min(keys);
    assert(is_smallest(keys, m));
    assert forall|j: int| 0 <= j < frames.len() implies #[trigger] cycle[j] == frames[if j + m
        < frames.len() {
        j + m
    } else {
        j + m - frames.len()
    }].key by {}
}

/// Resolving a cycle leaves runtimes alone that the cycle does not pass: they
/// keep their waits, their results and their stacks.
pub proof fn law_cycle_leaves_others_alone(
    graph: GraphView,
    from: RuntimeId,
    own: Seq<QueryView>,
    key: DatabaseKeyIndex,
    to: RuntimeId,
    recovery: Recovery,
    id: RuntimeId,
)
    requires
        graph.wf(),
        graph.is_running(from),
        graph.depends_on(to, from),
        ({
            let hops = graph.cycle_trail(key, to, from);
            forall|i: int| 0 <= i < hops.len() ==> (#[trigger] hops[i]).0 != id
        }),
    ensures
        ({
            let after = graph.resolve(from, own, key, to, recovery).graph;
            &&& after.edges.dom().contains(id) <==> graph.edges.dom().contains(id)
            &&& graph.edges.dom().contains(id) ==> after.edges[id] == graph.edges[id]
            &&& after.results.dom().contains(id) <==> graph.results.dom().contains(id)
            &&& graph.results.dom().contains(id) ==> after.results[id] == graph.results[id]
        }),
{
    let hops = graph.cycle_trail(key, to, from);
    let others = (hops.len() - 1) as nat;
    let cycle = graph.cycle_keys(hops, own);
    let cycle_query = graph.cycle_query(hops, own, key);
    let noted = graph.mark_hops(hops, recovery, cycle_query, cycle, others);
    lemma_cycle_trail(graph, key, to, from);
    lemma_mark_hops_frame(graph, hops, recovery, cycle_query, cycle, others);
    assert(noted.edges[id] == graph.edges[id]);
    lemma_release_hops_frame(noted, hops, others);
    lemma_release_hops_results(noted, hops, others, id);
}

/// Unblocking stations leaves the results of others alone.
proof fn lemma_release_hops_results(graph: GraphView, hops: Seq<Hop>, n: nat, id: RuntimeId)
    requires
        n <= hops.len(),
        forall|i: int| 0 <= i < hops.len() ==> (#[trigger] hops[i]).0 != id,
    ensures
        graph.results.dom().contains(id) ==> graph.release_hops(hops, n).results[id]
            == graph.results[id],
        graph.release_hops(hops, n).results.dom().contains(id) <==> graph.results.dom().contains(
            id,
        ),
    decreases n,
{
    if n > 0 {
        lemma_release_hops_results(graph, hops, (n - 1) as nat, id);
        assert(hops[n - 1].0 != id);
    }
}

/// A station that the cycle does not unblock keeps waiting for what it waited
/// for.
pub proof fn law_cycle_keeps_waits(
    graph: GraphView,
    from: RuntimeId,
    own: Seq<QueryView>,
    key: DatabaseKeyIndex,
    to: RuntimeId,
    recovery: Recovery,
    id: RuntimeId,
)
    requires
        graph.wf(),
        graph.is_running(from),
        graph.depends_on(to, from),
        graph.edges.dom().contains(id),
    ensures
        ({
            let after = graph.resolve(from, own, key, to, recovery).graph;
            after.edges.dom().contains(id) ==> {
                &&& after.edges[id].blocked_on_id == graph.edges[id].blocked_on_id
                &&& after.edges[id].blocked_on_key == graph.edges[id].blocked_on_key
            }
        }),
{
    let hops = graph.cycle_trail(key, to, from);
    let others = (hops.len() - 1) as nat;
    let cycle = graph.cycle_keys(hops, own);
    let cycle_query = graph.cycle_query(hops, own, key);
    let noted = graph.mark_hops(hops, recovery, cycle_query, cycle, others);
    lemma_cycle_trail(graph, key, to, from);
    lemma_mark_hops_frame(graph, hops, recovery, cycle_query, cycle, others);
    lemma_release_hops_frame(noted, hops, others);
    assert(noted.edges.dom().contains(id));
    assert(noted.links()[id] == graph.links()[id]);
}

} // verus!
