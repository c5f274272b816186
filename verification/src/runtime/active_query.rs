//! The queries that are being executed.

use crate::cycle::Cycle;
use crate::durability::Durability;
use crate::key::{DatabaseKeyIndex, DependencyIndex};
use crate::revision::Revision;
use crate::runtime::{stamp, Stamp, StampedValue};
use std::collections::HashMap;
use vstd::prelude::*;

verus! {

/// Whether a query reads something or writes it.
#[derive(Copy, Clone, Debug, PartialEq, Eq, PartialOrd, Ord, Hash, Structural)]
pub enum EdgeKind {
    Input,
    Output,
}

/// Tells entities apart that one query creates from data with the same hash.
#[derive(Copy, Clone, Debug, PartialEq, Eq, PartialOrd, Ord, Hash, Structural)]
pub struct Disambiguator(pub u32);

/// A query that is being executed, and what it has read and written so far.
#[derive(Debug)]
pub struct ActiveQuery {
    /// The query.
    pub database_key_index: DatabaseKeyIndex,
    /// The lowest durability of what the query has read.
    pub durability: Durability,
    /// The latest revision in which something that the query has read changed.
    pub changed_at: Revision,
    /// What the query has read and written, in the order in which it first did.
    pub input_outputs: Vec<(EdgeKind, DependencyIndex)>,
    /// True if the query has read state that the runtime does not track.
    pub untracked_read: bool,
    /// The cycle that the query takes part in and is unwound for, if any.
    pub cycle: Option<Cycle>,
    /// For each hash that the query has created an entity from, the
    /// disambiguator that the next entity with this hash gets.
    pub disambiguator_map: HashMap<u64, Disambiguator>,
}

/// An [`ActiveQuery`] as a mathematical value.
#[verifier::ext_equal]
pub struct QueryView {
    pub key: DatabaseKeyIndex,
    pub durability: Durability,
    pub changed_at: Revision,
    pub edges: Seq<(EdgeKind, DependencyIndex)>,
    pub untracked_read: bool,
    pub cycle: Option<Seq<DatabaseKeyIndex>>,
    pub disambiguators: Map<u64, Disambiguator>,
}

/// The edges `edges` with `edge` behind them, unless it is among them.
pub open spec fn edges_with(
    edges: Seq<(EdgeKind, DependencyIndex)>,
    edge: (EdgeKind, DependencyIndex),
) -> Seq<(EdgeKind, DependencyIndex)> {
    if edges.contains(edge) {
        edges
    } else {
        edges.push(edge)
    }
}

/// The edges `edges`, and behind them those of `more` that are not among them.
pub open spec fn edges_with_all(
    edges: Seq<(EdgeKind, DependencyIndex)>,
    more: Seq<(EdgeKind, DependencyIndex)>,
) -> Seq<(EdgeKind, DependencyIndex)>
    decreases more.len(),
{
    if more.len() == 0 {
        edges
    } else {
        edges_with(edges_with_all(edges, more.drop_last()), more.last())
    }
}

/// True if `edge` is a read of one of the queries `keys`.
pub open spec fn reads_one_of(
    keys: Seq<DatabaseKeyIndex>,
    edge: (EdgeKind, DependencyIndex),
) -> bool {
    edge.0 == EdgeKind::Input && exists|i: int|
        0 <= i < keys.len() && edge.1 == DependencyIndex::spec_for_key(#[trigger] keys[i])
}

/// An edge that is added is there, all others stay as they were, and no edge
/// comes twice that did not before.
pub proof fn lemma_edges_with(
    edges: Seq<(EdgeKind, DependencyIndex)>,
    edge: (EdgeKind, DependencyIndex),
)
    ensures
        edges_with(edges, edge).contains(edge),
        forall|other: (EdgeKind, DependencyIndex)|
            other != edge ==> #[trigger] edges_with(edges, edge).contains(other)
                == edges.contains(other),
        edges.no_duplicates() ==> edges_with(edges, edge).no_duplicates(),
{
    if !edges.contains(edge) {
        let after = edges.push(edge);
        assert(after[edges.len() as int] == edge);
        assert forall|other: (EdgeKind, DependencyIndex)| other != edge implies (
        #[trigger] after.contains(other)) == edges.contains(other) by {
            if edges.contains(other) {
                let i = choose|i: int| 0 <= i < edges.len() && edges[i] == other;
                assert(after[i] == other);
            }
        }
    }
}

/// Edges that are added are there, all others stay as they were, and no edge
/// comes twice that did not before.
pub proof fn lemma_edges_with_all(
    edges: Seq<(EdgeKind, DependencyIndex)>,
    more: Seq<(EdgeKind, DependencyIndex)>,
)
    ensures
        forall|edge: (EdgeKind, DependencyIndex)| #[trigger]
            edges_with_all(edges, more).contains(edge) <==> edges.contains(edge) || more.contains(
                edge,
            ),
        edges.no_duplicates() ==> edges_with_all(edges, more).no_duplicates(),
    decreases more.len(),
{
    if more.len() > 0 {
        let front = more.drop_last();
        lemma_edges_with_all(edges, front);
        lemma_edges_with(edges_with_all(edges, front), more.last());
        assert forall|edge: (EdgeKind, DependencyIndex)| #[trigger]
            edges_with_all(edges, more).contains(edge) <==> edges.contains(edge) || more.contains(
            edge,
        ) by {
            if more.contains(edge) && edge != more.last() {
                let i = choose|i: int| 0 <= i < more.len() && more[i] == edge;
                assert(front[i] == edge);
            }
            if front.contains(edge) {
                let i = choose|i: int| 0 <= i < front.len() && front[i] == edge;
                assert(more[i] == edge);
            }
            assert(more.contains(more.last()));
        }
    }
}

/// What is picked from distinct items is distinct.
pub proof fn lemma_filter_distinct<A>(items: Seq<A>, pred: spec_fn(A) -> bool)
    requires
        items.no_duplicates(),
    ensures
        items.filter(pred).no_duplicates(),
        forall|item: A| #[trigger] items.filter(pred).contains(item) ==> items.contains(item),
    decreases items.len(),
{
    reveal(Seq::filter);
    if items.len() > 0 {
        let front = items.drop_last();
        lemma_filter_distinct(front, pred);
        let picked = front.filter(pred);
        assert(!front.contains(items.last()));
        assert(!picked.contains(items.last()));
        assert forall|item: A| #[trigger] items.filter(pred).contains(item) implies items.contains(
            item,
        ) by {
            let k = choose|k: int|
                0 <= k < items.filter(pred).len() && items.filter(pred)[k] == item;
            if k < picked.len() {
                assert(picked[k] == item);
                assert(picked.contains(item));
                let i = choose|i: int| 0 <= i < front.len() && front[i] == item;
                assert(items[i] == item);
            }
        }
    }
}

impl QueryView {
    /// What holds of every query: no edge comes twice.
    pub open spec fn wf(self) -> bool {
        self.edges.no_duplicates()
    }

    /// A query that has just been started.
    pub open spec fn fresh(key: DatabaseKeyIndex) -> QueryView {
        QueryView {
            key,
            durability: Durability::MAX,
            changed_at: Revision::spec_start(),
            edges: Seq::empty(),
            untracked_read: false,
            cycle: None,
            disambiguators: Map::empty(),
        }
    }

    /// How durable the result of the query is and when it last changed, going
    /// by what the query has read so far.
    pub open spec fn stamp(self) -> Stamp {
        StampedValue { value: (), durability: self.durability, changed_at: self.changed_at }
    }

    /// The query, after it has read `input`.
    pub open spec fn with_read(
        self,
        input: DependencyIndex,
        durability: Durability,
        changed_at: Revision,
    ) -> QueryView {
        QueryView {
            edges: edges_with(self.edges, (EdgeKind::Input, input)),
            durability: self.durability.spec_min(durability),
            changed_at: self.changed_at.spec_max(changed_at),
            ..self
        }
    }

    /// The query, after it has read untracked state in the given revision.
    pub open spec fn with_untracked_read(self, current: Revision) -> QueryView {
        QueryView {
            untracked_read: true,
            durability: Durability::Low,
            changed_at: current,
            ..self
        }
    }

    /// The query, after it has written `key`.
    pub open spec fn with_output(self, key: DependencyIndex) -> QueryView {
        QueryView { edges: edges_with(self.edges, (EdgeKind::Output, key)), ..self }
    }

    /// True if the query has written `key`.
    pub open spec fn has_output(self, key: DependencyIndex) -> bool {
        self.edges.contains((EdgeKind::Output, key))
    }

    /// The query, after it has taken over all that `other` depends on.
    pub open spec fn with_all_from(self, other: QueryView) -> QueryView {
        QueryView {
            edges: edges_with_all(self.edges, other.edges),
            durability: self.durability.spec_min(other.durability),
            changed_at: self.changed_at.spec_max(other.changed_at),
            untracked_read: self.untracked_read || other.untracked_read,
            ..self
        }
    }

    /// The query, without its reads of the queries `keys`.
    pub open spec fn without_reads_of(self, keys: Seq<DatabaseKeyIndex>) -> QueryView {
        QueryView {
            edges: self.edges.filter(|edge: (EdgeKind, DependencyIndex)| !reads_one_of(keys, edge)),
            ..self
        }
    }

    /// The query, with the stamp and the edges of `other` in place of its own.
    pub open spec fn with_inputs_of(self, other: QueryView) -> QueryView {
        QueryView {
            edges: other.edges,
            durability: other.durability,
            changed_at: other.changed_at,
            ..self
        }
    }

    /// The query, marked as a participant of a cycle that is unwound.
    pub open spec fn with_cycle(self, cycle: Seq<DatabaseKeyIndex>) -> QueryView {
        QueryView { cycle: Some(cycle), ..self }
    }

    /// The query, with the dependencies that it had when it was `earlier`.
    pub open spec fn with_dependencies_of(self, earlier: QueryView) -> QueryView {
        QueryView {
            edges: earlier.edges,
            durability: earlier.durability,
            changed_at: earlier.changed_at,
            untracked_read: earlier.untracked_read,
            ..self
        }
    }

    /// The disambiguator that the next entity with the given hash gets.
    pub open spec fn next_disambiguator(self, hash: u64) -> Disambiguator {
        if self.disambiguators.dom().contains(hash) {
            self.disambiguators[hash]
        } else {
            Disambiguator(0)
        }
    }

    /// The query, after it has created an entity with the given hash.
    pub open spec fn with_entity(self, hash: u64) -> QueryView {
        QueryView {
            disambiguators: self.disambiguators.insert(
                hash,
                Disambiguator((self.next_disambiguator(hash).0 + 1) as u32),
            ),
            ..self
        }
    }
}

/// The participants' dependencies, gathered into `gathered` one by one.
pub open spec fn gather(gathered: QueryView, frames: Seq<QueryView>) -> QueryView
    decreases frames.len(),
{
    if frames.len() == 0 {
        gathered
    } else {
        gather(gathered, frames.drop_last()).with_all_from(frames.last())
    }
}

/// What has been gathered from whatever queries is itself a query whose edges
/// are distinct, and stays one without some of its reads.
pub proof fn lemma_gather_wf(
    gathered: QueryView,
    frames: Seq<QueryView>,
    keys: Seq<DatabaseKeyIndex>,
)
    requires
        gathered.wf(),
    ensures
        gather(gathered, frames).wf(),
        gather(gathered, frames).without_reads_of(keys).wf(),
    decreases frames.len(),
{
    if frames.len() > 0 {
        lemma_gather_wf(gathered, frames.drop_last(), keys);
        lemma_edges_with_all(gather(gathered, frames.drop_last()).edges, frames.last().edges);
    }
    lemma_filter_distinct(
        gather(gathered, frames).edges,
        |edge: (EdgeKind, DependencyIndex)| !reads_one_of(keys, edge),
    );
}

/// What holds of every stack: of each of its queries, no edge comes twice.
pub open spec fn stack_wf(stack: Seq<QueryView>) -> bool {
    forall|i: int| 0 <= i < stack.len() ==> (#[trigger] stack[i]).wf()
}

/// The stack as a mathematical value, outermost query first.
pub open spec fn stack_view(stack: Seq<ActiveQuery>) -> Seq<QueryView> {
    stack.map_values(|query: ActiveQuery| query@)
}

impl View for ActiveQuery {
    type V = QueryView;

    open spec fn view(&self) -> QueryView {
        QueryView {
            key: self.database_key_index,
            durability: self.durability,
            changed_at: self.changed_at,
            edges: self.input_outputs@,
            untracked_read: self.untracked_read,
            cycle: match self.cycle {
                Some(cycle) => Some(cycle@),
                None => None,
            },
            disambiguators: self.disambiguator_map@,
        }
    }
}

/// The dependencies of a query at some point of its execution.
#[derive(Debug)]
pub struct SavedQueryState {
    durability: Durability,
    changed_at: Revision,
    input_outputs: Vec<(EdgeKind, DependencyIndex)>,
    untracked_read: bool,
}

impl SavedQueryState {
    /// True if these are the dependencies of `query`.
    pub closed spec fn saved_from(self, query: QueryView) -> bool {
        &&& self.durability == query.durability
        &&& self.changed_at == query.changed_at
        &&& self.input_outputs@ == query.edges
        &&& self.untracked_read == query.untracked_read
    }
}

/// A copy of a list of edges.
fn copy_edges(edges: &Vec<(EdgeKind, DependencyIndex)>) -> (copy: Vec<
    (EdgeKind, DependencyIndex),
>)
    ensures
        copy@ == edges@,
{
    let mut copy: Vec<(EdgeKind, DependencyIndex)> = Vec::with_capacity(edges.len());
    let mut i: usize = 0;
    while i < edges.len()
        invariant
            i <= edges@.len(),
            copy@ == edges@.take(i as int),
        decreases edges@.len() - i,
    {
        copy.push(edges[i]);
        assert(copy@ =~= edges@.take(i + 1));
        i = i + 1;
    }
    assert(edges@.take(i as int) =~= edges@);
    copy
}

/// True if `edge` is among `edges`.
fn contains_edge(
    edges: &Vec<(EdgeKind, DependencyIndex)>,
    edge: (EdgeKind, DependencyIndex),
) -> (found: bool)
    ensures
        found == edges@.contains(edge),
{
    let mut i: usize = 0;
    while i < edges.len()
        invariant
            i <= edges@.len(),
            forall|j: int| 0 <= j < i ==> #[trigger] edges@[j] != edge,
        decreases edges@.len() - i,
    {
        let (kind, dependency) = edges[i];
        if kind == edge.0 && dependency.same(edge.1) {
            assert(edges@[i as int] == edge);
            return true;
        }
        i = i + 1;
    }
    false
}

/// Puts `edge` behind `edges`, unless it is among them.
fn insert_edge(edges: &mut Vec<(EdgeKind, DependencyIndex)>, edge: (EdgeKind, DependencyIndex))
    ensures
        final(edges)@ == edges_with(old(edges)@, edge),
{
    if !contains_edge(edges, edge) {
        edges.push(edge);
    }
}

/// True if `edge` is a read of one of the queries `keys`.
fn is_read_of_one(keys: &Vec<DatabaseKeyIndex>, edge: (EdgeKind, DependencyIndex)) -> (found: bool)
    ensures
        found == reads_one_of(keys@, edge),
{
    if edge.0 != EdgeKind::Input {
        return false;
    }
    let mut i: usize = 0;
    while i < keys.len()
        invariant
            i <= keys@.len(),
            edge.0 == EdgeKind::Input,
            forall|j: int|
                0 <= j < i ==> edge.1 != DependencyIndex::spec_for_key(#[trigger] keys@[j]),
        decreases keys@.len() - i,
    {
        let key: DependencyIndex = DependencyIndex::from(keys[i]);
        if edge.1.same(key) {
            assert(edge.1 == DependencyIndex::spec_for_key(keys@[i as int]));
            return true;
        }
        i = i + 1;
    }
    false
}

impl ActiveQuery {
    /// Starts a query.
    pub fn new(database_key_index: DatabaseKeyIndex) -> (query: ActiveQuery)
        ensures
            query@ == QueryView::fresh(database_key_index),
    {
        let query = ActiveQuery {
            database_key_index,
            durability: Durability::MAX,
            changed_at: Revision::start(),
            input_outputs: Vec::new(),
            untracked_read: false,
            cycle: None,
            disambiguator_map: HashMap::new(),
        };
        assert(query@ =~= QueryView::fresh(database_key_index));
        query
    }

    /// Records a read of `input`.
    pub fn add_read(&mut self, input: DependencyIndex, durability: Durability, revision: Revision)
        ensures
            final(self)@ == old(self)@.with_read(input, durability, revision),
    {
        insert_edge(&mut self.input_outputs, (EdgeKind::Input, input));
        self.durability = self.durability.min(durability);
        self.changed_at = self.changed_at.max(revision);
    }

    /// Records a read of state that the runtime does not track.
    pub fn add_untracked_read(&mut self, changed_at: Revision)
        ensures
            final(self)@ == old(self)@.with_untracked_read(changed_at),
    {
        self.untracked_read = true;
        self.durability = Durability::Low;
        self.changed_at = changed_at;
    }

    /// Records a write of `key`.
    pub fn add_output(&mut self, key: DependencyIndex)
        ensures
            final(self)@ == old(self)@.with_output(key),
    {
        insert_edge(&mut self.input_outputs, (EdgeKind::Output, key));
    }

    /// True if the query has written `key`.
    pub fn is_output(&self, key: DependencyIndex) -> (written: bool)
        ensures
            written == self@.has_output(key),
    {
        contains_edge(&self.input_outputs, (EdgeKind::Output, key))
    }

    /// How durable the result of the query is and when it last changed, going
    /// by what the query has read so far.
    pub fn stamp(&self) -> (current: Stamp)
        ensures
            current == self@.stamp(),
    {
        stamp(self.changed_at, self.durability)
    }

    /// Takes over all that `other` depends on.
    pub fn add_from(&mut self, other: &ActiveQuery)
        ensures
            final(self)@ == old(self)@.with_all_from(other@),
    {
        self.changed_at = self.changed_at.max(other.changed_at);
        self.durability = self.durability.min(other.durability);
        self.untracked_read = self.untracked_read || other.untracked_read;
        let mut i: usize = 0;
        while i < other.input_outputs.len()
            invariant
                i <= other.input_outputs@.len(),
                self@ == (QueryView {
                    edges: edges_with_all(old(self)@.edges, other@.edges.take(i as int)),
                    ..old(self)@.with_all_from(other@)
                }),
            decreases other.input_outputs@.len() - i,
        {
            let ghost seen = other@.edges.take(i as int);
            let ghost more = other@.edges.take(i + 1);
            insert_edge(&mut self.input_outputs, other.input_outputs[i]);
            assert(more.drop_last() =~= seen);
            i = i + 1;
        }
        assert(other@.edges.take(i as int) =~= other@.edges);
    }

    /// Drops the reads of the participants of `cycle`: they cannot tell
    /// whether the cycle forms again.
    pub fn remove_cycle_participants(&mut self, cycle: &Cycle)
        ensures
            final(self)@ == old(self)@.without_reads_of(cycle@),
    {
        let ghost pred = |edge: (EdgeKind, DependencyIndex)| !reads_one_of(cycle@, edge);
        let ghost edges = self.input_outputs@;
        let mut kept: Vec<(EdgeKind, DependencyIndex)> = Vec::new();
        let mut i: usize = 0;
        while i < self.input_outputs.len()
            invariant
                i <= edges.len(),
                edges == self.input_outputs@,
                *self == *old(self),
                pred == (|edge: (EdgeKind, DependencyIndex)| !reads_one_of(cycle@, edge)),
                kept@ == edges.take(i as int).filter(pred),
            decreases edges.len() - i,
        {
            reveal(Seq::filter);
            let edge = self.input_outputs[i];
            assert(edges.take(i + 1).drop_last() =~= edges.take(i as int));
            if !is_read_of_one(cycle.participant_keys(), edge) {
                kept.push(edge);
            }
            i = i + 1;
        }
        assert(edges.take(i as int) =~= edges);
        self.input_outputs = kept;
    }

    /// Takes the stamp and the edges of `cycle_query` in place of its own.
    pub fn take_inputs_from(&mut self, cycle_query: &ActiveQuery)
        ensures
            final(self)@ == old(self)@.with_inputs_of(cycle_query@),
    {
        self.changed_at = cycle_query.changed_at;
        self.durability = cycle_query.durability;
        self.input_outputs = copy_edges(&cycle_query.input_outputs);
    }

    /// Picks the disambiguator of a new entity with the given hash.
    pub fn disambiguate(&mut self, hash: u64) -> (disambiguator: Disambiguator)
        requires
            old(self)@.next_disambiguator(hash).0 < u32::MAX,
        ensures
            disambiguator == old(self)@.next_disambiguator(hash),
            final(self)@ == old(self)@.with_entity(hash),
    {
        broadcast use vstd::std_specs::hash::group_hash_axioms;

        let current: Disambiguator = match self.disambiguator_map.get(&hash) {
            Some(disambiguator) => *disambiguator,
            None => Disambiguator(0),
        };
        self.disambiguator_map.insert(hash, Disambiguator(current.0 + 1));
        current
    }

    /// Saves the dependencies that the query has now.
    pub fn save_query_state(&self) -> (saved: SavedQueryState)
        ensures
            saved.saved_from(self@),
    {
        SavedQueryState {
            durability: self.durability,
            changed_at: self.changed_at,
            input_outputs: copy_edges(&self.input_outputs),
            untracked_read: self.untracked_read,
        }
    }

    /// Goes back to dependencies that were saved.
    pub fn restore_query_state(&mut self, saved: SavedQueryState)
        ensures
            forall|earlier: QueryView| #[trigger]
                saved.saved_from(earlier) ==> final(self)@ == old(self)@.with_dependencies_of(
                    earlier,
                ),
    {
        self.durability = saved.durability;
        self.changed_at = saved.changed_at;
        self.input_outputs = saved.input_outputs;
        self.untracked_read = saved.untracked_read;
    }
}

} // verus!
