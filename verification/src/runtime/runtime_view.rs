//! What a runtime is, and what each step does to it.

use crate::durability::Durability;
use crate::event::{Cancelled, Event, EventKind, UnwindView};
use crate::key::{DatabaseKeyIndex, DependencyIndex, IngredientIndex};
use crate::revision::Revision;
use crate::runtime::active_query::{lemma_edges_with, stack_wf, EdgeKind, QueryView};
use crate::runtime::graph_view::{GraphView, Recovery, WaitView};
use crate::runtime::local_state;
use crate::runtime::shared::GraphLock;
use crate::runtime::RuntimeId;
use crossbeam::atomic::AtomicCell;
use vstd::prelude::*;

verus! {

/// A runtime as a mathematical value. Of what it shares with other threads this
/// says which flag and which lock it is, not what they hold.
#[verifier::ext_equal]
pub struct RuntimeView {
    pub id: RuntimeId,
    /// The number of the next runtime.
    pub next_id: usize,
    /// The queries that are being executed, the innermost last; `None` while
    /// the runtime is blocked.
    pub stack: Option<Seq<QueryView>>,
    /// The list of edges that is handed out where there are none.
    pub empty_dependencies: Seq<(EdgeKind, DependencyIndex)>,
    /// For each durability, the revision in which something of it may have
    /// changed last.
    pub revisions: Seq<Revision>,
    /// The cell of the cancellation flag.
    pub flag: AtomicCell<bool>,
    /// How often the runtime has stored `false` into the flag.
    pub cleared: nat,
    /// The lock on the dependency graph.
    pub lock: GraphLock,
}

/// What becomes of an attempt to block: the runtime, the graph, and whether the
/// runtime is blocked or unwinds.
pub struct BlockStep {
    pub runtime: RuntimeView,
    pub graph: GraphView,
    pub outcome: Result<(), UnwindView>,
}

/// What a runtime does once its wait has ended.
pub open spec fn after_wait(result: WaitView) -> Result<(), UnwindView> {
    match result {
        WaitView::Completed => Ok(()),
        WaitView::Panicked => Err(
            UnwindView::Cancelled(Cancelled::PropagatedPanic),
        ),
        WaitView::Cycle(cycle) => Err(UnwindView::Cycle(cycle)),
    }
}

impl RuntimeView {
    /// What holds of every runtime. There is a last change for each durability,
    /// and they decline: a change of something durable counts as a change of
    /// everything less durable too. No query that is being executed has an edge
    /// twice.
    pub open spec fn wf(self) -> bool {
        &&& self.revisions.len() == Durability::LEN
        &&& forall|i: int, j: int|
            0 <= i <= j < self.revisions.len() ==> (#[trigger] self.revisions[i]).since_start >= (
            #[trigger] self.revisions[j]).since_start
        &&& self.empty_dependencies.len() == 0
        &&& self.stack matches Some(stack) ==> stack_wf(stack)
    }

    /// The current revision.
    pub open spec fn current(self) -> Revision {
        self.revisions[0]
    }

    /// The revision in which something of the given durability may have changed
    /// last.
    pub open spec fn last_changed(self, durability: Durability) -> Revision {
        self.revisions[durability.spec_index()]
    }

    /// True if the runtime is executing a query.
    pub open spec fn is_executing(self) -> bool {
        self.stack is Some && self.stack->0.len() > 0
    }

    /// The innermost query.
    pub open spec fn top(self) -> QueryView {
        self.stack->0.last()
    }

    /// The runtime, with `top` in place of the innermost query.
    pub open spec fn with_top(self, top: QueryView) -> RuntimeView {
        self.with_stack(local_state::with_top(self.stack->0, top))
    }

    /// The runtime, with the given stack.
    pub open spec fn with_stack(self, stack: Seq<QueryView>) -> RuntimeView {
        RuntimeView { stack: Some(stack), ..self }
    }

    /// The runtime, after the query `key` has been started inside the innermost
    /// one.
    pub open spec fn after_push(self, key: DatabaseKeyIndex) -> RuntimeView {
        self.with_stack(self.stack->0.push(QueryView::fresh(key)))
    }

    /// The runtime, after the innermost query has ended.
    pub open spec fn after_pop(self) -> RuntimeView {
        self.with_stack(self.stack->0.drop_last())
    }

    /// The runtime, after the innermost query, if there is one, has read `input`.
    pub open spec fn after_tracked_read(
        self,
        input: DependencyIndex,
        durability: Durability,
        changed_at: Revision,
    ) -> RuntimeView {
        if self.is_executing() {
            self.with_top(self.top().with_read(input, durability, changed_at))
        } else {
            self
        }
    }

    /// The runtime, after the innermost query, if there is one, has read
    /// untracked state.
    pub open spec fn after_untracked_read(self) -> RuntimeView {
        if self.is_executing() {
            self.with_top(self.top().with_untracked_read(self.current()))
        } else {
            self
        }
    }

    /// The runtime, after the innermost query, if there is one, has written `key`.
    pub open spec fn after_output(self, key: DependencyIndex) -> RuntimeView {
        if self.is_executing() {
            self.with_top(self.top().with_output(key))
        } else {
            self
        }
    }

    /// The runtime, after the innermost query has created an entity.
    pub open spec fn after_entity(
        self,
        entity_index: IngredientIndex,
        reset_at: Revision,
        data_hash: u64,
    ) -> RuntimeView {
        let read = self.after_tracked_read(
            DependencyIndex::spec_for_table(entity_index),
            Durability::MAX,
            reset_at,
        );
        read.with_top(read.top().with_entity(data_hash))
    }

    /// The runtime, after an input of the given durability has been written in
    /// the current revision.
    pub open spec fn after_write(self, durability: Durability) -> RuntimeView {
        RuntimeView {
            revisions: Seq::new(
                self.revisions.len(),
                |i: int|
                    if i <= durability.spec_index() {
                        self.current()
                    } else {
                        self.revisions[i]
                    },
            ),
            ..self
        }
    }

    /// The runtime, in the revision that follows the current one. The flag has
    /// been cleared.
    pub open spec fn after_new_revision(self) -> RuntimeView {
        RuntimeView {
            revisions: self.revisions.update(
                0,
                Revision { since_start: (self.current().since_start + 1) as usize },
            ),
            cleared: self.cleared + 1,
            ..self
        }
    }

    /// The event that the runtime is about to look at the cancellation flag.
    pub open spec fn will_check_cancellation(self) -> Event {
        Event { runtime_id: self.id, kind: EventKind::WillCheckCancellation }
    }

    /// The event that the runtime is about to block.
    pub open spec fn will_block_on(self, key: DatabaseKeyIndex, other: RuntimeId) -> Event {
        Event {
            runtime_id: self.id,
            kind: EventKind::WillBlockOn { other_runtime_id: other, database_key: key },
        }
    }

    /// True if the runtime can try to block on `key`, which `other` executes:
    /// it is running, and if that closes a cycle, the cycle can be resolved.
    pub open spec fn can_block(
        self,
        graph: GraphView,
        key: DatabaseKeyIndex,
        other: RuntimeId,
        recovery: Recovery,
    ) -> bool {
        &&& self.stack is Some
        &&& graph.is_running(self.id)
        &&& graph.depends_on(other, self.id) ==> graph.resolvable(
            self.id,
            self.stack->0,
            key,
            other,
            recovery,
        )
    }

    /// What becomes of an attempt to block on `key`, which `other` executes.
    ///
    /// A cycle is resolved first. The runtime unwinds if it is to recover from
    /// the cycle or if nobody does, and keeps its stack. Otherwise it is
    /// blocked, and its stack moves into the graph.
    pub open spec fn block_step(
        self,
        graph: GraphView,
        key: DatabaseKeyIndex,
        other: RuntimeId,
        recovery: Recovery,
    ) -> BlockStep {
        let own = self.stack->0;
        if graph.depends_on(other, self.id) {
            let resolved = graph.resolve(self.id, own, key, other, recovery);
            match resolved.outcome {
                Ok(()) => BlockStep {
                    runtime: RuntimeView { stack: None, ..self },
                    graph: resolved.graph.block(self.id, key, other, resolved.stack),
                    outcome: Ok(()),
                },
                Err(unwind) => BlockStep {
                    runtime: self.with_stack(resolved.stack),
                    graph: resolved.graph,
                    outcome: Err(unwind),
                },
            }
        } else {
            BlockStep {
                runtime: RuntimeView { stack: None, ..self },
                graph: graph.block(self.id, key, other, own),
                outcome: Ok(()),
            }
        }
    }
}

/// A read keeps a runtime what it has to be.
pub proof fn lemma_read_wf(
    runtime: RuntimeView,
    input: DependencyIndex,
    durability: Durability,
    changed_at: Revision,
)
    requires
        runtime.wf(),
    ensures
        runtime.after_tracked_read(input, durability, changed_at).wf(),
{
    if runtime.is_executing() {
        assert(runtime.top() == runtime.stack->0[runtime.stack->0.len() - 1]);
        lemma_edges_with(runtime.top().edges, (EdgeKind::Input, input));
    }
}

/// A read of untracked state keeps a runtime what it has to be.
pub proof fn lemma_untracked_read_wf(runtime: RuntimeView)
    requires
        runtime.wf(),
    ensures
        runtime.after_untracked_read().wf(),
{
    if runtime.is_executing() {
        assert(runtime.top() == runtime.stack->0[runtime.stack->0.len() - 1]);
    }
}

/// A write of an output keeps a runtime what it has to be.
pub proof fn lemma_output_wf(runtime: RuntimeView, key: DependencyIndex)
    requires
        runtime.wf(),
    ensures
        runtime.after_output(key).wf(),
{
    if runtime.is_executing() {
        assert(runtime.top() == runtime.stack->0[runtime.stack->0.len() - 1]);
        lemma_edges_with(runtime.top().edges, (EdgeKind::Output, key));
    }
}

/// Creating an entity keeps a runtime what it has to be.
pub proof fn lemma_entity_wf(
    runtime: RuntimeView,
    entity_index: IngredientIndex,
    reset_at: Revision,
    data_hash: u64,
)
    requires
        runtime.wf(),
        runtime.is_executing(),
    ensures
        runtime.after_entity(entity_index, reset_at, data_hash).wf(),
{
    let table = DependencyIndex::spec_for_table(entity_index);
    lemma_read_wf(runtime, table, Durability::MAX, reset_at);
    let read = runtime.after_tracked_read(table, Durability::MAX, reset_at);
    assert(read.top() == read.stack->0[read.stack->0.len() - 1]);
}

} // verus!
