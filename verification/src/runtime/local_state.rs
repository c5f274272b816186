//! The state of a runtime that belongs to one thread.

pub use crate::runtime::active_query::EdgeKind;

use crate::durability::Durability;
use crate::key::{DatabaseKeyIndex, DependencyIndex};
use crate::revision::Revision;
use crate::runtime::active_query::{stack_view, ActiveQuery, Disambiguator, QueryView, SavedQueryState};
use crate::runtime::Stamp;
use vstd::prelude::*;

verus! {

/// The queries that a thread is executing.
#[derive(Debug)]
pub struct LocalState {
    /// The queries that are being executed, the innermost last; `None` while
    /// the stack has been taken.
    query_stack: Option<Vec<ActiveQuery>>,
}

impl View for LocalState {
    type V = Option<Seq<QueryView>>;

    closed spec fn view(&self) -> Option<Seq<QueryView>> {
        match self.query_stack {
            Some(stack) => Some(stack_view(stack@)),
            None => None,
        }
    }
}

/// The stack with `top` in place of its innermost query.
pub open spec fn with_top(stack: Seq<QueryView>, top: QueryView) -> Seq<QueryView> {
    stack.update(stack.len() - 1, top)
}

/// Shows which query was pushed, and how deep it lies on the stack.
#[derive(Debug)]
pub struct ActiveQueryGuard {
    database_key_index: DatabaseKeyIndex,
    push_len: usize,
}

impl ActiveQueryGuard {
    /// The query that was pushed.
    pub closed spec fn key(self) -> DatabaseKeyIndex {
        self.database_key_index
    }

    /// How many queries the stack held once it was pushed.
    pub closed spec fn depth(self) -> nat {
        self.push_len as nat
    }
}

impl Default for LocalState {
    fn default() -> (state: LocalState)
        ensures
            state@ == Some(Seq::<QueryView>::empty()),
    {
        let state = LocalState { query_stack: Some(Vec::new()) };
        assert(state@->0 =~= Seq::<QueryView>::empty());
        state
    }
}

impl LocalState {
    /// Starts a query inside the innermost one.
    pub fn push_query(&mut self, database_key_index: DatabaseKeyIndex) -> (guard: ActiveQueryGuard)
        requires
            old(self)@ is Some,
        ensures
            final(self)@ == Some(old(self)@->0.push(QueryView::fresh(database_key_index))),
            guard.key() == database_key_index,
            guard.depth() == old(self)@->0.len() + 1,
    {
        let mut push_len: usize = 0;
        if let Some(stack) = &mut self.query_stack {
            stack.push(ActiveQuery::new(database_key_index));
            push_len = stack.len();
        }
        assert(self@->0 =~= old(self)@->0.push(QueryView::fresh(database_key_index)));
        ActiveQueryGuard { database_key_index, push_len }
    }

    /// Ends the query that `guard` stands for, which must be the innermost one.
    pub fn pop_query(&mut self, guard: ActiveQueryGuard) -> (query: ActiveQuery)
        requires
            old(self)@ is Some,
            old(self)@->0.len() == guard.depth(),
            old(self)@->0.len() > 0,
            old(self)@->0.last().key == guard.key(),
        ensures
            query@ == old(self)@->0.last(),
            final(self)@ == Some(old(self)@->0.drop_last()),
    {
        let mut stack: Vec<ActiveQuery> = self.query_stack.take().unwrap();
        let query: ActiveQuery = stack.pop().unwrap();
        self.query_stack = Some(stack);
        assert(self@->0 =~= old(self)@->0.drop_last());
        query
    }

    /// The innermost query, with the stamp that it has so far.
    pub fn active_query(&self) -> (active: Option<(DatabaseKeyIndex, Stamp)>)
        requires
            self@ is Some,
        ensures
            active == (if self@->0.len() == 0 {
                None
            } else {
                Some((self@->0.last().key, self@->0.last().stamp()))
            }),
    {
        match &self.query_stack {
            Some(stack) => {
                let len: usize = stack.len();
                if len == 0 {
                    None
                } else {
                    Some((stack[len - 1].database_key_index, stack[len - 1].stamp()))
                }
            },
            None => None,
        }
    }

    /// Records that the innermost query, if there is one, writes `entity`.
    pub fn add_output(&mut self, entity: DependencyIndex)
        requires
            old(self)@ is Some,
        ensures
            final(self)@ == (if old(self)@->0.len() == 0 {
                old(self)@
            } else {
                Some(with_top(old(self)@->0, old(self)@->0.last().with_output(entity)))
            }),
    {
        if let Some(stack) = &mut self.query_stack {
            let len: usize = stack.len();
            if len > 0 {
                stack[len - 1].add_output(entity);
            }
        }
        assert(self@->0 =~= if old(self)@->0.len() == 0 {
            old(self)@->0
        } else {
            with_top(old(self)@->0, old(self)@->0.last().with_output(entity))
        });
    }

    /// True if the innermost query has written `entity`.
    pub fn is_output(&self, entity: DependencyIndex) -> (written: bool)
        requires
            self@ is Some,
        ensures
            written == (self@->0.len() > 0 && self@->0.last().has_output(entity)),
    {
        match &self.query_stack {
            Some(stack) => {
                let len: usize = stack.len();
                len > 0 && stack[len - 1].is_output(entity)
            },
            None => false,
        }
    }

    /// Records that the innermost query, if there is one, reads `input`.
    pub fn report_tracked_read(
        &mut self,
        input: DependencyIndex,
        durability: Durability,
        changed_at: Revision,
    )
        requires
            old(self)@ is Some,
        ensures
            final(self)@ == (if old(self)@->0.len() == 0 {
                old(self)@
            } else {
                Some(
                    with_top(
                        old(self)@->0,
                        old(self)@->0.last().with_read(input, durability, changed_at),
                    ),
                )
            }),
    {
        if let Some(stack) = &mut self.query_stack {
            let len: usize = stack.len();
            if len > 0 {
                stack[len - 1].add_read(input, durability, changed_at);
            }
        }
        assert(self@->0 =~= if old(self)@->0.len() == 0 {
            old(self)@->0
        } else {
            with_top(old(self)@->0, old(self)@->0.last().with_read(input, durability, changed_at))
        });
    }

    /// Records that the innermost query, if there is one, reads state that the
    /// runtime does not track.
    pub fn report_untracked_read(&mut self, current_revision: Revision)
        requires
            old(self)@ is Some,
        ensures
            final(self)@ == (if old(self)@->0.len() == 0 {
                old(self)@
            } else {
                Some(
                    with_top(
                        old(self)@->0,
                        old(self)@->0.last().with_untracked_read(current_revision),
                    ),
                )
            }),
    {
        if let Some(stack) = &mut self.query_stack {
            let len: usize = stack.len();
            if len > 0 {
                stack[len - 1].add_untracked_read(current_revision);
            }
        }
        assert(self@->0 =~= if old(self)@->0.len() == 0 {
            old(self)@->0
        } else {
            with_top(old(self)@->0, old(self)@->0.last().with_untracked_read(current_revision))
        });
    }

    /// Picks the disambiguator of a new entity that the innermost query creates.
    pub fn disambiguate(&mut self, data_hash: u64) -> (disambiguated: (
        DatabaseKeyIndex,
        Stamp,
        Disambiguator,
    ))
        requires
            old(self)@ is Some,
            old(self)@->0.len() > 0,
            old(self)@->0.last().next_disambiguator(data_hash).0 < u32::MAX,
        ensures
            disambiguated.0 == old(self)@->0.last().key,
            disambiguated.1 == old(self)@->0.last().stamp(),
            disambiguated.2 == old(self)@->0.last().next_disambiguator(data_hash),
            final(self)@ == Some(with_top(old(self)@->0, old(self)@->0.last().with_entity(data_hash))),
    {
        let mut stack: Vec<ActiveQuery> = self.query_stack.take().unwrap();
        let mut top: ActiveQuery = stack.pop().unwrap();
        let disambiguator = top.disambiguate(data_hash);
        let disambiguated = (top.database_key_index, top.stamp(), disambiguator);
        stack.push(top);
        self.query_stack = Some(stack);
        assert(self@->0 =~= with_top(old(self)@->0, old(self)@->0.last().with_entity(data_hash)));
        disambiguated
    }

    /// True while the stack has been taken away.
    pub fn is_taken(&self) -> (taken: bool)
        ensures
            taken == (self@ is None),
    {
        self.query_stack.is_none()
    }

    /// The queries that are being executed, the innermost last.
    pub fn query_stack(&self) -> (stack: &Vec<ActiveQuery>)
        requires
            self@ is Some,
        ensures
            stack_view(stack@) == self@->0,
    {
        self.query_stack.as_ref().unwrap()
    }

    /// Takes the stack away. It must be put back before the thread goes on.
    pub fn take_query_stack(&mut self) -> (stack: Vec<ActiveQuery>)
        requires
            old(self)@ is Some,
        ensures
            stack_view(stack@) == old(self)@->0,
            final(self)@ is None,
    {
        self.query_stack.take().unwrap()
    }

    /// Puts a stack that was taken away back.
    pub fn restore_query_stack(&mut self, stack: Vec<ActiveQuery>)
        requires
            old(self)@ is None,
        ensures
            final(self)@ == Some(stack_view(stack@)),
    {
        self.query_stack = Some(stack);
    }

    /// Saves the dependencies that the innermost query, if there is one, has now.
    pub fn save_query_state(&self) -> (saved: Option<SavedQueryState>)
        requires
            self@ is Some,
        ensures
            saved is Some <==> self@->0.len() > 0,
            saved matches Some(state) ==> state.saved_from(self@->0.last()),
    {
        match &self.query_stack {
            Some(stack) => {
                let len: usize = stack.len();
                if len == 0 {
                    None
                } else {
                    Some(stack[len - 1].save_query_state())
                }
            },
            None => None,
        }
    }

    /// Makes the innermost query go back to dependencies that were saved.
    pub fn restore_query_state(&mut self, saved: SavedQueryState)
        requires
            old(self)@ is Some,
            old(self)@->0.len() > 0,
        ensures
            forall|earlier: QueryView| #[trigger]
                saved.saved_from(earlier) ==> final(self)@ == Some(
                    with_top(
                        old(self)@->0,
                        old(self)@->0.last().with_dependencies_of(earlier),
                    ),
                ),
    {
        let mut stack: Vec<ActiveQuery> = self.query_stack.take().unwrap();
        let mut top: ActiveQuery = stack.pop().unwrap();
        top.restore_query_state(saved);
        stack.push(top);
        self.query_stack = Some(stack);
        assert forall|earlier: QueryView| #[trigger] saved.saved_from(earlier) implies self@
            == Some(
            with_top(old(self)@->0, old(self)@->0.last().with_dependencies_of(earlier)),
        ) by {
            assert(self@->0 =~= with_top(
                old(self)@->0,
                old(self)@->0.last().with_dependencies_of(earlier),
            ));
        }
    }
}

} // verus!
