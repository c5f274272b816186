use salsa_runtime::cycle::{rotate_to_min, Cycle, CycleRecoveryStrategy};
use salsa_runtime::durability::Durability;
use salsa_runtime::event::{Cancelled, Database, Event, EventKind, Ingredients, Unwind};
use salsa_runtime::key::{DatabaseKeyIndex, DependencyIndex, Id, IngredientIndex};
use salsa_runtime::revision::Revision;
use salsa_runtime::runtime::active_query::{ActiveQuery, EdgeKind};
use salsa_runtime::runtime::dependency_graph::DependencyGraph;
use salsa_runtime::runtime::{Runtime, RuntimeId, WaitResult};
use std::cell::RefCell;
use std::sync::Arc;

/// Ingredients of which the listed ones recover from cycles.
fn ingredients(fallback: &[u32]) -> Ingredients {
    let mut ingredients = Ingredients::default();
    for ingredient in fallback {
        ingredients.set_fallback(IngredientIndex(*ingredient));
    }
    ingredients
}

/// A database in which the listed ingredients recover from cycles.
fn database(fallback: &[u32]) -> Database<impl Fn(Event)> {
    Database::new(ingredients(fallback), |_event: Event| {})
}

/// A database that writes down what it is told of.
fn recording<'a>(
    fallback: &[u32],
    told: &'a RefCell<Vec<Event>>,
) -> Database<impl Fn(Event) + 'a> {
    Database::new(ingredients(fallback), |event: Event| told.borrow_mut().push(event))
}

fn id(counter: usize) -> RuntimeId {
    RuntimeId::from_counter(counter)
}

/// The revision with the given number; the first one is number 1.
fn revision(number: usize) -> Revision {
    Revision { since_start: number - 1 }
}

fn key(ingredient: u32, row: u32) -> DatabaseKeyIndex {
    DatabaseKeyIndex { ingredient_index: IngredientIndex(ingredient), key_index: Id(row) }
}

fn stack(keys: &[DatabaseKeyIndex]) -> Vec<ActiveQuery> {
    keys.iter().map(|key| ActiveQuery::new(*key)).collect()
}

/// Runtime 0 (running) executes 11, 12, 13; runtime 1 executes 21, 22, 23 and
/// waits for 32; runtime 2 executes 31, 32, 33 and waits for 12. The ingredient
/// of a query is its number.
fn ring() -> (Runtime, DependencyGraph) {
    let mut runtime = Runtime::default();
    runtime.push_query(key(11, 0));
    runtime.push_query(key(12, 0));
    runtime.push_query(key(13, 0));
    let mut graph = DependencyGraph::default();
    graph.add_edge(id(2), key(12, 0), id(0), stack(&[key(31, 0), key(32, 0), key(33, 0)]));
    graph.add_edge(id(1), key(32, 0), id(2), stack(&[key(21, 0), key(22, 0), key(23, 0)]));
    (runtime, graph)
}

fn ring_keys() -> Vec<DatabaseKeyIndex> {
    vec![key(12, 0), key(13, 0), key(22, 0), key(23, 0), key(32, 0), key(33, 0)]
}

#[test]
fn dependencies_are_transitive() {
    let (_, graph) = ring();
    assert!(graph.depends_on(id(1), id(2)));
    assert!(graph.depends_on(id(2), id(0)));
    assert!(graph.depends_on(id(1), id(0)));
    assert!(graph.depends_on(id(0), id(0)));
    assert!(!graph.depends_on(id(0), id(1)));
    assert!(!graph.depends_on(id(2), id(1)));
    assert!(!graph.depends_on(id(7), id(0)));
    assert!(graph.is_running(id(0)));
    assert!(!graph.is_running(id(1)));
}

#[test]
fn nobody_recovers() {
    let (mut runtime, mut graph) = ring();
    let told = RefCell::new(Vec::new());
    let mut db = recording(&[], &told);
    assert!(runtime.can_block_on(&db, &graph, key(22, 0), id(1)));
    match runtime.block_on(&mut db, &mut graph, key(22, 0), id(1)) {
        Err(Unwind::UnrecoveredCycle(cycle)) => assert_eq!(cycle.participant_keys(), &ring_keys()),
        other => panic!("{:?}", other),
    }
    assert!(told.borrow().is_empty());
    assert!(!runtime.is_blocked());
    assert!(!graph.is_running(id(1)));
    assert!(!graph.is_running(id(2)));
    assert!(graph.depends_on(id(1), id(0)));
}

#[test]
fn own_query_recovers() {
    let (mut runtime, mut graph) = ring();
    let mut db = database(&[13]);
    match runtime.block_on(&mut db, &mut graph, key(22, 0), id(1)) {
        Err(Unwind::Cycle(cycle)) => assert_eq!(cycle.participant_keys(), &ring_keys()),
        other => panic!("{:?}", other),
    }
    assert!(!runtime.is_blocked());
    assert_eq!(runtime.active_query().unwrap().0, key(13, 0));
    assert!(!graph.is_running(id(1)));
    assert!(graph.take_wait_result(id(2)).is_none());
    // The marked query cannot be unwound for a second cycle at the same time.
    assert!(!runtime.can_block_on(&db, &graph, key(22, 0), id(1)));
}

#[test]
fn another_runtime_recovers() {
    let (mut runtime, mut graph) = ring();
    let told = RefCell::new(Vec::new());
    let mut db = recording(&[32], &told);
    assert!(runtime.block_on(&mut db, &mut graph, key(22, 0), id(1)).is_ok());
    assert!(runtime.is_blocked());
    let events = told.borrow().clone();
    assert_eq!(events.len(), 1);
    assert_eq!(events[0].runtime_id, id(0));
    match events[0].kind {
        EventKind::WillBlockOn { other_runtime_id, database_key } => {
            assert_eq!(other_runtime_id, id(1));
            assert_eq!(database_key, key(22, 0));
        }
        other => panic!("{:?}", other),
    }
    // The way back to runtime 0 is cut at runtime 2, and 0 waits for 1 now.
    assert!(!graph.depends_on(id(1), id(0)));
    assert!(graph.depends_on(id(0), id(2)));
    assert!(graph.take_wait_result(id(1)).is_none());
    let (queries, result) = graph.take_wait_result(id(2)).unwrap();
    match result {
        WaitResult::Cycle(cycle) => assert_eq!(cycle.participant_keys(), &ring_keys()),
        other => panic!("{:?}", other),
    }
    assert!(queries[0].cycle.is_none());
    assert!(queries[1].cycle.is_some());
    assert!(queries[2].cycle.is_some());
    assert!(graph.is_running(id(2)));
}

#[test]
fn queries_before_the_entry_do_not_count() {
    let (mut runtime, mut graph) = ring();
    let mut db = database(&[11, 21, 31]);
    match runtime.block_on(&mut db, &mut graph, key(22, 0), id(1)) {
        Err(Unwind::UnrecoveredCycle(_)) => {}
        other => panic!("{:?}", other),
    }
}

#[test]
fn marked_queries_depend_on_what_the_cycle_depends_on() {
    let mut runtime = Runtime::default();
    runtime.push_query(key(1, 0));
    runtime.report_tracked_read(
        DependencyIndex::from(key(50, 0)),
        Durability::Medium,
        revision(1),
    );
    runtime.push_query(key(2, 0));
    let mut waiting = ActiveQuery::new(key(3, 0));
    waiting.add_read(DependencyIndex::from(key(60, 0)), Durability::High, revision(4));
    waiting.add_read(DependencyIndex::from(key(1, 0)), Durability::Low, revision(2));
    let mut graph = DependencyGraph::default();
    graph.add_edge(id(1), key(1, 0), id(0), vec![waiting]);
    let mut db = database(&[3]);
    assert!(runtime.block_on(&mut db, &mut graph, key(3, 0), id(1)).is_ok());
    let (queries, _) = graph.take_wait_result(id(1)).unwrap();
    assert_eq!(queries[0].durability, Durability::Low);
    assert_eq!(queries[0].changed_at, revision(4));
    assert_eq!(
        queries[0].input_outputs,
        vec![
            (EdgeKind::Input, DependencyIndex::from(key(60, 0))),
            (EdgeKind::Input, DependencyIndex::from(key(50, 0))),
        ]
    );
    assert_eq!(
        queries[0].cycle.as_ref().unwrap().participant_keys(),
        &vec![key(1, 0), key(2, 0), key(3, 0)]
    );
}

#[test]
fn cycle_on_one_stack() {
    let mut runtime = Runtime::default();
    runtime.push_query(key(4, 0));
    runtime.push_query(key(3, 0));
    runtime.push_query(key(5, 0));
    let mut graph = DependencyGraph::default();
    let mut db = database(&[]);
    let own = runtime.id();
    match runtime.block_on(&mut db, &mut graph, key(3, 0), own) {
        Err(Unwind::UnrecoveredCycle(cycle)) => {
            assert_eq!(cycle.participant_keys(), &vec![key(3, 0), key(5, 0)]);
        }
        other => panic!("{:?}", other),
    }
}

#[test]
fn cycle_without_participants_is_refused() {
    let mut runtime = Runtime::default();
    runtime.push_query(key(4, 0));
    let told = RefCell::new(Vec::new());
    let mut db = recording(&[], &told);
    let own = runtime.id();
    assert!(runtime.block_on_or_unwind(&mut db, key(9, 0), own, ()).is_none());
    assert!(!runtime.is_blocked());
    assert!(told.borrow().is_empty());
}

#[test]
fn order_of_participants_ignores_the_entry() {
    let keys = vec![key(2, 1), key(1, 5), key(3, 0), key(1, 2)];
    let expected = vec![key(1, 2), key(2, 1), key(1, 5), key(3, 0)];
    for entry in 0..keys.len() {
        let mut turned = keys.clone();
        turned.rotate_left(entry);
        assert_eq!(rotate_to_min(turned), expected);
    }
    assert_eq!(rotate_to_min(vec![key(7, 7)]), vec![key(7, 7)]);
}

#[test]
fn cloned_cycle_has_the_same_participants() {
    let cycle = Cycle::new(Arc::new(vec![key(1, 1), key(2, 2)]));
    assert_eq!(cycle.clone().participant_keys(), cycle.participant_keys());
}

#[test]
fn completion_unblocks_all_that_wait_for_the_query() {
    let mut graph = DependencyGraph::default();
    graph.add_edge(id(1), key(1, 0), id(0), stack(&[key(2, 0)]));
    graph.add_edge(id(2), key(1, 0), id(0), stack(&[key(3, 0)]));
    graph.add_edge(id(3), key(1, 1), id(0), stack(&[key(4, 0)]));
    let mut unblocked = graph.unblock_runtimes_blocked_on(key(1, 0), WaitResult::Completed);
    unblocked.sort();
    assert_eq!(unblocked, vec![id(1), id(2)]);
    assert!(!graph.depends_on(id(1), id(0)));
    assert!(graph.depends_on(id(3), id(0)));
    let (queries, result) = graph.take_wait_result(id(2)).unwrap();
    assert_eq!(queries[0].database_key_index, key(3, 0));
    assert!(matches!(result, WaitResult::Completed));
    assert!(graph.take_wait_result(id(2)).is_none());
    assert!(graph.unblock_runtimes_blocked_on(key(8, 8), WaitResult::Completed).is_empty());
}

#[test]
fn wait_is_registered_and_ends() {
    let mut runtime = Runtime::default();
    runtime.push_query(key(1, 0));
    let told = RefCell::new(Vec::new());
    let mut db = recording(&[], &told);
    let outcome = runtime.block_on_or_unwind(&mut db, key(2, 0), id(1), ());
    assert!(matches!(outcome, Some(Ok(()))));
    assert!(runtime.is_blocked());
    assert_eq!(told.borrow().len(), 1);
    assert!(runtime.resume().is_none());
    assert_eq!(runtime.unblock_queries_blocked_on(key(2, 1), WaitResult::Completed), vec![]);
    assert!(runtime.resume().is_none());
    assert_eq!(runtime.unblock_queries_blocked_on(key(2, 0), WaitResult::Completed), vec![id(0)]);
    assert!(matches!(runtime.resume(), Some(Ok(()))));
    assert!(!runtime.is_blocked());
    assert_eq!(runtime.active_query().unwrap().0, key(1, 0));
}

#[test]
fn panic_of_the_other_thread_cancels_this_one() {
    let mut runtime = Runtime::default();
    runtime.push_query(key(1, 0));
    let mut db = database(&[]);
    assert!(matches!(runtime.block_on_or_unwind(&mut db, key(2, 0), id(1), ()), Some(Ok(()))));
    runtime.unblock_queries_blocked_on(key(2, 0), WaitResult::Panicked);
    match runtime.resume() {
        Some(Err(Unwind::Cancelled(cancelled))) => {
            assert_eq!(cancelled, Cancelled::PropagatedPanic);
        }
        other => panic!("{:?}", other),
    }
    assert!(!runtime.is_blocked());
}

#[test]
fn wait_that_ends_in_a_cycle_unwinds() {
    let mut runtime = Runtime::default();
    runtime.push_query(key(1, 0));
    let mut db = database(&[]);
    assert!(matches!(runtime.block_on_or_unwind(&mut db, key(2, 0), id(1), ()), Some(Ok(()))));
    let cycle = Cycle::new(Arc::new(vec![key(1, 0), key(2, 0)]));
    runtime.unblock_queries_blocked_on(key(2, 0), WaitResult::Cycle(cycle));
    match runtime.resume() {
        Some(Err(Unwind::Cycle(cycle))) => {
            assert_eq!(cycle.participant_keys(), &vec![key(1, 0), key(2, 0)]);
        }
        other => panic!("{:?}", other),
    }
}

#[test]
fn locked_graph_detects_cycles() {
    let mut runtime = Runtime::default();
    runtime.push_query(key(1, 0));
    runtime.push_query(key(2, 0));
    let mut db = database(&[1]);
    let own = runtime.id();
    match runtime.block_on_or_unwind(&mut db, key(1, 0), own, ()) {
        Some(Err(Unwind::Cycle(cycle))) => {
            assert_eq!(cycle.participant_keys(), &vec![key(1, 0), key(2, 0)]);
        }
        other => panic!("{:?}", other),
    }
    assert!(!runtime.is_blocked());
    // The lock is free again, and nobody waits behind it.
    assert!(runtime.unblock_queries_blocked_on(key(1, 0), WaitResult::Completed).is_empty());
}

#[test]
fn participants_are_known_before_blocking() {
    let mut runtime = Runtime::default();
    runtime.push_query(key(4, 0));
    runtime.push_query(key(3, 0));
    runtime.push_query(key(5, 0));
    let own = runtime.id();
    assert_eq!(
        runtime.cycle_participants(key(3, 0), own),
        Some(vec![key(3, 0), key(5, 0)])
    );
    assert_eq!(runtime.cycle_participants(key(3, 0), id(7)), None);
    assert!(!runtime.is_blocked());
}

#[test]
fn unrecovered_cycle_leaves_everything_as_it_was() {
    let (mut runtime, mut graph) = ring();
    let before = format!("{:?}", runtime.active_query());
    assert!(runtime.block_on(&mut database(&[]), &mut graph, key(22, 0), id(1)).is_err());
    assert_eq!(format!("{:?}", runtime.active_query()), before);
    for (waiter, waited_for) in [(id(1), key(32, 0)), (id(2), key(12, 0))] {
        assert_eq!(
            graph.unblock_runtimes_blocked_on(waited_for, WaitResult::Completed),
            vec![waiter]
        );
        let (queries, _) = graph.take_wait_result(waiter).unwrap();
        assert!(queries.iter().all(|query| query.cycle.is_none()));
        assert!(queries.iter().all(|query| query.input_outputs.is_empty()));
    }
}

#[test]
fn waits_are_recorded_behind_the_lock() {
    let mut runtime = Runtime::default();
    runtime.push_query(key(1, 0));
    let idle = format!("{:?}", runtime.dependency_graph());
    let mut db = database(&[]);
    assert!(matches!(runtime.block_on_or_unwind(&mut db, key(2, 0), id(1), ()), Some(Ok(()))));
    assert_ne!(format!("{:?}", runtime.dependency_graph()), idle);
    runtime.unblock_queries_blocked_on(key(2, 0), WaitResult::Completed);
    assert!(matches!(runtime.resume(), Some(Ok(()))));
    assert_eq!(format!("{:?}", runtime.dependency_graph()), idle);
}

#[test]
fn handler_can_cancel_the_check_that_it_is_told_of() {
    let mut runtime = Runtime::default();
    runtime.push_query(key(1, 0));
    let flag = runtime.revision_canceled();
    let told = RefCell::new(Vec::new());
    let mut db = Database::new(Ingredients::default(), |event: Event| {
        told.borrow_mut().push(event);
        flag.store(true);
    });
    match runtime.unwind_if_revision_cancelled(&mut db) {
        Err(Unwind::Cancelled(cancelled)) => assert_eq!(cancelled, Cancelled::PendingWrite),
        other => panic!("{:?}", other),
    }
    assert_eq!(told.borrow().len(), 2);
    // Unwinding does not clear the flag.
    assert!(flag.load());
}

#[test]
fn panic_cancels_all_that_wait() {
    let mut graph = DependencyGraph::default();
    graph.add_edge(id(1), key(1, 0), id(0), stack(&[key(2, 0)]));
    graph.add_edge(id(2), key(1, 0), id(0), stack(&[key(3, 0)]));
    graph.unblock_runtimes_blocked_on(key(1, 0), WaitResult::Panicked);
    for waiter in [id(1), id(2)] {
        let (queries, result) = graph.take_wait_result(waiter).unwrap();
        let mut runtime = Runtime::default();
        let mut other = DependencyGraph::default();
        runtime.block_on(&mut database(&[]), &mut other, key(1, 0), id(9)).unwrap();
        match runtime.end_wait(queries, result) {
            Err(Unwind::Cancelled(cancelled)) => {
                assert_eq!(cancelled, Cancelled::PropagatedPanic);
            }
            other => panic!("{:?}", other),
        }
    }
}

#[test]
fn query_guard_is_dropped_once_registered() {
    let token = Arc::new(());
    let mut runtime = Runtime::default();
    runtime.push_query(key(1, 0));
    let mut db = database(&[]);
    assert!(runtime.block_on_or_unwind(&mut db, key(2, 0), id(1), token.clone()).is_some());
    assert_eq!(Arc::strong_count(&token), 1);
}

#[test]
fn cancelled_revision_unwinds() {
    let mut runtime = Runtime::default();
    runtime.new_revision();
    runtime.push_query(key(1, 0));
    let told = RefCell::new(Vec::new());
    let mut db = recording(&[], &told);
    assert!(runtime.unwind_if_revision_cancelled(&mut db).is_ok());
    let events = told.take();
    assert_eq!(events.len(), 1);
    assert!(matches!(events[0].kind, EventKind::WillCheckCancellation));

    runtime.set_cancellation_flag();
    match runtime.unwind_if_revision_cancelled(&mut db) {
        Err(Unwind::Cancelled(cancelled)) => assert_eq!(cancelled, Cancelled::PendingWrite),
        other => panic!("{:?}", other),
    }
    let events = told.take();
    assert_eq!(events.len(), 2);
    assert!(matches!(events[1].kind, EventKind::WillCheckCancellation));
    assert_eq!(events[1].runtime_id, id(0));
    let (_, stamp) = runtime.active_query().unwrap();
    assert_eq!(stamp.durability, Durability::Low);
    assert_eq!(stamp.changed_at, revision(2));
}

#[test]
fn given_flag_decides_about_unwinding() {
    let mut runtime = Runtime::default();
    let told = RefCell::new(Vec::new());
    let mut db = recording(&[], &told);
    assert!(runtime.check_cancellation(&mut db, false).is_ok());
    assert!(told.borrow().is_empty());
    assert!(runtime.check_cancellation(&mut db, true).is_err());
    assert_eq!(told.borrow().len(), 1);
}

#[test]
fn ingredients_recover_only_if_told_to() {
    let known = ingredients(&[3]);
    assert_eq!(known.cycle_recovery_strategy(IngredientIndex(3)), CycleRecoveryStrategy::Fallback);
    assert_eq!(known.cycle_recovery_strategy(IngredientIndex(4)), CycleRecoveryStrategy::Panic);
}
