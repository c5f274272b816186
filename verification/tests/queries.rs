use salsa_runtime::durability::Durability;
use salsa_runtime::key::{DatabaseKeyIndex, DependencyIndex, Id, IngredientIndex};
use salsa_runtime::revision::Revision;
use salsa_runtime::runtime::active_query::{ActiveQuery, Disambiguator, EdgeKind};
use salsa_runtime::runtime::Runtime;

fn key(ingredient: u32, row: u32) -> DatabaseKeyIndex {
    DatabaseKeyIndex { ingredient_index: IngredientIndex(ingredient), key_index: Id(row) }
}

fn dependency(ingredient: u32, row: u32) -> DependencyIndex {
    DependencyIndex::from(key(ingredient, row))
}

/// The revision with the given number; the first one is number 1.
fn revision(number: usize) -> Revision {
    Revision { since_start: number - 1 }
}

#[test]
fn reads_lower_the_stamp_of_the_active_query() {
    let mut runtime = Runtime::default();
    runtime.new_revision();
    runtime.new_revision();
    let guard = runtime.push_query(key(1, 1));
    let (active, stamp) = runtime.active_query().unwrap();
    assert_eq!(active, key(1, 1));
    assert_eq!(stamp.durability, Durability::High);
    assert_eq!(stamp.changed_at, revision(1));

    runtime.report_tracked_read(dependency(2, 1), Durability::Medium, revision(3));
    runtime.report_tracked_read(dependency(2, 2), Durability::High, revision(2));
    runtime.report_tracked_read(dependency(2, 1), Durability::Medium, revision(3));
    let (_, stamp) = runtime.active_query().unwrap();
    assert_eq!(stamp.durability, Durability::Medium);
    assert_eq!(stamp.changed_at, revision(3));

    let query = runtime.pop_query(guard);
    assert_eq!(
        query.input_outputs,
        vec![(EdgeKind::Input, dependency(2, 1)), (EdgeKind::Input, dependency(2, 2))]
    );
    assert!(!query.untracked_read);
    assert!(runtime.active_query().is_none());
}

#[test]
fn reads_concern_the_innermost_query_only() {
    let mut runtime = Runtime::default();
    let outer = runtime.push_query(key(1, 1));
    let inner = runtime.push_query(key(1, 2));
    runtime.report_tracked_read(dependency(2, 1), Durability::Low, revision(1));
    assert_eq!(runtime.pop_query(inner).durability, Durability::Low);
    assert_eq!(runtime.active_query().unwrap().0, key(1, 1));
    assert_eq!(runtime.pop_query(outer).durability, Durability::High);
}

#[test]
fn without_a_query_reads_and_writes_are_ignored() {
    let mut runtime = Runtime::default();
    runtime.report_tracked_read(dependency(2, 1), Durability::Low, revision(1));
    runtime.report_untracked_read();
    runtime.add_output(dependency(2, 1));
    assert!(!runtime.is_output_of_active_query(dependency(2, 1)));
    assert!(runtime.active_query().is_none());
}

#[test]
fn untracked_read_is_outdated_in_the_next_revision() {
    let mut runtime = Runtime::default();
    runtime.new_revision();
    let guard = runtime.push_query(key(1, 1));
    runtime.report_untracked_read();
    runtime.report_tracked_read(dependency(2, 1), Durability::High, revision(1));
    let query = runtime.pop_query(guard);
    assert!(query.untracked_read);
    assert_eq!(query.durability, Durability::Low);
    assert_eq!(query.changed_at, revision(2));
    runtime.new_revision();
    assert!(runtime.last_changed_revision(query.durability) > query.changed_at);
}

#[test]
fn output_is_recorded_once() {
    let mut runtime = Runtime::default();
    let guard = runtime.push_query(key(1, 1));
    assert!(!runtime.is_output_of_active_query(dependency(3, 1)));
    runtime.add_output(dependency(3, 1));
    runtime.add_output(dependency(3, 1));
    assert!(runtime.is_output_of_active_query(dependency(3, 1)));
    assert!(!runtime.is_output_of_active_query(dependency(3, 2)));
    let query = runtime.pop_query(guard);
    assert_eq!(query.input_outputs, vec![(EdgeKind::Output, dependency(3, 1))]);
}

#[test]
fn outputs_belong_to_the_query_that_was_innermost() {
    let mut runtime = Runtime::default();
    let outer = runtime.push_query(key(1, 1));
    runtime.add_output(dependency(3, 1));
    let inner = runtime.push_query(key(1, 2));
    runtime.add_output(dependency(3, 2));
    runtime.report_tracked_read(dependency(3, 3), Durability::Low, revision(1));
    let ended = runtime.pop_query(inner);
    assert_eq!(ended.database_key_index, key(1, 2));
    assert!(ended.is_output(dependency(3, 2)));
    assert!(!ended.is_output(dependency(3, 1)));
    assert!(runtime.is_output_of_active_query(dependency(3, 1)));
    assert!(!runtime.is_output_of_active_query(dependency(3, 2)));
    // The inner query has left the outer one as it was.
    let ended = runtime.pop_query(outer);
    assert_eq!(ended.input_outputs, vec![(EdgeKind::Output, dependency(3, 1))]);
    assert_eq!(ended.durability, Durability::High);
}

#[test]
fn reading_is_no_output() {
    let mut runtime = Runtime::default();
    runtime.push_query(key(1, 1));
    runtime.report_tracked_read(dependency(3, 1), Durability::Low, revision(1));
    assert!(!runtime.is_output_of_active_query(dependency(3, 1)));
}

#[test]
fn disambiguators_count_up_per_hash() {
    let mut runtime = Runtime::default();
    runtime.new_revision();
    let guard = runtime.push_query(key(1, 1));
    let table = IngredientIndex(9);
    let (creator, stamp, first) = runtime.disambiguate_entity(table, revision(2), 100);
    assert_eq!(creator, key(1, 1));
    assert_eq!(stamp.durability, Durability::High);
    assert_eq!(stamp.changed_at, revision(2));
    assert_eq!(first, Disambiguator(0));
    assert_eq!(runtime.disambiguate_entity(table, revision(1), 100).2, Disambiguator(1));
    assert_eq!(runtime.disambiguate_entity(table, revision(1), 200).2, Disambiguator(0));
    assert_eq!(runtime.disambiguate_entity(table, revision(1), 100).2, Disambiguator(2));
    let query = runtime.pop_query(guard);
    assert_eq!(query.input_outputs, vec![(EdgeKind::Input, DependencyIndex::for_table(table))]);
}

#[test]
fn disambiguators_stay_unique_whatever_happens_in_between() {
    let mut runtime = Runtime::default();
    let guard = runtime.push_query(key(1, 1));
    let table = IngredientIndex(9);
    assert_eq!(runtime.disambiguate_entity(table, revision(1), 100).2, Disambiguator(0));
    runtime.report_tracked_read(dependency(2, 1), Durability::Low, revision(1));
    runtime.report_untracked_read();
    runtime.add_output(dependency(3, 1));
    let inner = runtime.push_query(key(1, 2));
    assert_eq!(runtime.disambiguate_entity(table, revision(1), 100).2, Disambiguator(0));
    runtime.pop_query(inner);
    runtime.debug_probe(|probed: &mut Runtime| {
        assert_eq!(probed.disambiguate_entity(table, revision(1), 100).2, Disambiguator(1));
    });
    assert_eq!(runtime.disambiguate_entity(table, revision(1), 100).2, Disambiguator(2));
    runtime.pop_query(guard);
}

#[test]
fn debug_probe_ignores_dependencies() {
    let mut runtime = Runtime::default();
    runtime.new_revision();
    let guard = runtime.push_query(key(1, 1));
    runtime.report_tracked_read(dependency(2, 1), Durability::Medium, revision(1));
    let seen = runtime.debug_probe(|inner: &mut Runtime| {
        inner.report_tracked_read(dependency(2, 2), Durability::Low, revision(2));
        inner.report_untracked_read();
        inner.active_query().unwrap().1.durability
    });
    assert_eq!(seen, Durability::Low);
    let query = runtime.pop_query(guard);
    assert_eq!(query.durability, Durability::Medium);
    assert_eq!(query.changed_at, revision(1));
    assert!(!query.untracked_read);
    assert_eq!(query.input_outputs, vec![(EdgeKind::Input, dependency(2, 1))]);
}

#[test]
fn debug_probe_without_a_query_just_runs() {
    let mut runtime = Runtime::default();
    assert_eq!(runtime.debug_probe(|inner: &mut Runtime| inner.next_id()), 1);
}

#[test]
fn keys_are_ordered_by_ingredient_first() {
    assert!(key(1, 9).precedes(key(2, 0)));
    assert!(key(1, 1).precedes(key(1, 2)));
    assert!(!key(1, 1).precedes(key(1, 1)));
    assert!(!key(2, 0).precedes(key(1, 9)));
    assert!(key(1, 9) < key(2, 0));
    assert!(key(1, 1) < key(1, 2));
}

#[test]
fn dependencies_tell_tables_from_rows() {
    let table = DependencyIndex::for_table(IngredientIndex(4));
    assert!(!table.same(dependency(4, 0)));
    assert!(table.same(DependencyIndex::for_table(IngredientIndex(4))));
    assert!(dependency(4, 1).same(dependency(4, 1)));
    assert!(!dependency(4, 1).same(dependency(4, 2)));
}

#[test]
fn add_from_takes_over_all_edges() {
    let mut one = ActiveQuery::new(key(1, 1));
    one.add_read(dependency(5, 1), Durability::High, revision(2));
    let mut two = ActiveQuery::new(key(1, 2));
    two.add_read(dependency(5, 1), Durability::Medium, revision(4));
    two.add_output(dependency(6, 1));
    two.add_untracked_read(revision(5));
    one.add_from(&two);
    assert_eq!(
        one.input_outputs,
        vec![(EdgeKind::Input, dependency(5, 1)), (EdgeKind::Output, dependency(6, 1))]
    );
    assert_eq!(one.durability, Durability::Low);
    assert_eq!(one.changed_at, revision(5));
    assert!(one.untracked_read);
    assert_eq!(one.stamp().changed_at, revision(5));
}
