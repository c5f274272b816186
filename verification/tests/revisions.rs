use salsa_runtime::durability::Durability;
use salsa_runtime::key::{DatabaseKeyIndex, DependencyIndex, Id, IngredientIndex};
use salsa_runtime::revision::Revision;
use salsa_runtime::runtime::shared::raise;
use salsa_runtime::runtime::{stamp, Runtime, StampedValue};

/// The revision with the given number; the first one is number 1.
fn revision(number: usize) -> Revision {
    Revision { since_start: number - 1 }
}

fn key(row: u32) -> DatabaseKeyIndex {
    DatabaseKeyIndex { ingredient_index: IngredientIndex(1), key_index: Id(row) }
}

#[test]
fn fresh_runtime_is_in_the_first_revision() {
    let runtime = Runtime::default();
    assert_eq!(runtime.current_revision(), revision(1));
    assert_eq!(runtime.revisions(), &vec![revision(1); Durability::LEN]);
    assert_eq!(runtime.next_id(), 1);
    assert!(runtime.empty_dependencies().is_empty());
    assert!(!runtime.revision_canceled().load());
    assert!(!runtime.is_blocked());
    assert!(runtime.active_query().is_none());
}

#[test]
fn new_revision_leaves_durable_values_unchanged() {
    let mut runtime = Runtime::default();
    assert_eq!(runtime.new_revision(), revision(2));
    assert_eq!(runtime.current_revision(), revision(2));
    assert_eq!(runtime.last_changed_revision(Durability::Low), revision(2));
    assert_eq!(runtime.last_changed_revision(Durability::Medium), revision(1));
    assert_eq!(runtime.last_changed_revision(Durability::High), revision(1));
}

#[test]
fn write_changes_lower_durabilities() {
    let mut runtime = Runtime::default();
    runtime.new_revision();
    runtime.report_tracked_write(Durability::Medium);
    assert_eq!(runtime.revisions(), &vec![revision(2), revision(2), revision(1)]);
    runtime.new_revision();
    runtime.report_tracked_write(Durability::Low);
    assert_eq!(runtime.revisions(), &vec![revision(3), revision(2), revision(1)]);
    runtime.new_revision();
    runtime.report_tracked_write(Durability::High);
    assert_eq!(runtime.revisions(), &vec![revision(4), revision(4), revision(4)]);
}

#[test]
fn new_revision_clears_the_cancellation_flag() {
    let mut runtime = Runtime::default();
    runtime.set_cancellation_flag();
    assert!(runtime.revision_canceled().load());
    runtime.new_revision();
    assert!(!runtime.revision_canceled().load());
}

#[test]
fn stamp_holds_its_parts() {
    let made = stamp(revision(7), Durability::Medium);
    assert_eq!(made.changed_at, revision(7));
    assert_eq!(made.durability, Durability::Medium);
}

#[test]
fn merge_takes_the_lower_durability_and_the_later_change() {
    let mut value = StampedValue {
        value: "text",
        durability: Durability::High,
        changed_at: revision(3),
    };
    value.merge_revision_info(&stamp(revision(5), Durability::Medium));
    assert_eq!(value.durability, Durability::Medium);
    assert_eq!(value.changed_at, revision(5));
    value.merge_revision_info(&stamp(revision(2), Durability::High));
    assert_eq!(value.durability, Durability::Medium);
    assert_eq!(value.changed_at, revision(5));
    assert_eq!(value.value, "text");
}

#[test]
fn order_of_merging_does_not_matter() {
    let parts = [
        stamp(revision(4), Durability::Medium),
        stamp(revision(9), Durability::High),
        stamp(revision(1), Durability::Low),
    ];
    for order in [[0, 1, 2], [2, 1, 0], [1, 2, 0], [0, 2, 1]] {
        let mut merged = parts[order[0]];
        merged.merge_revision_info(&parts[order[1]]);
        merged.merge_revision_info(&parts[order[2]]);
        merged.merge_revision_info(&parts[order[2]]);
        assert_eq!(merged.durability, Durability::Low);
        assert_eq!(merged.changed_at, revision(9));
    }
}

#[test]
fn durabilities_are_ordered() {
    assert_eq!(Durability::Low.index(), 0);
    assert_eq!(Durability::Medium.index(), 1);
    assert_eq!(Durability::High.index(), 2);
    assert_eq!(Durability::MAX, Durability::High);
    assert_eq!(Durability::Low.min(Durability::High), Durability::Low);
    assert_eq!(Durability::High.min(Durability::Medium), Durability::Medium);
}

#[test]
fn oldest_stamp_merges_without_effect() {
    let mut value = StampedValue {
        value: 7,
        durability: Durability::Medium,
        changed_at: revision(4),
    };
    value.merge_revision_info(&stamp(Revision::start(), Durability::MAX));
    assert_eq!(value.durability, Durability::Medium);
    assert_eq!(value.changed_at, revision(4));
    assert_eq!(value.value, 7);
}

#[test]
fn only_new_revisions_change_the_current_revision() {
    let mut runtime = Runtime::default();
    let mut expected = Revision::start();
    for round in 0..5 {
        runtime.report_tracked_write(Durability::High);
        let guard = runtime.push_query(key(round));
        runtime.report_untracked_read();
        runtime.report_tracked_read(DependencyIndex::from(key(9)), Durability::Low, revision(1));
        runtime.add_output(DependencyIndex::from(key(8)));
        runtime.set_cancellation_flag();
        runtime.pop_query(guard);
        assert_eq!(runtime.current_revision(), expected);
        expected = expected.next();
        assert_eq!(runtime.new_revision(), expected);
    }
    assert_eq!(runtime.current_revision(), revision(6));
}

#[test]
fn flag_stays_the_same_cell() {
    let mut runtime = Runtime::default();
    let flag = runtime.revision_canceled();
    runtime.new_revision();
    runtime.report_tracked_write(Durability::Medium);
    flag.store(true);
    assert!(runtime.revision_canceled().load());
    runtime.report_tracked_write(Durability::High);
    assert!(flag.load());
}

#[test]
fn last_change_is_the_latest_write_as_durable() {
    let mut runtime = Runtime::default();
    runtime.new_revision();
    runtime.report_tracked_write(Durability::High);
    runtime.new_revision();
    runtime.report_tracked_write(Durability::Medium);
    runtime.new_revision();
    runtime.new_revision();
    assert_eq!(runtime.last_changed_revision(Durability::High), revision(2));
    assert_eq!(runtime.last_changed_revision(Durability::Medium), revision(3));
    assert_eq!(runtime.last_changed_revision(Durability::Low), revision(5));
}

#[test]
fn raised_flag_cancels_the_revision() {
    let runtime = Runtime::default();
    let flag = runtime.revision_canceled();
    assert!(!flag.load());
    raise(&flag);
    assert!(runtime.revision_canceled().load());
}
