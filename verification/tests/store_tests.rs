use bill_tracker::store::{Bill, Bills, RemoveOutcome, UndoOutcome};

fn add(bills: &mut Bills, name: &str, amount: f32) {
    bills.add(Bill { name: name.to_owned(), amount: amount.to_bits() });
}

/// The history stored for `name`, decoded back to floating point, or
/// `None` when the name is absent.
fn history(bills: &Bills, name: &str) -> Option<Vec<f32>> {
    for entry in bills.list() {
        if entry.name == name {
            return Some(entry.amounts.iter().map(|a| f32::from_bits(*a)).collect());
        }
    }
    None
}

#[test]
fn new_store_is_empty() {
    let bills = Bills::new();
    assert_eq!(bills.list().len(), 0);
}

#[test]
fn add_records_amounts_in_order() {
    let mut bills = Bills::new();
    add(&mut bills, "rent", 1200.0);
    add(&mut bills, "rent", 1250.0);
    assert_eq!(bills.list().len(), 1);
    assert_eq!(history(&bills, "rent"), Some(vec![1200.0, 1250.0]));
}

#[test]
fn add_many_amounts_keeps_full_order() {
    let mut bills = Bills::new();
    add(&mut bills, "water", 10.5);
    add(&mut bills, "water", -3.25);
    add(&mut bills, "water", 0.0);
    add(&mut bills, "water", 99.75);
    assert_eq!(history(&bills, "water"), Some(vec![10.5, -3.25, 0.0, 99.75]));
}

#[test]
fn add_to_one_name_leaves_another_alone() {
    let mut bills = Bills::new();
    add(&mut bills, "rent", 1200.0);
    add(&mut bills, "gym", 40.0);
    add(&mut bills, "gym", 45.0);
    assert_eq!(history(&bills, "rent"), Some(vec![1200.0]));
    assert_eq!(history(&bills, "gym"), Some(vec![40.0, 45.0]));
    assert_eq!(bills.list().len(), 2);
}

#[test]
fn undo_only_amount_empties_and_removes_name() {
    let mut bills = Bills::new();
    add(&mut bills, "rent", 1200.0);
    let outcome = bills.undo(&"rent".to_owned());
    assert_eq!(outcome, UndoOutcome::UndoneAndEmptied);
    assert_eq!(bills.list().len(), 0);
    assert_eq!(history(&bills, "rent"), None);
}

#[test]
fn undo_with_history_left_keeps_name() {
    let mut bills = Bills::new();
    add(&mut bills, "gym", 40.0);
    add(&mut bills, "gym", 45.0);
    let outcome = bills.undo(&"gym".to_owned());
    assert_eq!(outcome, UndoOutcome::Undone);
    assert_eq!(history(&bills, "gym"), Some(vec![40.0]));
}

#[test]
fn undo_absent_name_reports_not_found_and_mutates_nothing() {
    let mut bills = Bills::new();
    add(&mut bills, "rent", 1200.0);
    let outcome = bills.undo(&"gym".to_owned());
    assert_eq!(outcome, UndoOutcome::NotFound);
    assert_eq!(bills.list().len(), 1);
    assert_eq!(history(&bills, "rent"), Some(vec![1200.0]));
}

#[test]
fn repeated_undo_drains_then_reports_not_found() {
    let mut bills = Bills::new();
    add(&mut bills, "power", 55.0);
    add(&mut bills, "power", 60.0);
    let name = "power".to_owned();
    assert_eq!(bills.undo(&name), UndoOutcome::Undone);
    assert_eq!(bills.undo(&name), UndoOutcome::UndoneAndEmptied);
    assert_eq!(bills.undo(&name), UndoOutcome::NotFound);
    assert_eq!(bills.list().len(), 0);
}

#[test]
fn remove_deletes_whole_history() {
    let mut bills = Bills::new();
    add(&mut bills, "rent", 1200.0);
    add(&mut bills, "rent", 1250.0);
    add(&mut bills, "gym", 40.0);
    let outcome = bills.remove(&"rent".to_owned());
    assert_eq!(outcome, RemoveOutcome::Removed);
    assert_eq!(history(&bills, "rent"), None);
    assert_eq!(history(&bills, "gym"), Some(vec![40.0]));
}

#[test]
fn remove_then_undo_or_remove_reports_not_found() {
    let mut bills = Bills::new();
    add(&mut bills, "rent", 1200.0);
    let name = "rent".to_owned();
    assert_eq!(bills.remove(&name), RemoveOutcome::Removed);
    assert_eq!(bills.undo(&name), UndoOutcome::NotFound);
    assert_eq!(bills.remove(&name), RemoveOutcome::NotFound);
}

#[test]
fn second_remove_neither_reverses_nor_repeats_the_first() {
    let mut bills = Bills::new();
    add(&mut bills, "rent", 1200.0);
    add(&mut bills, "gym", 40.0);
    let name = "rent".to_owned();
    assert_eq!(bills.remove(&name), RemoveOutcome::Removed);
    assert_eq!(bills.remove(&name), RemoveOutcome::NotFound);
    assert_eq!(history(&bills, "rent"), None);
    assert_eq!(history(&bills, "gym"), Some(vec![40.0]));
    assert_eq!(bills.list().len(), 1);
}

#[test]
fn remove_on_empty_store_reports_not_found() {
    let mut bills = Bills::new();
    let outcome = bills.remove(&"utilities".to_owned());
    assert_eq!(outcome, RemoveOutcome::NotFound);
    assert_eq!(bills.list().len(), 0);
}

#[test]
fn amounts_survive_the_bit_level_round_trip() {
    let mut bills = Bills::new();
    add(&mut bills, "odd", -0.1);
    add(&mut bills, "odd", 3.1415927);
    add(&mut bills, "odd", f32::MAX);
    assert_eq!(history(&bills, "odd"), Some(vec![-0.1, 3.1415927, f32::MAX]));
}
