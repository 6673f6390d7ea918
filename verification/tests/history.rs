use toolbox::history_var::HistoryVariable;

#[test]
fn test_remove_change_preserves_order() {
    let mut var = HistoryVariable::new("initial", 0, 10);

    var.set("change1", 1001, Some("First change")); // Entry ID 1
    var.set("change2", 1002, Some("Second change")); // Entry ID 2
    var.set("change3", 1001, Some("Third change")); // Entry ID 3
    var.set("change4", 1003, Some("Fourth change")); // Entry ID 4

    // Remove user 1001's most recent change (change3)
    let result = var.remove_change_by_setter(1001);
    assert!(result.is_ok());

    // Current value should be "change4" (the last remaining entry)
    assert_eq!(*var.get(), "change4");

    // History should be: initial -> change1 -> change2 -> change4
    assert_eq!(var.get_history().len(), 4);
    assert_eq!(var.get_history()[1].value, "change1");
    assert_eq!(var.get_history()[2].value, "change2");
    assert_eq!(var.get_history()[3].value, "change4");
}

#[test]
fn test_remove_specific_entry() {
    let mut var = HistoryVariable::new(100, 0, 10);

    var.set(200, 1001, None); // Entry ID 1
    var.set(300, 1002, None); // Entry ID 2
    var.set(400, 1001, None); // Entry ID 3

    // Remove specific entry (ID 2)
    let result = var.remove_change_by_entry_id(2);
    assert!(result.is_ok());

    // Current value should be 400 (last entry)
    assert_eq!(*var.get(), 400);

    // History should have: initial(100) -> entry1(200) -> entry3(400)
    assert_eq!(var.get_history().len(), 3);
}

#[test]
fn test_remove_all_changes_by_setter() {
    let mut var = HistoryVariable::new("initial", 0, 10);

    var.set("change1", 1001, None);
    var.set("change2", 1002, None);
    var.set("change3", 1001, None);
    var.set("change4", 1002, None);

    // Remove all changes by user 1001
    let result = var.remove_all_changes_by_setter(1001);
    assert!(result.is_ok());
    assert_eq!(result.unwrap(), 2); // Removed 2 entries

    // Should have: initial -> change2 -> change4
    assert_eq!(var.get_history().len(), 3);
    assert_eq!(*var.get(), "change4");
}

#[test]
fn a_new_variable_records_its_initial_value() {
    let var = HistoryVariable::new_at(7u8, 3, 5, 42);
    assert_eq!(*var.get(), 7);
    let history = var.get_history();
    assert_eq!(history.len(), 1);
    assert_eq!(history[0].value, 7);
    assert_eq!(history[0].setter_id, 3);
    assert_eq!(history[0].timestamp, 42);
    assert_eq!(history[0].reason.as_deref(), Some("Initial value"));
    assert_eq!(history[0].entry_id, 0);
}

#[test]
fn entries_record_reason_and_id() {
    let mut var = HistoryVariable::new_at(0, 0, 5, 1);
    var.set_at(1, 9, Some("why"), 2);
    var.set_at(2, 8, None, 3);
    let history = var.get_history();
    assert_eq!(history[1].reason.as_deref(), Some("why"));
    assert_eq!(history[1].entry_id, 1);
    assert_eq!(history[1].timestamp, 2);
    assert_eq!(history[2].reason, None);
    assert_eq!(history[2].entry_id, 2);
}

#[test]
fn the_clock_gives_a_plausible_time() {
    let mut var = HistoryVariable::new(0, 0, 5);
    var.set(1, 1, None);
    // Some day in 2020.
    assert!(var.get_history()[0].timestamp > 1_577_836_800);
    assert!(var.get_history()[1].timestamp > 1_577_836_800);
}

#[test]
fn the_oldest_entry_goes_when_the_history_is_full() {
    let mut var = HistoryVariable::new_at(0, 0, 3, 1);
    for i in 1..6 {
        var.set_at(i, 1, None, 1);
    }
    let values: Vec<i32> = var.get_history().iter().map(|e| e.value).collect();
    assert_eq!(values, vec![3, 4, 5]);
    assert_eq!(*var.get(), 5);
}

#[test]
fn a_history_without_room_keeps_one_entry() {
    let mut var = HistoryVariable::new_at(0, 0, 0, 1);
    assert_eq!(var.get_history().len(), 1);
    var.set_at(1, 1, None, 1);
    var.set_at(2, 1, None, 1);
    assert_eq!(var.get_history().len(), 1);
    assert_eq!(var.get_history()[0].value, 2);
}

#[test]
fn removing_by_setter_fails_without_a_change() {
    let mut var = HistoryVariable::new_at(0, 5, 10, 1);
    assert_eq!(
        var.remove_change_by_setter(5),
        Err("Cannot remove: only initial value remains".to_string())
    );
    var.set_at(1, 1, None, 1);
    // The initial value is no change.
    assert_eq!(
        var.remove_change_by_setter(5),
        Err("No changes found by setter ID: 5".to_string())
    );
    assert_eq!(var.get_history().len(), 2);
    assert_eq!(*var.get(), 1);
}

#[test]
fn removing_by_entry_id_fails_for_unknown_ids() {
    let mut var = HistoryVariable::new_at(0, 0, 10, 1);
    var.set_at(1, 1, None, 1);
    assert_eq!(
        var.remove_change_by_entry_id(0),
        Err("Cannot remove initial value".to_string())
    );
    assert_eq!(
        var.remove_change_by_entry_id(77),
        Err("No entry found with ID: 77".to_string())
    );
    assert_eq!(var.remove_change_by_entry_id(1), Ok(0));
    assert_eq!(*var.get(), 0);
}

#[test]
fn removing_the_only_entry_empties_the_history() {
    let mut var = HistoryVariable::new_at(0, 0, 1, 1);
    var.set_at(1, 1, None, 1);
    assert_eq!(var.get_history().len(), 1);
    assert_eq!(
        var.remove_change_by_entry_id(1),
        Err("History corrupted".to_string())
    );
    assert_eq!(var.get_history().len(), 0);
    assert_eq!(*var.get(), 1);
    let stats = var.get_stats();
    assert_eq!(stats.total_changes, 0);
    assert_eq!(stats.unique_setters, 0);
    assert_eq!(stats.first_change, None);
    assert_eq!(stats.last_change, None);
}

#[test]
fn removing_all_changes_keeps_the_first_entry() {
    let mut var = HistoryVariable::new_at(0, 1, 10, 1);
    var.set_at(1, 1, None, 1);
    var.set_at(2, 1, None, 1);
    assert_eq!(var.remove_all_changes_by_setter(1), Ok(2));
    assert_eq!(var.get_history().len(), 1);
    assert_eq!(*var.get(), 0);
    assert_eq!(
        var.remove_all_changes_by_setter(1),
        Err("No changes found by setter ID: 1".to_string())
    );
}

#[test]
fn undoing_what_was_set_restores_the_history() {
    let mut var = HistoryVariable::new_at(0, 0, 10, 1);
    assert_eq!(
        var.undo_last(),
        Err("Cannot undo: no previous values".to_string())
    );
    var.set_at(1, 1, None, 1);
    var.set_at(2, 2, None, 1);
    assert_eq!(var.undo_last(), Ok(1));
    assert_eq!(*var.get(), 1);
    let values: Vec<i32> = var.get_history().iter().map(|e| e.value).collect();
    assert_eq!(values, vec![0, 1]);
}

#[test]
fn removing_what_was_just_set_restores_the_history() {
    let mut var = HistoryVariable::new_at(0, 0, 10, 1);
    var.set_at(1, 1, None, 1);
    var.set_at(2, 2, None, 1);
    assert_eq!(var.remove_change_by_setter(2), Ok(1));
    let values: Vec<i32> = var.get_history().iter().map(|e| e.value).collect();
    assert_eq!(values, vec![0, 1]);
}

#[test]
fn changes_are_listed_by_setter() {
    let mut var = HistoryVariable::new_at(0, 1, 10, 1);
    var.set_at(1, 2, None, 1);
    var.set_at(2, 1, None, 1);
    let values: Vec<i32> = var.get_changes_by_setter(1).iter().map(|e| e.value).collect();
    assert_eq!(values, vec![0, 2]);
    assert!(var.get_changes_by_setter(3).is_empty());
}

#[test]
fn rolling_back_drops_what_came_later() {
    let mut var = HistoryVariable::new_at(0, 0, 10, 10);
    var.set_at(1, 1, None, 20);
    var.set_at(2, 1, None, 30);
    // A clock that was set back: the entry behind a later one goes with it.
    var.set_at(3, 1, None, 15);
    assert_eq!(
        var.rollback_to_timestamp(9),
        Err("No entry found before or at timestamp".to_string())
    );
    assert_eq!(var.get_history().len(), 4);
    assert_eq!(var.rollback_to_timestamp(20), Ok(1));
    assert_eq!(*var.get(), 1);
    assert_eq!(var.get_history().len(), 2);
    assert_eq!(var.rollback_to_timestamp(20), Ok(1));
    assert_eq!(var.get_history().len(), 2);
}

#[test]
fn statistics_count_changes_and_setters() {
    let mut var = HistoryVariable::new_at(0, 1, 10, 5);
    var.set_at(1, 2, None, 6);
    var.set_at(2, 1, None, 7);
    let stats = var.get_stats();
    assert_eq!(stats.total_changes, 2);
    assert_eq!(stats.unique_setters, 2);
    assert_eq!(stats.first_change, Some(5));
    assert_eq!(stats.last_change, Some(7));
}

#[test]
fn a_cloned_entry_holds_the_same() {
    let mut var = HistoryVariable::new_at("a".to_string(), 1, 10, 5);
    var.set_at("b".to_string(), 2, Some("r"), 6);
    let copy = var.get_history()[1].clone();
    assert_eq!(copy.value, "b");
    assert_eq!(copy.setter_id, 2);
    assert_eq!(copy.timestamp, 6);
    assert_eq!(copy.reason.as_deref(), Some("r"));
    assert_eq!(copy.entry_id, 1);
}
