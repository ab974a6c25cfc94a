//! Store behavior, against a real SQLite database.
//!
//! Each test runs on its own named in-memory database; the shared-cache URI
//! keeps the database alive across connections within a test, so that
//! opening the same location twice really reopens the same stored table.

use todo_tasks::store::TaskStore;
use todo_tasks::tasks::Task;

fn descriptions(tasks: &[Task]) -> Vec<String> {
    tasks.iter().map(|t| t.task.clone()).collect()
}

#[test]
fn add_then_list_yields_one_pending_undated_row() {
    let mut st = TaskStore::init_db(":memory:").unwrap();
    st.add_task("water the plants", None).unwrap();
    let tasks = st.get_tasks().unwrap();
    assert_eq!(tasks.len(), 1);
    assert_eq!(tasks[0].idx, 1);
    assert_eq!(tasks[0].task, "water the plants");
    assert!(!tasks[0].done);
    assert_eq!(tasks[0].due, None);
}

#[test]
fn initialize_twice_keeps_rows_intact() {
    let uri = "file:init_twice_db?mode=memory&cache=shared";
    let mut first = TaskStore::init_db(uri).unwrap();
    first.add_task("alpha", None).unwrap();
    first.add_task("beta", Some("2025-04-01")).unwrap();

    let second = TaskStore::init_db(uri).unwrap();
    let seen = second.get_tasks().unwrap();
    assert_eq!(seen.len(), 2);
    assert_eq!(descriptions(&seen), vec!["beta", "alpha"]);
    assert_eq!(seen[0].due.as_deref(), Some("2025-04-01"));
    assert!(!seen[0].done && !seen[1].done);

    // The first handle still sees its own two rows, unchanged.
    let again = first.get_tasks().unwrap();
    assert_eq!(again.len(), 2);
    assert_eq!(descriptions(&again), vec!["beta", "alpha"]);
}

#[test]
fn listing_orders_dated_rows_first_chronologically() {
    let mut st = TaskStore::init_db(":memory:").unwrap();
    st.add_task("later", Some("2025-01-05")).unwrap();
    st.add_task("sooner", Some("2025-01-01")).unwrap();
    st.add_task("whenever", None).unwrap();
    let tasks = st.get_tasks().unwrap();
    assert_eq!(descriptions(&tasks), vec!["sooner", "later", "whenever"]);
    assert_eq!(tasks[0].due.as_deref(), Some("2025-01-01"));
    assert_eq!(tasks[1].due.as_deref(), Some("2025-01-05"));
    assert_eq!(tasks[2].due, None);
}

#[test]
fn times_order_within_a_day_and_bare_dates_count_as_midnight() {
    let mut st = TaskStore::init_db(":memory:").unwrap();
    st.add_task("afternoon", Some("2025-03-01 14:30")).unwrap();
    st.add_task("whole day", Some("2025-03-01")).unwrap();
    st.add_task("morning", Some("2025-03-01 09:00")).unwrap();
    let tasks = st.get_tasks().unwrap();
    assert_eq!(descriptions(&tasks), vec!["whole day", "morning", "afternoon"]);
}

#[test]
fn equal_due_dates_keep_insertion_order() {
    let mut st = TaskStore::init_db(":memory:").unwrap();
    st.add_task("first in", Some("2025-01-01")).unwrap();
    st.add_task("second in", Some("2025-01-01")).unwrap();
    let tasks = st.get_tasks().unwrap();
    assert_eq!(descriptions(&tasks), vec!["first in", "second in"]);
}

#[test]
fn mark_done_hits_exactly_the_listed_position() {
    let mut st = TaskStore::init_db(":memory:").unwrap();
    st.add_task("one", None).unwrap();
    st.add_task("two", None).unwrap();
    st.add_task("three", None).unwrap();
    st.mark_done(1).unwrap();
    let tasks = st.get_tasks().unwrap();
    assert_eq!(descriptions(&tasks), vec!["one", "two", "three"]);
    assert!(!tasks[0].done);
    assert!(tasks[1].done);
    assert!(!tasks[2].done);
}

#[test]
fn mark_done_persists_across_reopening() {
    let uri = "file:mark_done_db?mode=memory&cache=shared";
    let mut st = TaskStore::init_db(uri).unwrap();
    st.add_task("persist me", None).unwrap();
    st.mark_done(0).unwrap();

    let reopened = TaskStore::init_db(uri).unwrap();
    let tasks = reopened.get_tasks().unwrap();
    assert_eq!(tasks.len(), 1);
    assert!(tasks[0].done);
}

#[test]
fn purge_keeps_survivors_in_relative_order() {
    let mut st = TaskStore::init_db(":memory:").unwrap();
    st.add_task("a", None).unwrap();
    st.add_task("b", None).unwrap();
    st.add_task("c", None).unwrap();
    st.mark_done(1).unwrap();
    st.clear_tasks().unwrap();
    let tasks = st.get_tasks().unwrap();
    assert_eq!(descriptions(&tasks), vec!["a", "c"]);
    assert_eq!(tasks[0].idx, 1);
    assert_eq!(tasks[1].idx, 2);
}

#[test]
fn purge_on_nothing_completed_is_success() {
    let mut st = TaskStore::init_db(":memory:").unwrap();
    st.add_task("untouched", None).unwrap();
    st.clear_tasks().unwrap();
    assert_eq!(st.get_tasks().unwrap().len(), 1);
}

#[test]
fn out_of_range_positions_fail_with_not_found_and_change_nothing() {
    let mut st = TaskStore::init_db(":memory:").unwrap();
    let e = st.mark_done(0).unwrap_err();
    assert!(e.is_not_found());
    assert_eq!(e.message(), "task not found");
    let e = st.remove_task(0).unwrap_err();
    assert!(e.is_not_found());
    assert_eq!(st.get_tasks().unwrap().len(), 0);

    st.add_task("only", None).unwrap();
    let e = st.mark_done(1).unwrap_err();
    assert!(e.is_not_found());
    let e = st.remove_task(5).unwrap_err();
    assert!(e.is_not_found());
    let tasks = st.get_tasks().unwrap();
    assert_eq!(tasks.len(), 1);
    assert!(!tasks[0].done);
}

#[test]
fn remove_deletes_the_listed_position_and_persists() {
    let uri = "file:remove_db?mode=memory&cache=shared";
    let mut st = TaskStore::init_db(uri).unwrap();
    st.add_task("keep front", Some("2025-01-01")).unwrap();
    st.add_task("drop me", Some("2025-02-01")).unwrap();
    st.add_task("keep back", None).unwrap();
    st.remove_task(1).unwrap();
    assert_eq!(descriptions(&st.get_tasks().unwrap()), vec!["keep front", "keep back"]);

    let reopened = TaskStore::init_db(uri).unwrap();
    assert_eq!(descriptions(&reopened.get_tasks().unwrap()), vec!["keep front", "keep back"]);
}

#[test]
fn scenario_mixed_dues_project_in_order() {
    let mut st = TaskStore::init_db(":memory:").unwrap();
    st.add_task("Buy milk", Some("2025-06-01")).unwrap();
    st.add_task("Call Alice", None).unwrap();
    st.add_task("Pay rent", Some("2025-05-15")).unwrap();
    let tasks = st.get_tasks().unwrap();
    assert_eq!(descriptions(&tasks), vec!["Pay rent", "Buy milk", "Call Alice"]);
    assert_eq!(tasks[0].due.as_deref(), Some("2025-05-15"));
    assert_eq!(tasks[1].due.as_deref(), Some("2025-06-01"));
    assert_eq!(tasks[2].due, None);
    assert_eq!(tasks[0].idx, 1);
    assert_eq!(tasks[1].idx, 2);
    assert_eq!(tasks[2].idx, 3);
}

#[test]
fn awkward_text_survives_a_round_trip() {
    let uri = "file:quoting_db?mode=memory&cache=shared";
    let text = "don't \"quote\" me; DROP TABLE todo; -- ok?";
    let mut st = TaskStore::init_db(uri).unwrap();
    st.add_task(text, None).unwrap();
    assert_eq!(st.get_tasks().unwrap()[0].task, text);

    let reopened = TaskStore::init_db(uri).unwrap();
    let tasks = reopened.get_tasks().unwrap();
    assert_eq!(tasks.len(), 1);
    assert_eq!(tasks[0].task, text);
}

#[test]
fn reset_destroys_the_table() {
    let uri = "file:reset_db?mode=memory&cache=shared";
    let mut st = TaskStore::init_db(uri).unwrap();
    st.add_task("doomed", None).unwrap();
    st.reset().unwrap();
    assert_eq!(st.get_tasks().unwrap().len(), 0);

    // Opening the same location again rebuilds an empty table.
    let reopened = TaskStore::init_db(uri).unwrap();
    assert_eq!(reopened.get_tasks().unwrap().len(), 0);
}

#[test]
fn unusable_path_gives_a_storage_error() {
    let e = match TaskStore::init_db("file:///") {
        Ok(_) => panic!("opening an unusable path should fail"),
        Err(e) => e,
    };
    assert!(!e.is_not_found());
    assert!(!e.message().is_empty());
}

#[test]
fn ids_keep_growing_after_removal() {
    // Positions shift as rows come and go, but a removed task's id is
    // never reused, so later rows stay distinct.
    let mut st = TaskStore::init_db(":memory:").unwrap();
    st.add_task("a", None).unwrap();
    st.add_task("b", None).unwrap();
    st.remove_task(0).unwrap();
    st.add_task("c", None).unwrap();
    let tasks = st.get_tasks().unwrap();
    assert_eq!(descriptions(&tasks), vec!["b", "c"]);
}
