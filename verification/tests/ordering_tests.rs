//! The ordering and projection functions on their own, without a database.

use todo_tasks::config::AppConfig;
use todo_tasks::config::OutputFormat;
use todo_tasks::config::TimeFormat;
use todo_tasks::tasks::Task;
use todo_tasks::tasks::TaskRec;
use todo_tasks::tasks::order_rows;
use todo_tasks::tasks::project;

fn rec(id: i64, text: &str, done: bool, due: Option<&str>) -> TaskRec {
    TaskRec { id, description: text.to_string(), done, due: due.map(|d| d.to_string()) }
}

fn ids(rows: &[TaskRec]) -> Vec<i64> {
    rows.iter().map(|r| r.id).collect()
}

#[test]
fn ordering_puts_dated_rows_first_then_id_order() {
    let mut rows = vec![
        rec(1, "undated late", false, None),
        rec(2, "june", false, Some("2025-06-01")),
        rec(3, "may", false, Some("2025-05-15")),
        rec(4, "undated later", false, None),
    ];
    order_rows(&mut rows);
    assert_eq!(ids(&rows), vec![3, 2, 1, 4]);
}

#[test]
fn ordering_treats_non_canonical_due_text_as_undated() {
    let mut rows = vec![
        rec(7, "strange", false, Some("soonish")),
        rec(8, "dated", false, Some("2025-01-01")),
        rec(5, "plain", false, None),
    ];
    order_rows(&mut rows);
    assert_eq!(ids(&rows), vec![8, 5, 7]);
}

#[test]
fn ordering_is_stable_for_equal_moments() {
    let mut rows = vec![
        rec(11, "b", false, Some("2025-03-01 00:00")),
        rec(10, "a", false, Some("2025-03-01 00:00")),
        rec(12, "bare", false, Some("2025-03-01")),
    ];
    order_rows(&mut rows);
    // A bare date counts as midnight; ties fall back to id order.
    assert_eq!(ids(&rows), vec![10, 11, 12]);
}

#[test]
fn projection_assigns_one_based_positions() {
    let rows = vec![rec(42, "x", true, Some("2025-01-01")), rec(7, "y", false, None)];
    let tasks: Vec<Task> = project(&rows);
    assert_eq!(tasks.len(), 2);
    assert_eq!(tasks[0].idx, 1);
    assert_eq!(tasks[1].idx, 2);
    assert_eq!(tasks[0].task, "x");
    assert!(tasks[0].done);
    assert_eq!(tasks[0].due.as_deref(), Some("2025-01-01"));
    assert_eq!(tasks[1].due, None);
}

#[test]
fn default_config_prefers_the_24_hour_clock() {
    let c = AppConfig::default();
    assert_eq!(c.time_format, Some(TimeFormat::H24));
    assert_ne!(TimeFormat::H24, TimeFormat::H12);
    assert_ne!(OutputFormat::Table, OutputFormat::Json);
}
