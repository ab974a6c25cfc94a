//! Due-date normalization behavior.

use todo_tasks::dates::normalize;

#[test]
fn canonical_date_is_unchanged() {
    assert_eq!(normalize("2025-03-01").as_deref(), Some("2025-03-01"));
}

#[test]
fn canonical_datetime_is_unchanged() {
    assert_eq!(normalize("2025-03-01 14:30").as_deref(), Some("2025-03-01 14:30"));
}

#[test]
fn prose_date_is_rejected() {
    assert_eq!(normalize("March 1st"), None);
}

#[test]
fn empty_string_is_rejected() {
    assert_eq!(normalize(""), None);
}

#[test]
fn nonexistent_day_is_rejected() {
    assert_eq!(normalize("2025-02-30"), None);
    assert_eq!(normalize("2025-13-01"), None);
}

#[test]
fn leap_day_is_accepted_only_in_leap_years() {
    assert_eq!(normalize("2024-02-29").as_deref(), Some("2024-02-29"));
    assert_eq!(normalize("2025-02-29"), None);
    assert_eq!(normalize("1900-02-29"), None);
    assert_eq!(normalize("2000-02-29").as_deref(), Some("2000-02-29"));
}

#[test]
fn out_of_range_time_is_rejected() {
    assert_eq!(normalize("2025-03-01 24:00"), None);
    assert_eq!(normalize("2025-03-01 12:60"), None);
}

#[test]
fn unpadded_fields_are_canonicalized() {
    assert_eq!(normalize("2025-3-1").as_deref(), Some("2025-03-01"));
    assert_eq!(normalize("2025-3-1 7:05").as_deref(), Some("2025-03-01 07:05"));
}

#[test]
fn midnight_datetime_keeps_its_time_fields() {
    assert_eq!(normalize("2025-03-01 00:00").as_deref(), Some("2025-03-01 00:00"));
}
