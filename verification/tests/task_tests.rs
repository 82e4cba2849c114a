use task_tracker::date::{format_date, parse_date_str, Date};
use task_tracker::task::{make_task, toggle_reminder, toggle_status};

#[test]
fn date_new_accepts_real_calendar_days() {
    assert!(Date::new(2024, 2, 29).is_some());
    assert!(Date::new(2023, 2, 29).is_none());
    assert!(Date::new(1900, 2, 29).is_none());
    assert!(Date::new(2000, 2, 29).is_some());
    assert!(Date::new(2024, 13, 1).is_none());
    assert!(Date::new(2024, 0, 1).is_none());
    assert!(Date::new(2024, 4, 31).is_none());
    assert!(Date::new(2024, 12, 31).is_some());
    assert!(Date::new(10000, 1, 1).is_none());
}

#[test]
fn format_date_is_iso() {
    let d = Date::new(2024, 5, 1).unwrap();
    assert_eq!(format_date(&d), "2024-05-01");
    let d = Date::new(987, 12, 31).unwrap();
    assert_eq!(format_date(&d), "0987-12-31");
}

#[test]
fn parse_date_str_round_trips() {
    let d = parse_date_str("2024-05-01").unwrap();
    assert_eq!(d, Date::new(2024, 5, 1).unwrap());
    assert_eq!(format_date(&d), "2024-05-01");
}

#[test]
fn parse_date_str_rejects_malformed_text() {
    assert!(parse_date_str("2024-13-40").is_none());
    assert!(parse_date_str("2024-5-1").is_none());
    assert!(parse_date_str("2024/05/01").is_none());
    assert!(parse_date_str("not a date").is_none());
    assert!(parse_date_str("").is_none());
    assert!(parse_date_str("2023-02-29").is_none());
}

#[test]
fn toggle_status_flips_canonical_values() {
    assert_eq!(toggle_status(&"Completed".to_string()), "Not Completed");
    assert_eq!(toggle_status(&"Not Completed".to_string()), "Completed");
    assert_eq!(toggle_status(&"garbled".to_string()), "Completed");
}

#[test]
fn toggle_reminder_flips_canonical_values() {
    assert_eq!(toggle_reminder(&"Yes".to_string()), "No");
    assert_eq!(toggle_reminder(&"No".to_string()), "Yes");
    assert_eq!(toggle_reminder(&"garbled".to_string()), "Yes");
}

#[test]
fn make_task_rejects_blank_description() {
    let d = Date::new(2024, 5, 1).unwrap();
    assert!(make_task("".to_string(), d, false).is_none());
    assert!(make_task("   ".to_string(), d, true).is_none());
    let t = make_task("Buy milk".to_string(), d, true).unwrap();
    assert_eq!(t.description, "Buy milk");
    assert_eq!(t.status, "Not Completed");
    assert_eq!(t.reminder, "Yes");
    assert_eq!(t.deadline, d);
    let t = make_task("Buy milk".to_string(), d, false).unwrap();
    assert_eq!(t.reminder, "No");
}
