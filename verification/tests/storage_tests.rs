use task_tracker::date::Date;
use task_tracker::storage::{parse_tasks, render_tasks};
use task_tracker::task::Task;

fn task(description: &str, status: &str, deadline: Date, reminder: &str) -> Task {
    Task {
        description: description.to_string(),
        status: status.to_string(),
        deadline,
        reminder: reminder.to_string(),
    }
}

fn date(year: u32, month: u32, day: u32) -> Date {
    Date::new(year, month, day).expect("valid date")
}

const BORDER: &str = "+-------------------------+---------------+------------+------------------------+";
const HEADER: &str = "| Todo                      | Status          | Deadline     | Reminder Notification    |";

#[test]
fn serialize_empty_list() {
    let tasks: Vec<Task> = Vec::new();
    let text = render_tasks(&tasks);
    let expected = format!("{}\n{}\n{}\n{}\n", BORDER, HEADER, BORDER, BORDER);
    assert_eq!(text, expected);
    assert_eq!(text.lines().count(), 4);
}

#[test]
fn deserialize_empty_table() {
    let tasks: Vec<Task> = Vec::new();
    let text = render_tasks(&tasks);
    let back = parse_tasks(&text);
    assert!(back.is_empty());
}

#[test]
fn serialize_two_records_exact_text() {
    let tasks = vec![
        task("Buy milk", "Not Completed", date(2024, 5, 1), "No"),
        task("Pay rent", "Completed", date(2024, 5, 2), "Yes"),
    ];
    let text = render_tasks(&tasks);
    let expected = format!(
        "{}\n{}\n{}\n{}\n{}\n{}\n",
        BORDER,
        HEADER,
        BORDER,
        "| Buy milk                  | Not Completed   | 2024-05-01   | No                       |",
        "| Pay rent                  | Completed       | 2024-05-02   | Yes                      |",
        BORDER,
    );
    assert_eq!(text, expected);
}

#[test]
fn round_trip_two_records() {
    let tasks = vec![
        task("Buy milk", "Not Completed", date(2024, 5, 1), "No"),
        task("Pay rent", "Completed", date(2024, 5, 2), "Yes"),
    ];
    let text = render_tasks(&tasks);
    let back = parse_tasks(&text);
    assert_eq!(back.len(), 2);
    assert_eq!(back[0].description, "Buy milk");
    assert_eq!(back[0].status, "Not Completed");
    assert_eq!(back[0].deadline, date(2024, 5, 1));
    assert_eq!(back[0].reminder, "No");
    assert_eq!(back[1].description, "Pay rent");
    assert_eq!(back[1].status, "Completed");
    assert_eq!(back[1].deadline, date(2024, 5, 2));
    assert_eq!(back[1].reminder, "Yes");
}

#[test]
fn round_trip_overlong_description() {
    // an overflowing value widens its line instead of being truncated
    let long = "a description that is much longer than the twenty-five character column";
    let tasks = vec![task(long, "Completed", date(2030, 12, 31), "Yes")];
    let text = render_tasks(&tasks);
    let back = parse_tasks(&text);
    assert_eq!(back.len(), 1);
    assert_eq!(back[0].description, long);
    assert_eq!(back[0].deadline, date(2030, 12, 31));
}

#[test]
fn save_twice_is_byte_identical() {
    let tasks = vec![
        task("Water plants", "Not Completed", date(2025, 1, 15), "Yes"),
        task("Call bank", "Completed", date(2025, 2, 28), "No"),
    ];
    let first = render_tasks(&tasks);
    let second = render_tasks(&tasks);
    assert_eq!(first, second);
}

#[test]
fn line_with_three_fields_is_skipped() {
    let text = format!(
        "{}\n{}\n{}\n{}\n{}\n{}\n{}\n",
        BORDER,
        HEADER,
        BORDER,
        "| Buy milk                  | Not Completed   | 2024-05-01   | No                       |",
        "| broken | row | 2024-05-02 |",
        "| Pay rent                  | Completed       | 2024-05-02   | Yes                      |",
        BORDER,
    );
    let back = parse_tasks(&text);
    assert_eq!(back.len(), 2);
    assert_eq!(back[0].description, "Buy milk");
    assert_eq!(back[1].description, "Pay rent");
}

#[test]
fn line_with_invalid_date_is_skipped() {
    let text = format!(
        "{}\n{}\n{}\n{}\n{}\n{}\n{}\n",
        BORDER,
        HEADER,
        BORDER,
        "| Buy milk                  | Not Completed   | 2024-05-01   | No                       |",
        "| Bad date                  | Completed       | 2024-13-40   | Yes                      |",
        "| Pay rent                  | Completed       | 2024-05-02   | Yes                      |",
        BORDER,
    );
    let back = parse_tasks(&text);
    assert_eq!(back.len(), 2);
    assert_eq!(back[0].description, "Buy milk");
    assert_eq!(back[1].description, "Pay rent");
}

#[test]
fn blank_lines_are_skipped() {
    let text = format!(
        "{}\n{}\n{}\n\n   \n{}\n\n{}\n",
        BORDER,
        HEADER,
        BORDER,
        "| Buy milk                  | Not Completed   | 2024-05-01   | No                       |",
        BORDER,
    );
    let back = parse_tasks(&text);
    assert_eq!(back.len(), 1);
    assert_eq!(back[0].description, "Buy milk");
}

#[test]
fn short_file_yields_no_records() {
    assert!(parse_tasks("").is_empty());
    assert!(parse_tasks("one line\n").is_empty());
    assert!(parse_tasks("one\ntwo\n").is_empty());
    // the first three lines are skipped unconditionally, even if they
    // look like data rows
    let text = "| a | b | 2024-05-01 | c |\n| d | e | 2024-05-02 | f |\n";
    assert!(parse_tasks(text).is_empty());
}

#[test]
fn unknown_status_text_is_preserved() {
    // the loader does not validate status or reminder against the
    // canonical values
    let text = format!(
        "{}\n{}\n{}\n{}\n{}\n",
        BORDER,
        HEADER,
        BORDER,
        "| Odd row | Whatever | 2024-06-15 | Maybe |",
        BORDER,
    );
    let back = parse_tasks(&text);
    assert_eq!(back.len(), 1);
    assert_eq!(back[0].status, "Whatever");
    assert_eq!(back[0].reminder, "Maybe");
    assert_eq!(back[0].deadline, date(2024, 6, 15));
}

#[test]
fn crlf_lines_are_accepted() {
    let text = format!(
        "{}\r\n{}\r\n{}\r\n{}\r\n{}\r\n",
        BORDER,
        HEADER,
        BORDER,
        "| Buy milk | Not Completed | 2024-05-01 | No |",
        BORDER,
    );
    let back = parse_tasks(&text);
    assert_eq!(back.len(), 1);
    assert_eq!(back[0].description, "Buy milk");
}
