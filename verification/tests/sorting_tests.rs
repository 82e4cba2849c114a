use task_tracker::date::Date;
use task_tracker::sorting::{sort_tasks, toggle_sort, SortField, SortOrder};
use task_tracker::task::Task;

fn entry(description: &str, status: &str, deadline: Date, reminder: &str) -> Task {
    Task {
        description: description.to_string(),
        status: status.to_string(),
        deadline,
        reminder: reminder.to_string(),
    }
}

fn day(year: u32, month: u32, day: u32) -> Date {
    Date::new(year, month, day).expect("valid date")
}

fn names(tasks: &[Task]) -> Vec<&str> {
    tasks.iter().map(|t| t.description.as_str()).collect()
}

#[test]
fn sort_by_deadline_ascending_keeps_example_order() {
    let mut tasks = vec![
        entry("Buy milk", "Not Completed", day(2024, 5, 1), "No"),
        entry("Pay rent", "Completed", day(2024, 5, 2), "Yes"),
    ];
    sort_tasks(&mut tasks, &SortField::Deadline, &SortOrder::Ascending);
    assert_eq!(names(&tasks), vec!["Buy milk", "Pay rent"]);
}

#[test]
fn sort_by_status_ascending_orders_lexically() {
    let mut tasks = vec![
        entry("Buy milk", "Not Completed", day(2024, 5, 1), "No"),
        entry("Pay rent", "Completed", day(2024, 5, 2), "Yes"),
    ];
    sort_tasks(&mut tasks, &SortField::Status, &SortOrder::Ascending);
    // "Completed" < "Not Completed" lexically
    assert_eq!(names(&tasks), vec!["Pay rent", "Buy milk"]);
}

#[test]
fn sort_by_description_both_directions() {
    let mut tasks = vec![
        entry("cherry", "Completed", day(2024, 1, 1), "No"),
        entry("apple", "Completed", day(2024, 1, 2), "No"),
        entry("banana", "Completed", day(2024, 1, 3), "No"),
    ];
    sort_tasks(&mut tasks, &SortField::Description, &SortOrder::Ascending);
    assert_eq!(names(&tasks), vec!["apple", "banana", "cherry"]);
    sort_tasks(&mut tasks, &SortField::Description, &SortOrder::Descending);
    assert_eq!(names(&tasks), vec!["cherry", "banana", "apple"]);
}

#[test]
fn sort_by_reminder() {
    let mut tasks = vec![
        entry("one", "Completed", day(2024, 1, 1), "Yes"),
        entry("two", "Completed", day(2024, 1, 2), "No"),
    ];
    sort_tasks(&mut tasks, &SortField::Reminder, &SortOrder::Ascending);
    assert_eq!(names(&tasks), vec!["two", "one"]);
}

#[test]
fn ties_keep_input_order_ascending() {
    let mut tasks = vec![
        entry("first", "Completed", day(2024, 3, 3), "No"),
        entry("second", "Completed", day(2024, 3, 3), "No"),
        entry("third", "Completed", day(2024, 3, 3), "No"),
    ];
    sort_tasks(&mut tasks, &SortField::Deadline, &SortOrder::Ascending);
    assert_eq!(names(&tasks), vec!["first", "second", "third"]);
}

#[test]
fn descending_is_exact_reversal_of_ascending() {
    let mut asc = vec![
        entry("a", "Completed", day(2024, 3, 3), "No"),
        entry("b", "Not Completed", day(2024, 1, 1), "No"),
        entry("c", "Completed", day(2024, 3, 3), "Yes"),
        entry("d", "Completed", day(2024, 2, 2), "No"),
    ];
    let mut desc = vec![
        entry("a", "Completed", day(2024, 3, 3), "No"),
        entry("b", "Not Completed", day(2024, 1, 1), "No"),
        entry("c", "Completed", day(2024, 3, 3), "Yes"),
        entry("d", "Completed", day(2024, 2, 2), "No"),
    ];
    sort_tasks(&mut asc, &SortField::Deadline, &SortOrder::Ascending);
    sort_tasks(&mut desc, &SortField::Deadline, &SortOrder::Descending);
    let mut mirrored = names(&desc);
    mirrored.reverse();
    assert_eq!(names(&asc), mirrored);
    // ties "a" and "c" appear in input order ascending, reversed descending
    assert_eq!(names(&asc), vec!["b", "d", "a", "c"]);
    assert_eq!(names(&desc), vec!["c", "a", "d", "b"]);
}

#[test]
fn sort_empty_list_is_noop() {
    let mut tasks: Vec<Task> = Vec::new();
    sort_tasks(&mut tasks, &SortField::Description, &SortOrder::Descending);
    assert!(tasks.is_empty());
}

#[test]
fn toggle_sort_flips_direction_on_same_field() {
    let (f, o) = toggle_sort(&SortField::Deadline, &SortOrder::Ascending, &SortField::Deadline);
    assert!(f == SortField::Deadline && o == SortOrder::Descending);
    let (f, o) = toggle_sort(&SortField::Deadline, &SortOrder::Descending, &SortField::Deadline);
    assert!(f == SortField::Deadline && o == SortOrder::Ascending);
}

#[test]
fn toggle_sort_selects_new_field_ascending() {
    let (f, o) = toggle_sort(&SortField::Deadline, &SortOrder::Descending, &SortField::Status);
    assert!(f == SortField::Status && o == SortOrder::Ascending);
}
