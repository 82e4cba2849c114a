//! The record model: a task with a description, a textual status, a
//! calendar deadline and a textual reminder flag.

use crate::date::Date;
use crate::text::{is_space, spec_trim, trim_str};
use vstd::prelude::*;

verus! {

/// A single task entry, the unit of data stored and sorted. The two
/// status texts written by the canonical callers are `"Completed"` and
/// `"Not Completed"`, and the two reminder texts `"Yes"` and `"No"`,
/// but the fields preserve whatever text was loaded from storage.
#[derive(Debug, Clone)]
pub struct Task {
    pub description: String,
    pub status: String,
    pub deadline: Date,
    pub reminder: String,
}

/// The mathematical image of a task: its texts as character sequences.
pub struct TaskView {
    pub description: Seq<char>,
    pub status: Seq<char>,
    pub deadline: Date,
    pub reminder: Seq<char>,
}

impl View for Task {
    type V = TaskView;

    open spec fn view(&self) -> TaskView {
        TaskView {
            description: self.description@,
            status: self.status@,
            deadline: self.deadline,
            reminder: self.reminder@,
        }
    }
}

/// The views of a sequence of tasks.
pub open spec fn views_of(s: Seq<Task>) -> Seq<TaskView> {
    s.map_values(|t: Task| t@)
}

/// A field text that survives the table format unchanged: free of the
/// column delimiter and of line breaks, with no surrounding whitespace
/// (the parser trims each stored field).
pub open spec fn wf_field(s: Seq<char>) -> bool {
    &&& forall|j: int| 0 <= j < s.len() ==> s[j] != '|' && s[j] != '\n' && s[j] != '\r'
    &&& s.len() > 0 ==> !is_space(s[0]) && !is_space(s[s.len() - 1])
}

impl TaskView {
    /// A well-formed record: texts the format stores faithfully, a
    /// description that cannot be mistaken for a border line, and a
    /// valid calendar deadline.
    pub open spec fn wf(self) -> bool {
        &&& wf_field(self.description)
        &&& (self.description.len() > 0 ==> self.description[0] != '+')
        &&& wf_field(self.status)
        &&& wf_field(self.reminder)
        &&& self.deadline.valid()
    }
}

/// Flips a status text between the two canonical values; any other
/// stored text becomes `"Completed"`, as a toggle on it marks it done.
pub fn toggle_status(s: &String) -> (r: String)
    ensures
        s@ == "Completed"@ ==> r@ == "Not Completed"@,
        s@ != "Completed"@ ==> r@ == "Completed"@,
{
    let completed = String::from_str("Completed");
    if s.eq(&completed) {
        String::from_str("Not Completed")
    } else {
        completed
    }
}

/// Flips a reminder text between the two canonical values; any other
/// stored text becomes `"No"`, as a toggle on it switches the reminder off.
pub fn toggle_reminder(s: &String) -> (r: String)
    ensures
        s@ == "Yes"@ ==> r@ == "No"@,
        s@ != "Yes"@ ==> r@ == "Yes"@,
{
    let yes = String::from_str("Yes");
    if s.eq(&yes) {
        String::from_str("No")
    } else {
        yes
    }
}

/// Builds a fresh task as the form does: rejects a description that is
/// empty after trimming, starts the task not completed, and records the
/// reminder choice as its canonical text.
pub fn make_task(description: String, deadline: Date, reminder: bool) -> (r: Option<Task>)
    ensures
        r is Some <==> spec_trim(description@).len() > 0,
        r is Some ==> r->0@.description == description@,
        r is Some ==> r->0@.status == "Not Completed"@,
        r is Some ==> r->0@.deadline == deadline,
        r is Some ==> r->0@.reminder == (if reminder {
            "Yes"@
        } else {
            "No"@
        }),
{
    let t = trim_str(description.as_str());
    if t.is_empty() {
        None
    } else {
        Some(
            Task {
                description,
                status: String::from_str("Not Completed"),
                deadline,
                reminder: if reminder {
                    String::from_str("Yes")
                } else {
                    String::from_str("No")
                },
            },
        )
    }
}

} // verus!
