//! The task record and its mathematical view.

use vstd::prelude::*;

verus! {

/// A single to-do entry.
pub struct Task {
    /// Positive number handed out at insertion time; unique among the tasks
    /// stored at that moment, but ids can repeat after deletions.
    pub id: usize,
    /// Arbitrary text, possibly empty.
    pub description: String,
    /// Completion flag; false at creation.
    pub done: bool,
}

/// The mathematical value of a [`Task`]: the id as a number, the description
/// as a sequence of characters, and the completion flag.
#[verifier::ext_equal]
pub struct TaskV {
    pub id: nat,
    pub description: Seq<char>,
    pub done: bool,
}

impl View for Task {
    type V = TaskV;

    open spec fn view(&self) -> TaskV {
        TaskV { id: self.id as nat, description: self.description@, done: self.done }
    }
}

/// The mathematical value of a collection of tasks, in its stored order.
pub open spec fn tasks_view(s: Seq<Task>) -> Seq<TaskV> {
    s.map_values(|t: Task| t@)
}

impl Task {
    /// A field-for-field copy of the task.
    pub fn duplicate(&self) -> (r: Task)
        ensures
            r@ == self@,
    {
        Task { id: self.id, description: self.description.clone(), done: self.done }
    }
}

} // verus!
