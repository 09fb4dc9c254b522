//! Task records and the pure transformations the repository applies to the
//! task list.

use vstd::prelude::*;

verus! {

/// Mathematical model of a task: its title as a character sequence and its
/// completion flag.
pub ghost struct TaskView {
    pub title: Seq<char>,
    pub completed: bool,
}

/// A single task: a title and whether it has been completed.
#[derive(Debug, PartialEq, Eq)]
pub struct Task {
    pub title: String,
    pub completed: bool,
}

impl View for Task {
    type V = TaskView;

    open spec fn view(&self) -> TaskView {
        TaskView { title: self.title@, completed: self.completed }
    }
}

impl DeepView for Task {
    type V = TaskView;

    open spec fn deep_view(&self) -> TaskView {
        self@
    }
}

impl Clone for Task {
    fn clone(&self) -> (r: Self)
        ensures
            r == *self,
    {
        Task { title: self.title.clone(), completed: self.completed }
    }
}

impl Task {
    /// A freshly added task: the given title, not yet completed.
    pub fn new(title: &String) -> (r: Self)
        ensures
            r@.title == title@,
            !r@.completed,
    {
        Task { title: title.clone(), completed: false }
    }

    /// A task with the given title that is already completed.
    pub fn new_completed(title: &String) -> (r: Self)
        ensures
            r@.title == title@,
            r@.completed,
    {
        Task { title: title.clone(), completed: true }
    }

    /// The same task, marked completed.
    pub fn make_complete(&self) -> (r: Self)
        ensures
            r@.title == self@.title,
            r@.completed,
    {
        Self::new_completed(&self.title)
    }
}

/// The same task, marked completed.
pub fn make_complete(task: &Task) -> (r: Task)
    ensures
        r@.title == task@.title,
        r@.completed,
{
    task.make_complete()
}

} // verus!
