//! The task record and its mathematical view.

use vstd::prelude::*;

verus! {

/// One task. `key` identifies it; `date` is a sortable text such as
/// `2025-02-10`, by which tasks are indexed a second time.
#[derive(Debug, PartialEq, Eq)]
pub struct Task {
    pub key: String,
    pub date: String,
    pub name: String,
    pub body: String,
    pub priority: i8,
    pub completed: bool,
}

/// A task as contracts see it: every text as its sequence of characters.
pub struct TaskView {
    pub key: Seq<char>,
    pub date: Seq<char>,
    pub name: Seq<char>,
    pub body: Seq<char>,
    pub priority: i8,
    pub completed: bool,
}

impl View for Task {
    type V = TaskView;

    open spec fn view(&self) -> TaskView {
        TaskView {
            key: self.key@,
            date: self.date@,
            name: self.name@,
            body: self.body@,
            priority: self.priority,
            completed: self.completed,
        }
    }
}

impl Clone for Task {
    fn clone(&self) -> (copy: Task)
        ensures
            copy == *self,
    {
        Task {
            key: self.key.clone(),
            date: self.date.clone(),
            name: self.name.clone(),
            body: self.body.clone(),
            priority: self.priority,
            completed: self.completed,
        }
    }
}

/// The views of a list of tasks, one for one.
pub open spec fn views(tasks: Seq<Task>) -> Seq<TaskView> {
    tasks.map_values(|t: Task| t@)
}

} // verus!
