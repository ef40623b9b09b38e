//! Task Control. A task is one run of a transaction; it has a number of its own
//! and facts about itself that its programs can ask for.

use vstd::prelude::*;

verus! {

/// A task's number.
pub type TaskId = u64;

/// Facts about the current task, for every program that runs in it.
#[derive(Debug, Clone)]
pub struct Eib {
    pub task_id: TaskId,
    pub tranid: String,
    /// How many programs deep the chain of links is: one for the task's first
    /// program.
    pub link_level: u32,
}

/// Hands out task numbers, from one on.
#[derive(Debug)]
pub struct TaskIdGenerator {
    next: u64,
}

impl TaskIdGenerator {
    /// The number that the next task gets.
    pub closed spec fn upcoming(&self) -> TaskId {
        self.next
    }

    pub fn new() -> (r: TaskIdGenerator)
        ensures
            r.upcoming() == 1,
    {
        TaskIdGenerator { next: 1 }
    }

    /// The next number. After the last one there is, they begin again at zero.
    pub fn next(&mut self) -> (id: TaskId)
        ensures
            id == old(self).upcoming(),
            final(self).upcoming() == following(id),
    {
        let id: TaskId = self.next;
        self.next = id.wrapping_add(1);
        id
    }
}

/// The number after a task's number.
pub open spec fn following(id: TaskId) -> TaskId {
    if id == u64::MAX {
        0
    } else {
        (id + 1) as u64
    }
}

} // verus!
