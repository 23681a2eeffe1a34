//! Tasks: priorities, the scheduling decisions of the executor, and the
//! interactive shell.
use vstd::prelude::*;

pub mod executor;
pub mod shell;

verus! {

/// Height of the screen in lines.
pub const BUFFER_HEIGHT: usize = 25;

/// Width of the screen in columns.
pub const BUFFER_WIDTH: usize = 80;

/// Number of task priorities.
pub const PRIORITY_NUM: usize = 3;

/// Task priority.
#[derive(Debug, Clone, Copy, PartialEq, Eq)]
pub enum Priority {
    Low,
    Normal,
    High,
}

/// The rank of a priority: 0 for low, 1 for normal, 2 for high.
pub open spec fn priority_rank(p: Priority) -> nat {
    match p {
        Priority::Low => 0,
        Priority::Normal => 1,
        Priority::High => 2,
    }
}

/// A higher priority has a higher rank, and the ranks are the queue
/// indices `0 .. PRIORITY_NUM`: the high queue is the last index, which the
/// executor scans first, and the low queue is index 0, scanned last.
pub proof fn law_priority_order()
    ensures
        priority_rank(Priority::Low) < priority_rank(Priority::Normal),
        priority_rank(Priority::Normal) < priority_rank(Priority::High),
        priority_rank(Priority::Low) == 0,
        priority_rank(Priority::High) == PRIORITY_NUM - 1,
{
}

impl Priority {
    /// The rank of the priority, which is also the index of its queue.
    pub fn index(self) -> (r: usize)
        ensures
            r == priority_rank(self),
            r < PRIORITY_NUM,
    {
        match self {
            Priority::Low => 0,
            Priority::Normal => 1,
            Priority::High => 2,
        }
    }
}

} // verus!
