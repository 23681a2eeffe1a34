//! Scheduling decisions of the task executor.
use vstd::prelude::*;

use super::{priority_rank, Priority, PRIORITY_NUM};

verus! {

/// The queue scanned at step `step` of a pass over the ready queues.
pub open spec fn scan_queue(step: int) -> int {
    PRIORITY_NUM - 1 - step
}

/// The queue scanned at step `step` of a pass over the ready queues: the
/// queues are scanned from the highest priority down.
pub fn queue_at_step(step: usize) -> (r: usize)
    requires
        step < PRIORITY_NUM,
    ensures
        r == scan_queue(step as int),
{
    PRIORITY_NUM - 1 - step
}

/// A pass over the ready queues scans every queue once, from the highest
/// priority down: the first step scans the high queue, the last step the
/// low queue, and a later step always scans a lower priority.
pub proof fn law_scan_order(step: int, later: int)
    requires
        0 <= step < later < PRIORITY_NUM,
    ensures
        0 <= scan_queue(later) < scan_queue(step) < PRIORITY_NUM,
        scan_queue(0) == priority_rank(Priority::High),
        scan_queue(PRIORITY_NUM - 1) == priority_rank(Priority::Low),
{
}

/// The outcome of polling a task once.
pub enum PollOutcome {
    Ready,
    Pending,
}

/// What the executor does with a task id it took from a ready queue.
pub enum TaskStep {
    /// No task has that id (it finished already): nothing to do.
    Skip,
    /// The task finished: remove it and its waker.
    Remove,
    /// The task waits to be woken: keep it.
    Keep,
}

/// The executor's decision for a task id taken from a ready queue, given
/// what polling its task gave (`None` when no task has that id): an id
/// without a task is skipped, a finished task is removed with its waker,
/// and a pending task is kept until its waker queues it again.
pub fn task_step(outcome: Option<PollOutcome>) -> (r: TaskStep)
    ensures
        match outcome {
            None => r is Skip,
            Some(PollOutcome::Ready) => r is Remove,
            Some(PollOutcome::Pending) => r is Keep,
        },
{
    match outcome {
        None => TaskStep::Skip,
        Some(PollOutcome::Ready) => TaskStep::Remove,
        Some(PollOutcome::Pending) => TaskStep::Keep,
    }
}

} // verus!
