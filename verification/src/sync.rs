//! The synchronization primitives themselves: mutexes (spinning or
//! blocking), counting semaphores, and condition variables.  The kernel
//! holds them in arenas; a process's slot tables refer into the arenas by
//! index, so that handles shared across `fork` name the same object.
use vstd::prelude::*;

use crate::task::TaskRef;

verus! {

/// One mutex.  The spinning variant has no fairness guarantee: contenders
/// busy-retry (yielding between attempts) and whichever contender the
/// scheduler runs first after a release claims the lock.  The blocking
/// variant parks contenders on a FIFO wait queue, and a release hands the
/// lock directly to the head waiter, so no third task can steal it in
/// between.
pub struct MutexState {
    /// True for the blocking variant, false for the spinning variant.
    pub blocking: bool,
    pub locked: bool,
    /// Which task holds the lock, when it is locked.
    pub owner: Option<TaskRef>,
    /// FIFO wait queue of the blocking variant; always empty for the
    /// spinning variant (its contenders busy-retry instead).
    pub waiters: Vec<TaskRef>,
}

impl MutexState {
    /// A fresh unlocked mutex of the chosen variant.
    pub fn new(blocking: bool) -> (m: MutexState)
        ensures
            m.blocking == blocking,
            !m.locked,
            m.owner is None,
            m.waiters@ == Seq::<TaskRef>::empty(),
    {
        MutexState { blocking, locked: false, owner: None, waiters: Vec::new() }
    }
}

/// One counting semaphore: a non-negative count plus a FIFO wait queue.
/// A `down` that finds the count at zero parks the caller on the queue; a
/// matching `up` wakes the longest-waiting task instead of raising the
/// count.
pub struct SemState {
    pub count: usize,
    pub waiters: Vec<TaskRef>,
}

impl SemState {
    /// A fresh semaphore holding `count` units.
    pub fn new(count: usize) -> (s: SemState)
        ensures
            s.count == count,
            s.waiters@ == Seq::<TaskRef>::empty(),
    {
        SemState { count, waiters: Vec::new() }
    }
}

/// One condition variable: a FIFO wait queue and nothing else.  It always
/// operates together with a caller-supplied mutex.
pub struct CondvarState {
    pub waiters: Vec<TaskRef>,
}

impl CondvarState {
    /// A fresh condition variable with no waiters.
    pub fn new() -> (c: CondvarState)
        ensures
            c.waiters@ == Seq::<TaskRef>::empty(),
    {
        CondvarState { waiters: Vec::new() }
    }
}

} // verus!
