//! Thread control blocks and the values the time and task-information
//! system calls report.
use vstd::prelude::*;

use crate::MAX_SYSCALL_NUM;

verus! {

/// Where a task stands in its life cycle.
#[derive(Clone, Copy, PartialEq, Eq, Structural, Debug)]
pub enum TaskStatus {
    /// Runnable, waiting in the ready queue.
    Ready,
    /// The one task currently executing.
    Running,
    /// Suspended on a wait queue or the sleep list.
    Blocked,
    /// Exited; its exit code has not been collected yet.
    Zombie,
}

/// A non-owning handle to one task: the process it belongs to and its
/// thread id within that process.
#[derive(Clone, Copy, PartialEq, Eq, Structural, Debug)]
pub struct TaskRef {
    pub pid: usize,
    pub tid: usize,
}

/// One thread's control block.  The process owns it; queues refer to it
/// through a [`TaskRef`].
pub struct Task {
    /// Thread id, equal to the task's slot in its process's task table.
    pub tid: usize,
    pub status: TaskStatus,
    /// Scheduling weight; always at least 2.
    pub priority: usize,
    /// Stride-scheduling pass value: the scheduler runs the ready task with
    /// the smallest pass and then advances it by `BIG_STRIDE / priority`.
    pub pass: u64,
    /// Net semaphore units the thread has contributed per process-local
    /// semaphore slot id: raised by the thread's `up`, lowered by its
    /// successful `down`, so it may go negative.  Read only by the deadlock
    /// detector; slot 0 is exempt from the accounting.
    pub sem_allocated: Vec<isize>,
    /// The one semaphore slot the thread is currently requesting, or 0 for
    /// none (slot 0 is exempt from deadlock accounting).  Set only while the
    /// deadlock detector is enabled, as the detector's input.
    pub sem_need: usize,
    /// The process-local semaphore slot of the `down` the thread is blocked
    /// on, recorded so that the wake path can debit the right ledger entry;
    /// meaningful only while the thread waits on a semaphore.
    pub down_slot: usize,
    /// Lock the task is busy-retrying after contending on a spinning mutex
    /// (an index into the kernel's mutex arena), or none.
    pub retry_lock: Option<usize>,
    /// The saved return-value register of the task's trap context: the value
    /// the task observes as the result of its last system call once it is
    /// scheduled again.
    pub cx_ret: isize,
    /// When the task was created, in milliseconds of kernel time.
    pub start_time_ms: usize,
    /// Invocation count per system call number.
    pub syscall_times: Vec<u32>,
}

impl Task {
    /// Consistency of one task with its process: allocation accounting stays
    /// within the process's semaphore table, a busy-retried lock names a
    /// mutex of the kernel's arena, and the priority floor holds.
    pub open spec fn wf(self, tid: int, sem_slot_count: int, n_mutexes: int) -> bool {
        &&& self.tid == tid
        &&& self.priority >= 2
        &&& self.sem_allocated@.len() <= sem_slot_count
        &&& (self.sem_need == 0 || self.sem_need < sem_slot_count)
        &&& (self.down_slot == 0 || self.down_slot < sem_slot_count)
        &&& (self.retry_lock matches Some(m) ==> m < n_mutexes)
        &&& self.syscall_times@.len() == MAX_SYSCALL_NUM
    }

    /// A fresh ready task with default priority and no resource accounting.
    pub fn new(tid: usize, start_time_ms: usize) -> (t: Task)
        ensures
            t.tid == tid,
            t.status == TaskStatus::Ready,
            t.priority == crate::DEFAULT_PRIORITY,
            t.pass == 0,
            t.sem_allocated@ == Seq::<isize>::empty(),
            t.sem_need == 0,
            t.down_slot == 0,
            t.retry_lock is None,
            t.cx_ret == 0,
            t.start_time_ms == start_time_ms,
            t.syscall_times@ == Seq::new(MAX_SYSCALL_NUM as nat, |i: int| 0u32),
    {
        let mut times: Vec<u32> = Vec::new();
        let mut i: usize = 0;
        while i < MAX_SYSCALL_NUM
            invariant
                i <= MAX_SYSCALL_NUM,
                times@ =~= Seq::new(i as nat, |k: int| 0u32),
            decreases MAX_SYSCALL_NUM - i,
        {
            times.push(0);
            i = i + 1;
        }
        proof {
            assert(times@ =~= Seq::new(MAX_SYSCALL_NUM as nat, |k: int| 0u32));
        }
        Task {
            tid,
            status: TaskStatus::Ready,
            priority: crate::DEFAULT_PRIORITY,
            pass: 0,
            sem_allocated: Vec::new(),
            sem_need: 0,
            down_slot: 0,
            retry_lock: None,
            cx_ret: 0,
            start_time_ms,
            syscall_times: times,
        }
    }
}

/// The allocation vector extended with zero entries until `slot` is in
/// range, as the accounting paths do before touching an entry.
pub open spec fn grown_alloc(a: Seq<isize>, slot: int) -> Seq<isize> {
    if a.len() > slot {
        a
    } else {
        a + Seq::new((slot + 1 - a.len()) as nat, |i: int| 0isize)
    }
}

/// The allocation vector after adding `delta` to the entry for `slot`,
/// growing the vector first if needed.
pub open spec fn bumped_alloc(a: Seq<isize>, slot: int, delta: int) -> Seq<isize> {
    let g = grown_alloc(a, slot);
    g.update(slot, (g[slot] + delta) as isize)
}

/// The two control blocks agree on everything but the semaphore accounting
/// fields.
pub open spec fn task_fields_eq_except_sem(t1: Task, t2: Task) -> bool {
    &&& t2.tid == t1.tid
    &&& t2.status == t1.status
    &&& t2.priority == t1.priority
    &&& t2.pass == t1.pass
    &&& t2.retry_lock == t1.retry_lock
    &&& t2.down_slot == t1.down_slot
    &&& t2.cx_ret == t1.cx_ret
    &&& t2.start_time_ms == t1.start_time_ms
    &&& t2.syscall_times == t1.syscall_times
}

/// Extend an allocation vector with zero entries until `slot` is in range.
pub fn grow_alloc(a: &mut Vec<isize>, slot: usize)
    ensures
        final(a)@ == grown_alloc(old(a)@, slot as int),
        final(a)@.len() > slot,
        final(a)@.len() == if old(a)@.len() > slot {
            old(a)@.len() as int
        } else {
            slot + 1
        },
{
    let ghost a0 = a@;
    while a.len() <= slot
        invariant
            a@.len() >= a0.len(),
            a@.subrange(0, a0.len() as int) == a0,
            forall|j: int| a0.len() <= j < a@.len() ==> a@[j] == 0isize,
            a@.len() <= slot + 1 || a@ == a0,
        decreases slot + 1 - a@.len(),
    {
        a.push(0);
        proof {
            assert(a@.subrange(0, a0.len() as int) =~= a0);
        }
    }
    proof {
        assert(a@ =~= grown_alloc(a0, slot as int));
    }
}

/// Seconds and microseconds of kernel time, as `get_time` reports them.
#[derive(Clone, Copy, PartialEq, Eq, Structural, Debug)]
pub struct TimeVal {
    pub sec: usize,
    pub usec: usize,
}

/// What `task_info` reports about the calling task.
pub struct TaskInfo {
    /// Task status in its life cycle.
    pub status: TaskStatus,
    /// The number of invocations of each system call by the task.
    pub syscall_times: Vec<u32>,
    /// Total time since the task was created, in milliseconds.
    pub time: usize,
}

} // verus!
