//! Core of a teaching operating-system kernel: process and thread lifecycle,
//! a cooperative stride scheduler, page-granular memory regions, and
//! mutex / semaphore / condition-variable primitives with an advisory
//! deadlock detector in the style of the Banker's algorithm.
//!
//! The kernel is modelled as one explicit state value, [`kernel::Kernel`].
//! Every system call is a function that takes the kernel state and the
//! identity of the calling task (held in `Kernel::current`) and returns the
//! value the call yields to the caller.  The machine is single-core and
//! cooperative: at most one task executes kernel logic at a time, so one
//! call is one atomic step of the state machine.
//!
//! A call that would suspend the caller (a blocking lock, `down` on an
//! exhausted semaphore, a condition-variable wait, `sleep`) records the
//! suspension in the state — the task becomes `Blocked` and joins the
//! primitive's wait queue — and returns the value the system call will
//! yield once the task is woken and resumed.
use vstd::prelude::*;

pub mod deadlock;
pub mod kernel;
pub mod mem;
pub mod process;
pub mod sched;
pub mod sync;
pub mod syscall;
pub mod task;

verus! {

/// Size in bytes of one virtual page.
pub const PAGE_SIZE: usize = 4096;

/// Number of distinct system calls a task keeps invocation counts for.
pub const MAX_SYSCALL_NUM: usize = 500;

/// Scheduling weight given to a task whose priority was never set.
pub const DEFAULT_PRIORITY: usize = 16;

/// Numerator of the stride-scheduling step: a task that runs advances its
/// pass value by `BIG_STRIDE / priority`, so higher priority means smaller
/// steps and a larger share of the processor.
pub const BIG_STRIDE: u64 = 65536;

/// Sentinel returned when the deadlock detector refuses a lock or `down`
/// request instead of letting the caller block.
pub const DEADLOCK_SENTINEL: isize = -0xdead;

/// Most processes the kernel will ever create (pids are never reused).
pub const MAX_PROCS: usize = 65536;

/// Most thread slots one process's task table may hold.
pub const MAX_TASKS_PER_PROC: usize = 1024;

/// Where a fresh address space places the bottom of its data-segment heap.
pub const USER_HEAP_BASE: usize = 65536;

} // verus!
