//! The kernel state: the process table, the arenas of synchronization
//! primitives, the scheduler queues, and the clock — one explicit value
//! threaded through every operation.
use vstd::prelude::*;

use crate::process::{slots_in_bounds, Process};
use crate::sync::{CondvarState, MutexState, SemState};
use crate::task::{Task, TaskRef, TaskStatus};
use crate::{MAX_PROCS, MAX_TASKS_PER_PROC};

verus! {

/// One sleeping task and the kernel time at which it is due back.
#[derive(Clone, Copy, PartialEq, Eq, Structural, Debug)]
pub struct SleepEntry {
    pub deadline_ms: usize,
    pub task: TaskRef,
}

/// The whole kernel state.
pub struct Kernel {
    /// Process table indexed by pid.  Pids are never reused: a reaped
    /// process leaves an empty slot and new processes always append.
    pub procs: Vec<Option<Process>>,
    /// Arena of every mutex ever created; processes refer to entries through
    /// their slot tables, so handles shared across `fork` stay shared.
    pub mutexes: Vec<MutexState>,
    /// Arena of every semaphore ever created.
    pub sems: Vec<SemState>,
    /// Arena of every condition variable ever created.
    pub condvars: Vec<CondvarState>,
    /// The ready queue, in arrival order; the scheduler picks by stride.
    pub ready: Vec<TaskRef>,
    /// Tasks waiting on the timer.
    pub sleeping: Vec<SleepEntry>,
    /// The one task currently executing, if any.
    pub current: Option<TaskRef>,
    /// Kernel clock, microseconds since boot.
    pub time_us: usize,
    /// Names of the executable images the loader can resolve.
    pub apps: Vec<Vec<u8>>,
}

impl Kernel {
    /// Whether `pid` names a live process-table entry.
    pub open spec fn has_proc(self, pid: int) -> bool {
        0 <= pid < self.procs@.len() && self.procs@[pid] is Some
    }

    /// The process control block of `pid`.
    pub open spec fn proc_at(self, pid: int) -> Process {
        self.procs@[pid].unwrap()
    }

    /// Whether `r` names a live task of a live process.
    pub open spec fn valid_ref(self, r: TaskRef) -> bool {
        &&& self.has_proc(r.pid as int)
        &&& r.tid < self.proc_at(r.pid as int).tasks@.len()
        &&& self.proc_at(r.pid as int).tasks@[r.tid as int] is Some
    }

    /// The task control block `r` names.
    pub open spec fn task_at(self, r: TaskRef) -> Task {
        self.proc_at(r.pid as int).tasks@[r.tid as int].unwrap()
    }

    /// The currently executing task's handle.
    pub open spec fn cur_ref(self) -> TaskRef {
        self.current.unwrap()
    }

    /// Whether some task is currently executing.
    pub open spec fn has_current(self) -> bool {
        self.current is Some && self.valid_ref(self.cur_ref())
    }

    /// Consistency of process `pid` with the rest of the kernel: its tables
    /// point into the arenas and its children are live and point back.
    pub open spec fn proc_ok(self, pid: int) -> bool {
        let p = self.proc_at(pid);
        &&& p.pid == pid
        &&& p.wf(
            self.mutexes@.len() as int,
            self.sems@.len() as int,
            self.condvars@.len() as int,
        )
        &&& (p.parent matches Some(q) ==> q < p.pid)
        &&& (forall|c: int|
            0 <= c < p.children@.len() ==> #[trigger] self.has_proc(p.children@[c] as int)
                && self.proc_at(p.children@[c] as int).parent == Some(p.pid))
    }

    /// The kernel's global invariant: every live process is consistent and
    /// the running task is live.  Queue entries may go stale when a process
    /// is torn down; the scheduler and the wake paths skip them, so such a
    /// task is simply never rescheduled.
    pub open spec fn wf(self) -> bool {
        &&& self.procs@.len() <= MAX_PROCS
        &&& (forall|pid: int|
            0 <= pid < self.procs@.len() && self.procs@[pid] is Some ==> #[trigger] self.proc_ok(
                pid,
            ))
        &&& (self.current is Some ==> self.valid_ref(self.cur_ref()))
    }

    /// Kernel time in milliseconds.
    pub open spec fn spec_now_ms(self) -> int {
        self.time_us as int / 1000
    }

    /// Whether the loader can resolve an image of this name.
    pub open spec fn has_app(self, name: Seq<u8>) -> bool {
        exists|i: int| 0 <= i < self.apps@.len() && self.apps@[i]@ == name
    }

    /// Whether the scheduler may run `r` now: the entry must still name a
    /// live task that is Ready (stale entries of blocked or torn-down tasks
    /// are skipped), and a task busy-retrying a spinning mutex is runnable
    /// only once that mutex is free.
    pub open spec fn eligible(self, r: TaskRef) -> bool {
        &&& self.valid_ref(r)
        &&& self.task_at(r).status == TaskStatus::Ready
        &&& match self.task_at(r).retry_lock {
            None => true,
            Some(m) => m < self.mutexes@.len() && !self.mutexes@[m as int].locked,
        }
    }

    /// Whether a wait-queue entry still names a task that can be woken; an
    /// entry left behind by a torn-down process is skipped, never
    /// rescheduled.
    pub open spec fn wakeable(self, r: TaskRef) -> bool {
        self.valid_ref(r) && self.task_at(r).status == TaskStatus::Blocked
    }

    /// A fresh kernel: no processes, no primitives, clock at zero, with the
    /// given loadable images.
    pub fn new(apps: Vec<Vec<u8>>) -> (k: Kernel)
        ensures
            k.wf(),
            k.procs@ == Seq::<Option<Process>>::empty(),
            k.mutexes@ == Seq::<MutexState>::empty(),
            k.sems@ == Seq::<SemState>::empty(),
            k.condvars@ == Seq::<CondvarState>::empty(),
            k.ready@ == Seq::<TaskRef>::empty(),
            k.sleeping@ == Seq::<SleepEntry>::empty(),
            k.current is None,
            k.time_us == 0,
            k.apps == apps,
    {
        Kernel {
            procs: Vec::new(),
            mutexes: Vec::new(),
            sems: Vec::new(),
            condvars: Vec::new(),
            ready: Vec::new(),
            sleeping: Vec::new(),
            current: None,
            time_us: 0,
            apps,
        }
    }
}

/// The two states hold the same processes (entry for entry) and agree on
/// everything else; only in-place rebuilding of a process table entry may
/// distinguish them from one state.
pub open spec fn unchanged_kernel(pre: Kernel, post: Kernel) -> bool {
    &&& post.procs@ == pre.procs@
    &&& same_outside_procs(pre, post)
}

/// Everything outside the process table and the ready queue is the same in
/// both states.
pub open spec fn same_outside_procs_but_ready(pre: Kernel, post: Kernel) -> bool {
    &&& post.mutexes == pre.mutexes
    &&& post.sems == pre.sems
    &&& post.condvars == pre.condvars
    &&& post.sleeping == pre.sleeping
    &&& post.current == pre.current
    &&& post.time_us == pre.time_us
    &&& post.apps == pre.apps
}

/// Everything outside the process table is the same in both states.
pub open spec fn same_outside_procs(pre: Kernel, post: Kernel) -> bool {
    &&& post.mutexes == pre.mutexes
    &&& post.sems == pre.sems
    &&& post.condvars == pre.condvars
    &&& post.ready == pre.ready
    &&& post.sleeping == pre.sleeping
    &&& post.current == pre.current
    &&& post.time_us == pre.time_us
    &&& post.apps == pre.apps
}

/// The two processes agree on everything but their task tables.
pub open spec fn same_proc_outside_tasks(p1: Process, p2: Process) -> bool {
    &&& p2.pid == p1.pid
    &&& p2.parent == p1.parent
    &&& p2.children == p1.children
    &&& p2.zombie == p1.zombie
    &&& p2.exit_code == p1.exit_code
    &&& p2.mutex_slots == p1.mutex_slots
    &&& p2.sem_slots == p1.sem_slots
    &&& p2.condvar_slots == p1.condvar_slots
    &&& p2.deadlock_detect == p1.deadlock_detect
    &&& p2.mem == p1.mem
}

/// Between `pre` and `post`, only the task `r` names changed: the process
/// table is otherwise untouched, and within `r`'s process only that one
/// task-table entry differs.
pub open spec fn only_task_changed(pre: Kernel, post: Kernel, r: TaskRef) -> bool {
    &&& pre.valid_ref(r)
    &&& post.procs@.len() == pre.procs@.len()
    &&& (forall|p: int|
        0 <= p < pre.procs@.len() && p != r.pid ==> post.procs@[p] == pre.procs@[p])
    &&& post.procs@[r.pid as int] is Some
    &&& same_proc_outside_tasks(pre.proc_at(r.pid as int), post.proc_at(r.pid as int))
    &&& post.proc_at(r.pid as int).tasks@ == pre.proc_at(r.pid as int).tasks@.update(
        r.tid as int,
        Some(post.task_at(r)),
    )
}

impl Kernel {
    /// A live task of a well-formed kernel satisfies the task bounds.
    pub proof fn lemma_task_wf(self, r: TaskRef)
        requires
            self.wf(),
            self.valid_ref(r),
        ensures
            self.task_at(r).wf(
                r.tid as int,
                self.proc_at(r.pid as int).sem_slots@.len() as int,
                self.mutexes@.len() as int,
            ),
    {
        assert(self.proc_ok(r.pid as int));
        assert(self.proc_at(r.pid as int).tasks@[r.tid as int].unwrap().wf(
            r.tid as int,
            self.proc_at(r.pid as int).sem_slots@.len() as int,
            self.mutexes@.len() as int,
        ));
    }
}

/// A process well formed against some arena sizes stays well formed when
/// the arenas only grow.
pub proof fn lemma_proc_wf_mono(
    p: Process,
    n_mutexes: int,
    n_sems: int,
    n_condvars: int,
    m_mutexes: int,
    m_sems: int,
    m_condvars: int,
)
    requires
        p.wf(n_mutexes, n_sems, n_condvars),
        m_mutexes >= n_mutexes,
        m_sems >= n_sems,
        m_condvars >= n_condvars,
    ensures
        p.wf(m_mutexes, m_sems, m_condvars),
{
    assert forall|t: int| 0 <= t < p.tasks@.len() && p.tasks@[t] is Some implies (
    #[trigger] p.tasks@[t].unwrap()).wf(t, p.sem_slots@.len() as int, m_mutexes) by {
        assert(p.tasks@[t].unwrap().wf(t, p.sem_slots@.len() as int, n_mutexes));
    }
}

/// Keeping the process table, growing the arenas at most, and moving only
/// live task handles between the scheduler's queues keeps the kernel well
/// formed.
pub proof fn lemma_wf_frame(pre: Kernel, post: Kernel)
    requires
        pre.wf(),
        post.procs == pre.procs,
        post.mutexes@.len() >= pre.mutexes@.len(),
        post.sems@.len() >= pre.sems@.len(),
        post.condvars@.len() >= pre.condvars@.len(),
        post.current is Some ==> pre.valid_ref(post.current.unwrap()),
    ensures
        post.wf(),
{
    assert forall|pid: int|
        0 <= pid < post.procs@.len() && post.procs@[pid] is Some implies #[trigger] post.proc_ok(
        pid,
    ) by {
        assert(pre.proc_ok(pid));
        let p = post.proc_at(pid);
        lemma_proc_wf_mono(
            p,
            pre.mutexes@.len() as int,
            pre.sems@.len() as int,
            pre.condvars@.len() as int,
            post.mutexes@.len() as int,
            post.sems@.len() as int,
            post.condvars@.len() as int,
        );
        assert forall|c: int| 0 <= c < p.children@.len() implies #[trigger] post.has_proc(
            p.children@[c] as int,
        ) && post.proc_at(p.children@[c] as int).parent == Some(p.pid) by {
            assert(pre.has_proc(p.children@[c] as int));
        }
    }
}

/// A task update whose new control block keeps the well-formedness bounds
/// keeps the whole kernel well formed.
pub proof fn lemma_wf_after_task_update(pre: Kernel, post: Kernel, r: TaskRef)
    requires
        pre.wf(),
        only_task_changed(pre, post, r),
        same_outside_procs(pre, post),
        post.task_at(r).wf(
            r.tid as int,
            pre.proc_at(r.pid as int).sem_slots@.len() as int,
            pre.mutexes@.len() as int,
        ),
    ensures
        post.wf(),
        forall|x: TaskRef| pre.valid_ref(x) ==> #[trigger] post.valid_ref(x),
        forall|x: TaskRef|
            pre.valid_ref(x) && !(x.pid == r.pid && x.tid == r.tid) ==> #[trigger] post.task_at(x)
                == pre.task_at(x),
{
    assert forall|pid: int|
        0 <= pid < post.procs@.len() && post.procs@[pid] is Some implies #[trigger] post.proc_ok(
        pid,
    ) by {
        assert(pre.procs@[pid] is Some);
        assert(pre.proc_ok(pid));
        if pid == r.pid {
            let p1 = pre.proc_at(pid);
            let p2 = post.proc_at(pid);
            assert(p2.tasks@.len() == p1.tasks@.len());
            assert forall|t: int|
                0 <= t < p2.tasks@.len() && p2.tasks@[t] is Some implies (
            #[trigger] p2.tasks@[t].unwrap()).wf(
                t,
                p2.sem_slots@.len() as int,
                post.mutexes@.len() as int,
            ) by {
                if t != r.tid {
                    assert(p2.tasks@[t] == p1.tasks@[t]);
                }
            }
            assert forall|c: int| 0 <= c < p2.children@.len() implies #[trigger] post.has_proc(
                p2.children@[c] as int,
            ) && post.proc_at(p2.children@[c] as int).parent == Some(p2.pid) by {
                assert(pre.has_proc(p1.children@[c] as int));
            }
        } else {
            let p2 = post.proc_at(pid);
            assert(p2 == pre.proc_at(pid));
            assert forall|c: int| 0 <= c < p2.children@.len() implies #[trigger] post.has_proc(
                p2.children@[c] as int,
            ) && post.proc_at(p2.children@[c] as int).parent == Some(p2.pid) by {
                assert(pre.has_proc(p2.children@[c] as int));
                if p2.children@[c] == r.pid {
                    assert(post.proc_at(r.pid as int).parent == pre.proc_at(r.pid as int).parent);
                }
            }
        }
    }
    assert forall|x: TaskRef| pre.valid_ref(x) implies #[trigger] post.valid_ref(x) by {
        if x.pid == r.pid {
            assert(post.proc_at(x.pid as int).tasks@.len() == pre.proc_at(
                x.pid as int,
            ).tasks@.len());
        }
    }
}

/// The two processes agree on everything but their three handle tables.
pub open spec fn same_proc_outside_slots(p1: Process, p2: Process) -> bool {
    &&& p2.pid == p1.pid
    &&& p2.parent == p1.parent
    &&& p2.children == p1.children
    &&& p2.zombie == p1.zombie
    &&& p2.exit_code == p1.exit_code
    &&& p2.tasks == p1.tasks
    &&& p2.deadlock_detect == p1.deadlock_detect
    &&& p2.mem == p1.mem
}

impl Kernel {
    /// The task's allocation entry for `slot`, if recorded, is not at the
    /// top of its type — an `up` may still raise it.
    pub open spec fn up_headroom(self, x: TaskRef, slot: int) -> bool {
        self.valid_ref(x) ==> (slot < self.task_at(x).sem_allocated@.len()
            ==> self.task_at(x).sem_allocated@[slot] < isize::MAX)
    }

    /// The task's allocation entry for `slot`, if recorded, is not at the
    /// bottom of its type — a `down` may still lower it.
    pub open spec fn down_headroom(self, x: TaskRef, slot: int) -> bool {
        self.valid_ref(x) ==> (slot < self.task_at(x).sem_allocated@.len()
            ==> self.task_at(x).sem_allocated@[slot] > isize::MIN)
    }
}

/// The two processes agree on everything but their children list.
pub open spec fn same_proc_outside_children(p1: Process, p2: Process) -> bool {
    &&& p2.pid == p1.pid
    &&& p2.parent == p1.parent
    &&& p2.zombie == p1.zombie
    &&& p2.exit_code == p1.exit_code
    &&& p2.tasks == p1.tasks
    &&& p2.mutex_slots == p1.mutex_slots
    &&& p2.sem_slots == p1.sem_slots
    &&& p2.condvar_slots == p1.condvar_slots
    &&& p2.deadlock_detect == p1.deadlock_detect
    &&& p2.mem == p1.mem
}

/// Appending a fresh, childless, well-formed process with an earlier parent
/// keeps the kernel well formed.
pub proof fn lemma_wf_after_proc_push(pre: Kernel, post: Kernel)
    requires
        pre.wf(),
        post.procs@.len() == pre.procs@.len() + 1,
        post.procs@.len() <= MAX_PROCS,
        forall|q: int| 0 <= q < pre.procs@.len() ==> post.procs@[q] == pre.procs@[q],
        post.procs@[pre.procs@.len() as int] is Some,
        post.mutexes@.len() == pre.mutexes@.len(),
        post.sems@.len() == pre.sems@.len(),
        post.condvars@.len() == pre.condvars@.len(),
        post.current == pre.current,
        ({
            let np = post.proc_at(pre.procs@.len() as int);
            &&& np.pid == pre.procs@.len()
            &&& np.wf(
                pre.mutexes@.len() as int,
                pre.sems@.len() as int,
                pre.condvars@.len() as int,
            )
            &&& (np.parent matches Some(q) ==> q < np.pid)
            &&& np.children@.len() == 0
        }),
    ensures
        post.wf(),
        forall|x: TaskRef| pre.valid_ref(x) ==> #[trigger] post.valid_ref(x),
{
    let n = pre.procs@.len() as int;
    assert forall|pid: int|
        0 <= pid < post.procs@.len() && post.procs@[pid] is Some implies #[trigger] post.proc_ok(
        pid,
    ) by {
        if pid < n {
            assert(pre.proc_ok(pid));
            let p = post.proc_at(pid);
            assert(p == pre.proc_at(pid));
            assert forall|c: int| 0 <= c < p.children@.len() implies #[trigger] post.has_proc(
                p.children@[c] as int,
            ) && post.proc_at(p.children@[c] as int).parent == Some(p.pid) by {
                assert(pre.has_proc(p.children@[c] as int));
            }
        }
    }
    assert forall|x: TaskRef| pre.valid_ref(x) implies #[trigger] post.valid_ref(x) by {
        assert(post.procs@[x.pid as int] == pre.procs@[x.pid as int]);
    }
}

/// Recording a fresh child — one no list holds yet, whose parent pointer
/// already names `me` — in `me`'s children list keeps the kernel well
/// formed.
pub proof fn lemma_wf_after_child_link(pre: Kernel, post: Kernel, me: usize, c: usize)
    requires
        pre.wf(),
        pre.has_proc(me as int),
        pre.has_proc(c as int),
        pre.proc_at(c as int).parent == Some(me),
        me < c,
        forall|j: int|
            0 <= j < pre.proc_at(me as int).children@.len() ==> pre.proc_at(
                me as int,
            ).children@[j] != c,
        only_proc_changed(pre, post, me as int),
        same_proc_outside_children(pre.proc_at(me as int), post.proc_at(me as int)),
        post.proc_at(me as int).children@ == pre.proc_at(me as int).children@.push(c),
        post.mutexes == pre.mutexes,
        post.sems == pre.sems,
        post.condvars == pre.condvars,
        post.current == pre.current,
    ensures
        post.wf(),
{
    assert forall|pid: int|
        0 <= pid < post.procs@.len() && post.procs@[pid] is Some implies #[trigger] post.proc_ok(
        pid,
    ) by {
        assert(pre.proc_ok(pid));
        let p = post.proc_at(pid);
        if pid == me {
            let p1 = pre.proc_at(pid);
            assert forall|i: int, j: int|
                0 <= i < j < p.children@.len() implies p.children@[i] != p.children@[j] by {
                if j == p.children@.len() - 1 {
                    assert(p.children@[i] == p1.children@[i]);
                    assert(p.children@[j] == c);
                } else {
                    assert(p.children@[i] == p1.children@[i] && p.children@[j] == p1.children@[j]);
                }
            }
            assert forall|i: int| 0 <= i < p.children@.len() implies #[trigger] post.has_proc(
                p.children@[i] as int,
            ) && post.proc_at(p.children@[i] as int).parent == Some(p.pid) by {
                if i == p.children@.len() - 1 {
                    assert(p.children@[i] == c);
                    assert(post.procs@[c as int] == pre.procs@[c as int]);
                } else {
                    assert(p.children@[i] == pre.proc_at(pid).children@[i]);
                    assert(pre.has_proc(p.children@[i] as int));
                    if p.children@[i] == me {
                        assert(pre.proc_at(me as int).parent == Some(me));
                    }
                }
            }
        } else {
            assert(p == pre.proc_at(pid));
            assert forall|i: int| 0 <= i < p.children@.len() implies #[trigger] post.has_proc(
                p.children@[i] as int,
            ) && post.proc_at(p.children@[i] as int).parent == Some(p.pid) by {
                assert(pre.has_proc(p.children@[i] as int));
                if p.children@[i] == me {
                    assert(post.proc_at(me as int).parent == pre.proc_at(me as int).parent);
                }
            }
        }
    }
}

/// Between `pre` and `post`, only the process-table entry of `pid` changed.
pub open spec fn only_proc_changed(pre: Kernel, post: Kernel, pid: int) -> bool {
    &&& pre.has_proc(pid)
    &&& post.procs@.len() == pre.procs@.len()
    &&& (forall|p: int| 0 <= p < pre.procs@.len() && p != pid ==> post.procs@[p] == pre.procs@[p])
    &&& post.procs@[pid] is Some
}

/// An update of one process that keeps its identity, its parent, its task
/// slots, and the validity of its children — with arenas at most grown and
/// the scheduler's handles untouched — keeps the kernel well formed.
pub proof fn lemma_wf_after_proc_update(pre: Kernel, post: Kernel, pid: int)
    requires
        pre.wf(),
        only_proc_changed(pre, post, pid),
        post.mutexes@.len() >= pre.mutexes@.len(),
        post.sems@.len() >= pre.sems@.len(),
        post.condvars@.len() >= pre.condvars@.len(),
        post.current == pre.current,
        post.proc_at(pid).pid == pid,
        post.proc_at(pid).parent == pre.proc_at(pid).parent,
        post.proc_at(pid).wf(
            post.mutexes@.len() as int,
            post.sems@.len() as int,
            post.condvars@.len() as int,
        ),
        post.proc_at(pid).tasks@.len() >= pre.proc_at(pid).tasks@.len(),
        forall|t: int|
            0 <= t < pre.proc_at(pid).tasks@.len() && pre.proc_at(pid).tasks@[t] is Some ==> (
            #[trigger] post.proc_at(pid).tasks@[t]) is Some,
        post.proc_at(pid).children == pre.proc_at(pid).children,
    ensures
        post.wf(),
        forall|x: TaskRef| pre.valid_ref(x) ==> #[trigger] post.valid_ref(x),
{
    assert forall|x: TaskRef| pre.valid_ref(x) implies #[trigger] post.valid_ref(x) by {
        if x.pid == pid {
            assert(post.proc_at(pid).tasks@[x.tid as int] is Some);
        }
    }
    assert forall|q: int|
        0 <= q < post.procs@.len() && post.procs@[q] is Some implies #[trigger] post.proc_ok(
        q,
    ) by {
        assert(pre.proc_ok(q));
        let p = post.proc_at(q);
        if q != pid {
            lemma_proc_wf_mono(
                p,
                pre.mutexes@.len() as int,
                pre.sems@.len() as int,
                pre.condvars@.len() as int,
                post.mutexes@.len() as int,
                post.sems@.len() as int,
                post.condvars@.len() as int,
            );
        }
        assert forall|c: int| 0 <= c < p.children@.len() implies #[trigger] post.has_proc(
            p.children@[c] as int,
        ) && post.proc_at(p.children@[c] as int).parent == Some(p.pid) by {
            if q == pid {
                assert(pre.has_proc(p.children@[c] as int));
                if p.children@[c] == pid {
                    assert(post.proc_at(pid).parent == Some(pid as usize));
                }
            } else {
                assert(pre.has_proc(p.children@[c] as int));
                if p.children@[c] == pid {
                    assert(post.proc_at(pid).parent == pre.proc_at(pid).parent);
                }
            }
        }
    }
}

impl Kernel {
    /// Borrow the control block of a live process.
    pub fn proc_mut(&mut self, pid: usize) -> (p: &mut Process)
        requires
            old(self).has_proc(pid as int),
        ensures
            *p == old(self).proc_at(pid as int),
            final(self).procs@ == old(self).procs@.update(pid as int, Some(*final(p))),
            same_outside_procs(*old(self), *final(self)),
    {
        match self.procs[pid].as_mut() {
            Some(p) => p,
            None => vstd::pervasive::unreached(),
        }
    }

    /// Read the control block of a live process.
    pub fn proc_get(&self, pid: usize) -> (p: &Process)
        requires
            self.has_proc(pid as int),
        ensures
            *p == self.proc_at(pid as int),
    {
        match &self.procs[pid] {
            Some(p) => p,
            None => vstd::pervasive::unreached(),
        }
    }

    /// Read the control block of a live task.
    pub fn task_get(&self, r: TaskRef) -> (t: &Task)
        requires
            self.valid_ref(r),
        ensures
            *t == self.task_at(r),
    {
        match &self.procs[r.pid] {
            Some(p) => match &p.tasks[r.tid] {
                Some(t) => t,
                None => vstd::pervasive::unreached(),
            },
            None => vstd::pervasive::unreached(),
        }
    }

    /// Whether `r` names a live task of a live process.
    pub fn ref_valid(&self, r: TaskRef) -> (b: bool)
        ensures
            b == self.valid_ref(r),
    {
        r.pid < self.procs.len() && match &self.procs[r.pid] {
            Some(p) => r.tid < p.tasks.len() && p.tasks[r.tid].is_some(),
            None => false,
        }
    }

    /// Whether the scheduler may run `r` now.
    pub fn eligible_now(&self, r: TaskRef) -> (b: bool)
        requires
            self.valid_ref(r),
        ensures
            b == self.eligible(r),
    {
        let t = self.task_get(r);
        t.status == TaskStatus::Ready && match t.retry_lock {
            None => true,
            Some(m) => m < self.mutexes.len() && !self.mutexes[m].locked,
        }
    }

    /// Borrow the control block of a live task.
    pub fn task_mut(&mut self, r: TaskRef) -> (t: &mut Task)
        requires
            old(self).valid_ref(r),
        ensures
            *t == old(self).task_at(r),
            only_task_changed(*old(self), *final(self), r),
            final(self).task_at(r) == *final(t),
            same_outside_procs(*old(self), *final(self)),
    {
        let p = match self.procs[r.pid].as_mut() {
            Some(p) => p,
            None => vstd::pervasive::unreached(),
        };
        match p.tasks[r.tid].as_mut() {
            Some(t) => t,
            None => vstd::pervasive::unreached(),
        }
    }
}

} // verus!
