//! Process-lifecycle and memory system calls.
use vstd::prelude::*;

use crate::kernel::{
    lemma_wf_after_proc_update, lemma_wf_after_task_update, lemma_wf_frame, only_proc_changed,
    only_task_changed, Kernel,
};
use crate::mem::{in_vpn_range, MemorySet};
use crate::process::{copy_vec, Process};
use crate::sched::{enqueue_ready, pick_next};
use crate::syscall::sync::scheduled_from;
use crate::task::{Task, TaskInfo, TaskRef, TaskStatus, TimeVal};
use crate::{MAX_PROCS, MAX_SYSCALL_NUM, MAX_TASKS_PER_PROC, PAGE_SIZE, USER_HEAP_BASE};

verus! {

/// The pid of the calling process.
pub fn sys_getpid(k: &Kernel) -> (r: isize)
    requires
        k.wf(),
        k.has_current(),
    ensures
        r == k.cur_ref().pid as isize,
        0 <= r < MAX_PROCS,
{
    let cur = match k.current {
        Some(c) => c,
        None => vstd::pervasive::unreached(),
    };
    cur.pid as isize
}

/// Current kernel time, split into seconds and microseconds.
pub fn sys_get_time(k: &Kernel) -> (tv: TimeVal)
    ensures
        tv.sec == k.time_us as int / 1_000_000,
        tv.usec == k.time_us as int % 1_000_000,
{
    TimeVal { sec: k.time_us / 1_000_000, usec: k.time_us % 1_000_000 }
}

/// What the calling task has done so far: its status, its system-call
/// counts, and the time since it was created (zero if the clock was moved
/// before boot finished).
pub fn sys_task_info(k: &Kernel) -> (info: TaskInfo)
    requires
        k.wf(),
        k.has_current(),
    ensures
        info.status == k.task_at(k.cur_ref()).status,
        info.syscall_times@ == k.task_at(k.cur_ref()).syscall_times@,
        info.time == if k.task_at(k.cur_ref()).start_time_ms <= k.spec_now_ms() {
            k.spec_now_ms() - k.task_at(k.cur_ref()).start_time_ms
        } else {
            0
        },
{
    let cur = match k.current {
        Some(c) => c,
        None => vstd::pervasive::unreached(),
    };
    let t = k.task_get(cur);
    let now_ms = k.time_us / 1000;
    let time = if t.start_time_ms <= now_ms {
        now_ms - t.start_time_ms
    } else {
        0
    };
    TaskInfo { status: t.status, syscall_times: copy_vec(&t.syscall_times), time }
}

/// Count one invocation of system call `id` against the calling task.
pub fn note_syscall(k: &mut Kernel, id: usize)
    requires
        old(k).wf(),
        old(k).has_current(),
        id < MAX_SYSCALL_NUM,
        old(k).task_at(old(k).cur_ref()).syscall_times@[id as int] < u32::MAX,
    ensures
        final(k).wf(),
        only_task_changed(*old(k), *final(k), old(k).cur_ref()),
        final(k).task_at(old(k).cur_ref()).syscall_times@ == old(k).task_at(
            old(k).cur_ref(),
        ).syscall_times@.update(
            id as int,
            (old(k).task_at(old(k).cur_ref()).syscall_times@[id as int] + 1) as u32,
        ),
        crate::task::task_fields_eq_except_sem(
            (Task {
                syscall_times: final(k).task_at(old(k).cur_ref()).syscall_times,
                ..old(k).task_at(old(k).cur_ref())
            }),
            final(k).task_at(old(k).cur_ref()),
        ),
        final(k).task_at(old(k).cur_ref()).sem_need == old(k).task_at(
            old(k).cur_ref(),
        ).sem_need,
        final(k).task_at(old(k).cur_ref()).sem_allocated == old(k).task_at(
            old(k).cur_ref(),
        ).sem_allocated,
        crate::kernel::same_outside_procs(*old(k), *final(k)),
{
    let cur = match k.current {
        Some(c) => c,
        None => vstd::pervasive::unreached(),
    };
    proof {
        old(k).lemma_task_wf(cur);
    }
    {
        let t = k.task_mut(cur);
        let v = t.syscall_times[id];
        t.syscall_times.set(id, v + 1);
    }
    proof {
        lemma_wf_after_task_update(*old(k), *k, cur);
    }
}

/// Change the calling task's scheduling weight.  Values below 2 are
/// rejected with the argument-error sentinel and leave the weight as it
/// was; an accepted value is stored and returned.
pub fn sys_set_priority(k: &mut Kernel, prio: isize) -> (r: isize)
    requires
        old(k).wf(),
        old(k).has_current(),
    ensures
        final(k).wf(),
        prio < 2 ==> r == -1 && *final(k) == *old(k),
        prio >= 2 ==> {
            &&& r == prio
            &&& only_task_changed(*old(k), *final(k), old(k).cur_ref())
            &&& final(k).task_at(old(k).cur_ref()) == (Task {
                priority: prio as usize,
                ..old(k).task_at(old(k).cur_ref())
            })
            &&& crate::kernel::same_outside_procs(*old(k), *final(k))
        },
{
    if prio < 2 {
        return -1;
    }
    let cur = match k.current {
        Some(c) => c,
        None => vstd::pervasive::unreached(),
    };
    proof {
        old(k).lemma_task_wf(cur);
    }
    {
        let t = k.task_mut(cur);
        t.priority = prio as usize;
    }
    proof {
        lemma_wf_after_task_update(*old(k), *k, cur);
    }
    prio
}

/// Give up the processor: the calling task goes to the back of the ready
/// queue and the scheduler runs the next eligible task.
pub fn sys_yield(k: &mut Kernel) -> (r: isize)
    requires
        old(k).wf(),
        old(k).has_current(),
    ensures
        final(k).wf(),
        r == 0,
        exists|mid: Kernel|
            {
                let cur = old(k).cur_ref();
                &&& #[trigger] scheduled_from(mid, *final(k))
                &&& only_task_changed(*old(k), mid, cur)
                &&& mid.task_at(cur) == (Task {
                    status: TaskStatus::Ready,
                    ..old(k).task_at(cur)
                })
                &&& mid.ready@ == old(k).ready@.push(cur)
                &&& mid.current is None
                &&& mid.mutexes == old(k).mutexes
                &&& mid.sems == old(k).sems
                &&& mid.condvars == old(k).condvars
                &&& mid.sleeping == old(k).sleeping
                &&& mid.time_us == old(k).time_us
                &&& mid.apps == old(k).apps
            },
{
    let cur = match k.current {
        Some(c) => c,
        None => vstd::pervasive::unreached(),
    };
    enqueue_ready(k, cur);
    let ghost ka = *k;
    k.current = None;
    let ghost mid = *k;
    proof {
        lemma_wf_frame(ka, mid);
    }
    pick_next(k);
    proof {
        assert(scheduled_from(mid, *k));
    }
    0
}

/// Map the byte range `[start, start + len)` into the calling process's
/// address space with permission bits `port` (read 1, write 2, execute 4).
/// A misaligned start, empty or unknown permission bits, an overflowing
/// range, or any already-mapped page in the range yields the argument-error
/// sentinel with nothing changed; a zero-length range is a no-op success.
pub fn sys_mmap(k: &mut Kernel, start: usize, len: usize, port: usize) -> (r: isize)
    requires
        old(k).wf(),
        old(k).has_current(),
    ensures
        final(k).wf(),
        ({
            let pid = old(k).cur_ref().pid as int;
            let m0 = old(k).proc_at(pid).mem;
            if port & 7 == 0 || port & !7 != 0 || start as int % (PAGE_SIZE as int) != 0 {
                r == -1 && *final(k) == *old(k)
            } else if len == 0 {
                r == 0 && *final(k) == *old(k)
            } else if start + len <= usize::MAX && (forall|vpn: int|
                in_vpn_range(vpn, start as int, len as int) ==> !m0.mapped(vpn)) {
                &&& r == 0
                &&& only_proc_changed(*old(k), *final(k), pid)
                &&& same_proc_outside_mem(old(k).proc_at(pid), final(k).proc_at(pid))
                &&& final(k).proc_at(pid).mem.heap_bottom == m0.heap_bottom
                &&& final(k).proc_at(pid).mem.brk == m0.brk
                &&& (forall|vpn: int|
                    in_vpn_range(vpn, start as int, len as int) ==> #[trigger] final(k).proc_at(
                        pid,
                    ).mem.mapped(vpn) && final(k).proc_at(pid).mem.perm_of(vpn) == port)
                &&& (forall|vpn: int|
                    !in_vpn_range(vpn, start as int, len as int) ==> (#[trigger] final(k).proc_at(
                        pid,
                    ).mem.mapped(vpn) == m0.mapped(vpn) && (final(k).proc_at(pid).mem.mapped(vpn)
                        ==> final(k).proc_at(pid).mem.perm_of(vpn) == m0.perm_of(vpn))))
                &&& crate::kernel::same_outside_procs(*old(k), *final(k))
            } else {
                r == -1 && crate::kernel::unchanged_kernel(*old(k), *final(k))
            }
        }),
{
    if port & 7 == 0 {
        return -1;
    }
    if start % PAGE_SIZE != 0 || port & !7 != 0 {
        return -1;
    }
    if len == 0 {
        return 0;
    }
    let cur = match k.current {
        Some(c) => c,
        None => vstd::pervasive::unreached(),
    };
    let pid = cur.pid;
    proof {
        assert(old(k).proc_ok(pid as int));
    }
    let ok = {
        let p = k.proc_mut(pid);
        p.mem.map_region(start, len, port)
    };
    proof {
        lemma_wf_after_proc_update(*old(k), *k, pid as int);
    }
    if ok {
        0
    } else {
        proof {
            assert(k.procs@ =~= old(k).procs@);
        }
        -1
    }
}

/// Unmap the byte range `[start, start + len)` from the calling process's
/// address space.  A range with any unmapped page, or one outside the
/// address space, yields the argument-error sentinel with nothing changed;
/// a zero-length range is a no-op success.
pub fn sys_munmap(k: &mut Kernel, start: usize, len: usize) -> (r: isize)
    requires
        old(k).wf(),
        old(k).has_current(),
    ensures
        final(k).wf(),
        ({
            let pid = old(k).cur_ref().pid as int;
            let m0 = old(k).proc_at(pid).mem;
            if len == 0 {
                r == 0 && *final(k) == *old(k)
            } else if start + len <= usize::MAX && (forall|vpn: int|
                in_vpn_range(vpn, start as int, len as int) ==> m0.mapped(vpn)) {
                &&& r == 0
                &&& only_proc_changed(*old(k), *final(k), pid)
                &&& same_proc_outside_mem(old(k).proc_at(pid), final(k).proc_at(pid))
                &&& final(k).proc_at(pid).mem.heap_bottom == m0.heap_bottom
                &&& final(k).proc_at(pid).mem.brk == m0.brk
                &&& (forall|vpn: int| #[trigger]
                    final(k).proc_at(pid).mem.mapped(vpn) == (m0.mapped(vpn) && !in_vpn_range(
                        vpn,
                        start as int,
                        len as int,
                    )))
                &&& (forall|vpn: int| #[trigger]
                    final(k).proc_at(pid).mem.mapped(vpn) ==> final(k).proc_at(pid).mem.perm_of(
                        vpn,
                    ) == m0.perm_of(vpn))
                &&& crate::kernel::same_outside_procs(*old(k), *final(k))
            } else {
                r == -1 && crate::kernel::unchanged_kernel(*old(k), *final(k))
            }
        }),
{
    if len == 0 {
        return 0;
    }
    let cur = match k.current {
        Some(c) => c,
        None => vstd::pervasive::unreached(),
    };
    let pid = cur.pid;
    proof {
        assert(old(k).proc_ok(pid as int));
    }
    let ok = {
        let p = k.proc_mut(pid);
        p.mem.unmap_region(start, len)
    };
    proof {
        lemma_wf_after_proc_update(*old(k), *k, pid as int);
    }
    if ok {
        0
    } else {
        proof {
            assert(k.procs@ =~= old(k).procs@);
        }
        -1
    }
}

/// Grow or shrink the calling process's data segment by `size` bytes and
/// return the old boundary; a boundary that would leave the heap's valid
/// range yields the argument-error sentinel with nothing changed.
pub fn sys_sbrk(k: &mut Kernel, size: i32) -> (r: isize)
    requires
        old(k).wf(),
        old(k).has_current(),
        old(k).proc_at(old(k).cur_ref().pid as int).mem.brk <= isize::MAX as usize,
    ensures
        final(k).wf(),
        ({
            let pid = old(k).cur_ref().pid as int;
            let m0 = old(k).proc_at(pid).mem;
            if m0.heap_bottom <= m0.brk + size <= usize::MAX {
                &&& r == m0.brk as isize
                &&& only_proc_changed(*old(k), *final(k), pid)
                &&& same_proc_outside_mem(old(k).proc_at(pid), final(k).proc_at(pid))
                &&& final(k).proc_at(pid).mem.pages@ == m0.pages@
                &&& final(k).proc_at(pid).mem.heap_bottom == m0.heap_bottom
                &&& final(k).proc_at(pid).mem.brk == m0.brk + size
                &&& crate::kernel::same_outside_procs(*old(k), *final(k))
            } else {
                r == -1 && crate::kernel::unchanged_kernel(*old(k), *final(k))
            }
        }),
{
    let cur = match k.current {
        Some(c) => c,
        None => vstd::pervasive::unreached(),
    };
    let pid = cur.pid;
    proof {
        assert(old(k).proc_ok(pid as int));
    }
    let res = {
        let p = k.proc_mut(pid);
        p.mem.change_brk(size)
    };
    proof {
        lemma_wf_after_proc_update(*old(k), *k, pid as int);
    }
    match res {
        Some(old_brk) => old_brk as isize,
        None => {
            proof {
                assert(k.procs@ =~= old(k).procs@);
            }
            -1
        },
    }
}

/// Byte-for-byte equality of two byte strings.
fn bytes_eq(a: &[u8], b: &[u8]) -> (r: bool)
    ensures
        r == (a@ == b@),
{
    if a.len() != b.len() {
        proof {
            assert(a@.len() != b@.len());
        }
        return false;
    }
    let n = a.len();
    let mut i: usize = 0;
    while i < n
        invariant
            i <= n,
            n == a@.len(),
            n == b@.len(),
            forall|j: int| 0 <= j < i ==> a@[j] == b@[j],
        decreases n - i,
    {
        if a[i] != b[i] {
            return false;
        }
        i = i + 1;
    }
    proof {
        assert(a@ =~= b@);
    }
    true
}

/// Whether the loader can resolve an executable image of this name.
fn has_image(k: &Kernel, path: &[u8]) -> (r: bool)
    ensures
        r == k.has_app(path@),
{
    let n = k.apps.len();
    let mut i: usize = 0;
    while i < n
        invariant
            i <= n,
            n == k.apps@.len(),
            forall|j: int| 0 <= j < i ==> k.apps@[j]@ != path@,
        decreases n - i,
    {
        if bytes_eq(k.apps[i].as_slice(), path) {
            return true;
        }
        i = i + 1;
    }
    false
}

/// How a fresh process looks right after it was spawned into table slot
/// `pid`: a new address space, empty handle tables, and one ready initial
/// thread with default priority, enqueued on the scheduler.
pub open spec fn spawned_proc_ok(post: Kernel, pid: int, parent: Option<usize>) -> bool {
    let p = post.proc_at(pid);
    let t = p.tasks@[0].unwrap();
    &&& p.pid == pid
    &&& p.parent == parent
    &&& p.children@.len() == 0
    &&& !p.zombie
    &&& p.exit_code == 0
    &&& p.mutex_slots@.len() == 0
    &&& p.sem_slots@.len() == 0
    &&& p.condvar_slots@.len() == 0
    &&& !p.deadlock_detect
    &&& p.mem.pages@.len() == 0
    &&& p.mem.heap_bottom == USER_HEAP_BASE
    &&& p.mem.brk == USER_HEAP_BASE
    &&& p.tasks@.len() == 1
    &&& p.tasks@[0] is Some
    &&& t.tid == 0
    &&& t.status == TaskStatus::Ready
    &&& t.priority == crate::DEFAULT_PRIORITY
    &&& t.pass == 0
    &&& t.retry_lock is None
    &&& t.cx_ret == 0
    &&& t.sem_need == 0
    &&& t.sem_allocated@.len() == 0
    &&& t.start_time_ms == post.spec_now_ms()
}

/// Create the root process from a named executable image: a fresh process
/// with no parent whose initial thread joins the ready queue.  Fails —
/// changing nothing — when the image cannot be resolved or the process
/// table is full.
pub fn create_root(k: &mut Kernel, path: &[u8]) -> (r: Option<usize>)
    requires
        old(k).wf(),
    ensures
        final(k).wf(),
        if old(k).has_app(path@) && old(k).procs@.len() < MAX_PROCS {
            ({
                let pid = old(k).procs@.len() as int;
                &&& r == Some(pid as usize)
                &&& final(k).procs@.len() == pid + 1
                &&& (forall|q: int| 0 <= q < pid ==> final(k).procs@[q] == old(k).procs@[q])
                &&& final(k).procs@[pid] is Some
                &&& spawned_proc_ok(*final(k), pid, None)
                &&& final(k).ready@ == old(k).ready@.push(TaskRef { pid: pid as usize, tid: 0 })
                &&& final(k).mutexes == old(k).mutexes
                &&& final(k).sems == old(k).sems
                &&& final(k).condvars == old(k).condvars
                &&& final(k).sleeping == old(k).sleeping
                &&& final(k).current == old(k).current
                &&& final(k).time_us == old(k).time_us
                &&& final(k).apps == old(k).apps
            })
        } else {
            r is None && *final(k) == *old(k)
        },
{
    if !has_image(k, path) {
        return None;
    }
    let pid = k.procs.len();
    if pid >= MAX_PROCS {
        return None;
    }
    let now_ms = k.time_us / 1000;
    let mut p = Process::new(pid, None, USER_HEAP_BASE);
    p.tasks.push(Some(Task::new(0, now_ms)));
    k.procs.push(Some(p));
    let ghost k1 = *k;
    proof {
        crate::kernel::lemma_wf_after_proc_push(*old(k), k1);
    }
    k.ready.push(TaskRef { pid, tid: 0 });
    proof {
        lemma_wf_frame(k1, *k);
    }
    Some(pid)
}

/// Spawn a new process from a named executable image as a child of the
/// calling process: a fresh process and address space (no copy of the
/// parent's), linked into the parent's children, its initial thread
/// enqueued; returns the new pid.  An unresolvable image or a full process
/// table yields the argument-error sentinel with nothing changed.
pub fn sys_spawn(k: &mut Kernel, path: &[u8]) -> (r: isize)
    requires
        old(k).wf(),
        old(k).has_current(),
    ensures
        final(k).wf(),
        if old(k).has_app(path@) && old(k).procs@.len() < MAX_PROCS {
            ({
                let me = old(k).cur_ref().pid;
                let pid = old(k).procs@.len() as int;
                &&& r == pid as isize
                &&& final(k).procs@.len() == pid + 1
                &&& (forall|q: int|
                    0 <= q < pid && q != me ==> final(k).procs@[q] == old(k).procs@[q])
                &&& final(k).procs@[pid] is Some
                &&& spawned_proc_ok(*final(k), pid, Some(me))
                &&& final(k).procs@[me as int] is Some
                &&& crate::kernel::same_proc_outside_children(
                    old(k).proc_at(me as int),
                    final(k).proc_at(me as int),
                )
                &&& final(k).proc_at(me as int).children@ == old(k).proc_at(
                    me as int,
                ).children@.push(pid as usize)
                &&& final(k).ready@ == old(k).ready@.push(TaskRef { pid: pid as usize, tid: 0 })
                &&& final(k).mutexes == old(k).mutexes
                &&& final(k).sems == old(k).sems
                &&& final(k).condvars == old(k).condvars
                &&& final(k).sleeping == old(k).sleeping
                &&& final(k).current == old(k).current
                &&& final(k).time_us == old(k).time_us
                &&& final(k).apps == old(k).apps
            })
        } else {
            r == -1 && *final(k) == *old(k)
        },
{
    let cur = match k.current {
        Some(c) => c,
        None => vstd::pervasive::unreached(),
    };
    let me = cur.pid;
    if !has_image(k, path) {
        return -1;
    }
    let pid = k.procs.len();
    if pid >= MAX_PROCS {
        return -1;
    }
    let now_ms = k.time_us / 1000;
    let mut p = Process::new(pid, Some(me), USER_HEAP_BASE);
    p.tasks.push(Some(Task::new(0, now_ms)));
    k.procs.push(Some(p));
    let ghost k1 = *k;
    proof {
        crate::kernel::lemma_wf_after_proc_push(*old(k), k1);
        assert(old(k).proc_ok(me as int));
    }
    {
        let pp = k.proc_mut(me);
        pp.children.push(pid);
    }
    let ghost k2 = *k;
    proof {
        assert forall|j: int| 0 <= j < k1.proc_at(me as int).children@.len() implies k1.proc_at(
            me as int,
        ).children@[j] != pid by {
            assert(k1.proc_at(me as int) == old(k).proc_at(me as int));
            assert(old(k).proc_ok(me as int));
            assert(old(k).has_proc(old(k).proc_at(me as int).children@[j] as int));
        }
        crate::kernel::lemma_wf_after_child_link(k1, k2, me, pid);
    }
    k.ready.push(TaskRef { pid, tid: 0 });
    proof {
        lemma_wf_frame(k2, *k);
    }
    pid as isize
}

/// Duplicate the calling process: the child copies the parent's address
/// space and shares its synchronization handles (the slot tables are copied
/// entry for entry, naming the same objects); the child's single thread is
/// a clone of the caller whose saved return value is 0, so the call yields
/// 0 in the child, while the parent receives the child's pid.  A full
/// process table yields the argument-error sentinel with nothing changed.
pub fn sys_fork(k: &mut Kernel) -> (r: isize)
    requires
        old(k).wf(),
        old(k).has_current(),
    ensures
        final(k).wf(),
        if old(k).procs@.len() < MAX_PROCS {
            ({
                let me = old(k).cur_ref().pid;
                let p0 = old(k).proc_at(me as int);
                let pid = old(k).procs@.len() as int;
                let child = final(k).proc_at(pid);
                let t = child.tasks@[0].unwrap();
                &&& r == pid as isize
                &&& final(k).procs@.len() == pid + 1
                &&& (forall|q: int|
                    0 <= q < pid && q != me ==> final(k).procs@[q] == old(k).procs@[q])
                &&& final(k).procs@[pid] is Some
                &&& child.pid == pid
                &&& child.parent == Some(me)
                &&& child.children@.len() == 0
                &&& !child.zombie
                &&& child.exit_code == 0
                &&& child.mutex_slots@ == p0.mutex_slots@
                &&& child.sem_slots@ == p0.sem_slots@
                &&& child.condvar_slots@ == p0.condvar_slots@
                &&& child.deadlock_detect == p0.deadlock_detect
                &&& child.mem.pages@ == p0.mem.pages@
                &&& child.mem.heap_bottom == p0.mem.heap_bottom
                &&& child.mem.brk == p0.mem.brk
                &&& child.tasks@.len() == 1
                &&& child.tasks@[0] is Some
                &&& t.tid == 0
                &&& t.status == TaskStatus::Ready
                &&& t.priority == old(k).task_at(old(k).cur_ref()).priority
                &&& t.pass == 0
                &&& t.retry_lock is None
                &&& t.cx_ret == 0
                &&& t.sem_need == 0
                &&& t.sem_allocated@.len() == 0
                &&& t.start_time_ms == old(k).spec_now_ms()
                &&& final(k).procs@[me as int] is Some
                &&& crate::kernel::same_proc_outside_children(
                    old(k).proc_at(me as int),
                    final(k).proc_at(me as int),
                )
                &&& final(k).proc_at(me as int).children@ == old(k).proc_at(
                    me as int,
                ).children@.push(pid as usize)
                &&& final(k).ready@ == old(k).ready@.push(TaskRef { pid: pid as usize, tid: 0 })
                &&& final(k).mutexes == old(k).mutexes
                &&& final(k).sems == old(k).sems
                &&& final(k).condvars == old(k).condvars
                &&& final(k).sleeping == old(k).sleeping
                &&& final(k).current == old(k).current
                &&& final(k).time_us == old(k).time_us
                &&& final(k).apps == old(k).apps
            })
        } else {
            r == -1 && *final(k) == *old(k)
        },
{
    let cur = match k.current {
        Some(c) => c,
        None => vstd::pervasive::unreached(),
    };
    let me = cur.pid;
    let pid = k.procs.len();
    if pid >= MAX_PROCS {
        return -1;
    }
    proof {
        assert(old(k).proc_ok(me as int));
        old(k).lemma_task_wf(cur);
    }
    let now_ms = k.time_us / 1000;
    let mut child = Process::new(pid, Some(me), USER_HEAP_BASE);
    {
        let p0 = k.proc_get(me);
        child.mutex_slots = copy_vec(&p0.mutex_slots);
        child.sem_slots = copy_vec(&p0.sem_slots);
        child.condvar_slots = copy_vec(&p0.condvar_slots);
        child.deadlock_detect = p0.deadlock_detect;
        child.mem.pages = copy_vec(&p0.mem.pages);
        child.mem.heap_bottom = p0.mem.heap_bottom;
        child.mem.brk = p0.mem.brk;
    }
    let mut t0 = Task::new(0, now_ms);
    t0.priority = k.task_get(cur).priority;
    child.tasks.push(Some(t0));
    k.procs.push(Some(child));
    let ghost k1 = *k;
    proof {
        crate::kernel::lemma_wf_after_proc_push(*old(k), k1);
    }
    {
        let pp = k.proc_mut(me);
        pp.children.push(pid);
    }
    let ghost k2 = *k;
    proof {
        assert forall|j: int| 0 <= j < k1.proc_at(me as int).children@.len() implies k1.proc_at(
            me as int,
        ).children@[j] != pid by {
            assert(k1.proc_at(me as int) == old(k).proc_at(me as int));
            assert(old(k).proc_ok(me as int));
            assert(old(k).has_proc(old(k).proc_at(me as int).children@[j] as int));
        }
        crate::kernel::lemma_wf_after_child_link(k1, k2, me, pid);
    }
    k.ready.push(TaskRef { pid, tid: 0 });
    proof {
        lemma_wf_frame(k2, *k);
    }
    pid as isize
}

/// Replace the calling process's address space and thread context in place
/// with a freshly loaded image; pid, handle tables, and children are kept.
/// An unresolvable image yields the argument-error sentinel with no side
/// effects.
pub fn sys_exec(k: &mut Kernel, path: &[u8]) -> (r: isize)
    requires
        old(k).wf(),
        old(k).has_current(),
    ensures
        final(k).wf(),
        if old(k).has_app(path@) {
            ({
                let pid = old(k).cur_ref().pid as int;
                let cur = old(k).cur_ref();
                &&& r == 0
                &&& only_proc_changed(*old(k), *final(k), pid)
                &&& same_proc_outside_mem(old(k).proc_at(pid), final(k).proc_at(pid))
                &&& final(k).proc_at(pid).mem.pages@.len() == 0
                &&& final(k).proc_at(pid).mem.heap_bottom == USER_HEAP_BASE
                &&& final(k).proc_at(pid).mem.brk == USER_HEAP_BASE
                &&& crate::kernel::same_outside_procs(*old(k), *final(k))
            })
        } else {
            r == -1 && *final(k) == *old(k)
        },
{
    if !has_image(k, path) {
        return -1;
    }
    let cur = match k.current {
        Some(c) => c,
        None => vstd::pervasive::unreached(),
    };
    let pid = cur.pid;
    proof {
        assert(old(k).proc_ok(pid as int));
    }
    {
        let p = k.proc_mut(pid);
        p.mem = MemorySet::new(USER_HEAP_BASE);
    }
    proof {
        lemma_wf_after_proc_update(*old(k), *k, pid as int);
    }
    0
}

/// Create a new thread in the calling process: its thread id reuses the
/// first free slot of the task table (growing it only when every slot is
/// filled), it starts Ready with default priority, and its first scheduling
/// yields 0.  A full task table yields the argument-error sentinel with
/// nothing changed.
pub fn spawn_thread(k: &mut Kernel) -> (r: isize)
    requires
        old(k).wf(),
        old(k).has_current(),
    ensures
        final(k).wf(),
        ({
            let pid = old(k).cur_ref().pid as int;
            let tasks0 = old(k).proc_at(pid).tasks@;
            if r == -1 {
                *final(k) == *old(k) && tasks0.len() >= MAX_TASKS_PER_PROC && (forall|j: int|
                    0 <= j < tasks0.len() ==> tasks0[j] is Some)
            } else {
                let tid = r as int;
                let t = final(k).proc_at(pid).tasks@[tid].unwrap();
                &&& 0 <= r < MAX_TASKS_PER_PROC
                &&& only_proc_changed(*old(k), *final(k), pid)
                &&& crate::kernel::same_proc_outside_tasks(
                    old(k).proc_at(pid),
                    final(k).proc_at(pid),
                )
                &&& (forall|j: int| 0 <= j < tid ==> tasks0[j] is Some)
                &&& (tid < tasks0.len() ==> tasks0[tid] is None && final(k).proc_at(pid).tasks@
                    == tasks0.update(tid, Some(t)))
                &&& (tid == tasks0.len() ==> final(k).proc_at(pid).tasks@ == tasks0.push(Some(t)))
                &&& t.tid == tid
                &&& t.status == TaskStatus::Ready
                &&& t.priority == crate::DEFAULT_PRIORITY
                &&& t.cx_ret == 0
                &&& t.sem_need == 0
                &&& t.sem_allocated@.len() == 0
                &&& t.start_time_ms == old(k).spec_now_ms()
                &&& final(k).ready@ == old(k).ready@.push(
                    TaskRef { pid: pid as usize, tid: tid as usize },
                )
                &&& crate::kernel::same_outside_procs_but_ready(*old(k), *final(k))
            }
        }),
{
    let cur = match k.current {
        Some(c) => c,
        None => vstd::pervasive::unreached(),
    };
    let pid = cur.pid;
    let now_ms = k.time_us / 1000;
    proof {
        assert(old(k).proc_ok(pid as int));
    }
    let slot = {
        let p = k.proc_get(pid);
        let n = p.tasks.len();
        let mut i: usize = 0;
        while i < n
            invariant
                i <= n,
                n == p.tasks@.len(),
                forall|j: int| 0 <= j < i ==> p.tasks@[j] is Some,
            ensures
                i <= n,
                forall|j: int| 0 <= j < i ==> p.tasks@[j] is Some,
                i < n ==> p.tasks@[i as int] is None,
            decreases n - i,
        {
            if p.tasks[i].is_none() {
                break ;
            }
            i = i + 1;
        }
        if i >= n && n >= MAX_TASKS_PER_PROC {
            return -1;
        }
        i
    };
    let tid = {
        let p = k.proc_mut(pid);
        if slot < p.tasks.len() {
            p.tasks.set(slot, Some(Task::new(slot, now_ms)));
        } else {
            p.tasks.push(Some(Task::new(slot, now_ms)));
        }
        slot
    };
    let ghost k1 = *k;
    proof {
        let tasks0 = old(k).proc_at(pid as int).tasks@;
        let p2 = k.proc_at(pid as int);
        assert forall|t2: int| 0 <= t2 < p2.tasks@.len() && p2.tasks@[t2] is Some implies (
        #[trigger] p2.tasks@[t2].unwrap()).wf(
            t2,
            p2.sem_slots@.len() as int,
            k.mutexes@.len() as int,
        ) by {
            if t2 != tid {
                assert(p2.tasks@[t2] == tasks0[t2]);
            }
        }
        lemma_wf_after_proc_update(*old(k), k1, pid as int);
    }
    k.ready.push(TaskRef { pid, tid });
    proof {
        lemma_wf_frame(k1, *k);
    }
    tid as isize
}

/// The state right after the calling process has been torn down, before the
/// scheduler picks the next task: the process and all its threads are
/// Zombie, the exit code is recorded, the children are cut loose (no longer
/// reachable for waiting), and every scheduler-queue entry of the process is
/// gone, so none of its tasks is ever rescheduled.
pub open spec fn exited_rel(pre: Kernel, mid: Kernel, code: i32) -> bool {
    let me = pre.cur_ref().pid as int;
    let p0 = pre.proc_at(me);
    let p1 = mid.proc_at(me);
    &&& only_proc_changed(pre, mid, me)
    &&& p1.pid == p0.pid
    &&& p1.parent == p0.parent
    &&& p1.children@.len() == 0
    &&& p1.zombie
    &&& p1.exit_code == code
    &&& p1.mutex_slots == p0.mutex_slots
    &&& p1.sem_slots == p0.sem_slots
    &&& p1.condvar_slots == p0.condvar_slots
    &&& p1.deadlock_detect == p0.deadlock_detect
    &&& p1.mem == p0.mem
    &&& p1.tasks@.len() == p0.tasks@.len()
    &&& (forall|t: int|
        0 <= t < p0.tasks@.len() ==> ((#[trigger] p1.tasks@[t]) is Some <==> p0.tasks@[t] is Some))
    &&& (forall|t: int|
        0 <= t < p0.tasks@.len() && p0.tasks@[t] is Some ==> (#[trigger] p1.tasks@[t]).unwrap()
            == (Task { status: TaskStatus::Zombie, ..p0.tasks@[t].unwrap() }))
    &&& mid.ready@ == pre.ready@.filter(|x: TaskRef| x.pid != pre.cur_ref().pid)
    &&& mid.sleeping@ == pre.sleeping@.filter(
        |e: crate::kernel::SleepEntry| e.task.pid != pre.cur_ref().pid,
    )
    &&& mid.current is None
    &&& mid.mutexes == pre.mutexes
    &&& mid.sems == pre.sems
    &&& mid.condvars == pre.condvars
    &&& mid.time_us == pre.time_us
    &&& mid.apps == pre.apps
}

/// Tear the calling process down with the given exit code and run the next
/// ready task; the call never returns control to the caller.  Every thread
/// of the process becomes Zombie, the children become unreachable for
/// waiting, and the process awaits reaping by its parent's `waitpid`.
#[verifier::loop_isolation(false)]
pub fn sys_exit(k: &mut Kernel, exit_code: i32)
    requires
        old(k).wf(),
        old(k).has_current(),
    ensures
        final(k).wf(),
        exists|mid: Kernel|
            #[trigger] exited_rel(*old(k), mid, exit_code) && scheduled_from(mid, *final(k)),
{
    let cur = match k.current {
        Some(c) => c,
        None => vstd::pervasive::unreached(),
    };
    let me = cur.pid;
    proof {
        assert(old(k).proc_ok(me as int));
    }
    {
        let p = k.proc_mut(me);
        p.zombie = true;
        p.exit_code = exit_code;
        p.children.clear();
        let n = p.tasks.len();
        let ghost t0 = p.tasks@;
        let ghost psnap = *p;
        let mut i: usize = 0;
        while i < n
            invariant
                i <= n,
                n == p.tasks@.len(),
                n == t0.len(),
                p.pid == psnap.pid,
                p.parent == psnap.parent,
                p.children == psnap.children,
                p.zombie == psnap.zombie,
                p.exit_code == psnap.exit_code,
                p.mutex_slots == psnap.mutex_slots,
                p.sem_slots == psnap.sem_slots,
                p.condvar_slots == psnap.condvar_slots,
                p.deadlock_detect == psnap.deadlock_detect,
                p.mem == psnap.mem,
                forall|j: int| i <= j < n ==> p.tasks@[j] == t0[j],
                forall|j: int|
                    0 <= j < i ==> ((#[trigger] p.tasks@[j]) is Some <==> t0[j] is Some),
                forall|j: int|
                    0 <= j < i && t0[j] is Some ==> (#[trigger] p.tasks@[j]).unwrap() == (Task {
                        status: TaskStatus::Zombie,
                        ..t0[j].unwrap()
                    }),
            decreases n - i,
        {
            match p.tasks[i].as_mut() {
                Some(t) => {
                    t.status = TaskStatus::Zombie;
                },
                None => {},
            }
            i = i + 1;
        }
    }
    let ghost k1 = *k;
    proof {
        let p1 = k1.proc_at(me as int);
        let p0 = old(k).proc_at(me as int);
        assert forall|t: int| 0 <= t < p1.tasks@.len() && p1.tasks@[t] is Some implies (
        #[trigger] p1.tasks@[t].unwrap()).wf(
            t,
            p1.sem_slots@.len() as int,
            k1.mutexes@.len() as int,
        ) by {
            assert(p0.tasks@[t].unwrap().wf(
                t,
                p0.sem_slots@.len() as int,
                old(k).mutexes@.len() as int,
            ));
        }
        assert forall|pid: int|
            0 <= pid < k1.procs@.len() && k1.procs@[pid] is Some implies #[trigger] k1.proc_ok(
            pid,
        ) by {
            assert(old(k).proc_ok(pid));
            let p = k1.proc_at(pid);
            if pid != me {
                assert forall|c: int| 0 <= c < p.children@.len() implies #[trigger] k1.has_proc(
                    p.children@[c] as int,
                ) && k1.proc_at(p.children@[c] as int).parent == Some(p.pid) by {
                    assert(old(k).has_proc(p.children@[c] as int));
                    if p.children@[c] == me {
                        assert(k1.proc_at(me as int).parent == old(k).proc_at(me as int).parent);
                    }
                }
            }
        }
        assert(k1.wf());
    }
    // purge the scheduler queues of the torn-down process's tasks
    let ghost keep_r = |x: TaskRef| x.pid != old(k).cur_ref().pid;
    let mut pend_r: Vec<TaskRef> = Vec::new();
    core::mem::swap(&mut pend_r, &mut k.ready);
    let nr = pend_r.len();
    let mut i: usize = 0;
    while i < nr
        invariant
            i <= nr,
            nr == pend_r@.len(),
            pend_r@ == k1.ready@,
            k.ready@ == pend_r@.subrange(0, i as int).filter(keep_r),
            k.procs == k1.procs,
            k.mutexes == k1.mutexes,
            k.sems == k1.sems,
            k.condvars == k1.condvars,
            k.sleeping == k1.sleeping,
            k.current == k1.current,
            k.time_us == k1.time_us,
            k.apps == k1.apps,
        decreases nr - i,
    {
        let e = pend_r[i];
        if e.pid != me {
            k.ready.push(e);
        }
        proof {
            assert(pend_r@.subrange(0, i + 1) =~= pend_r@.subrange(0, i as int).push(e));
            crate::sched::lemma_filter_push(pend_r@.subrange(0, i as int), e, keep_r);
        }
        i = i + 1;
    }
    proof {
        assert(pend_r@.subrange(0, nr as int) == pend_r@);
    }
    let ghost keep_s = |e: crate::kernel::SleepEntry| e.task.pid != old(k).cur_ref().pid;
    let mut pend_s: Vec<crate::kernel::SleepEntry> = Vec::new();
    core::mem::swap(&mut pend_s, &mut k.sleeping);
    let ns = pend_s.len();
    let mut i: usize = 0;
    while i < ns
        invariant
            i <= ns,
            ns == pend_s@.len(),
            pend_s@ == k1.sleeping@,
            k.sleeping@ == pend_s@.subrange(0, i as int).filter(keep_s),
            k.ready@ == k1.ready@.filter(keep_r),
            k.procs == k1.procs,
            k.mutexes == k1.mutexes,
            k.sems == k1.sems,
            k.condvars == k1.condvars,
            k.current == k1.current,
            k.time_us == k1.time_us,
            k.apps == k1.apps,
        decreases ns - i,
    {
        let e = pend_s[i];
        if e.task.pid != me {
            k.sleeping.push(e);
        }
        proof {
            assert(pend_s@.subrange(0, i + 1) =~= pend_s@.subrange(0, i as int).push(e));
            crate::sched::lemma_filter_push(pend_s@.subrange(0, i as int), e, keep_s);
        }
        i = i + 1;
    }
    proof {
        assert(pend_s@.subrange(0, ns as int) == pend_s@);
    }
    k.current = None;
    let ghost mid = *k;
    proof {
        lemma_wf_frame(k1, mid);
        assert(exited_rel(*old(k), mid, exit_code));
    }
    pick_next(k);
    proof {
        assert(scheduled_from(mid, *k));
    }
}

/// Whether a child pid is one the `waitpid` argument selects: -1 selects
/// any child, a non-negative value selects that pid.
pub open spec fn pid_matches(arg: isize, c: usize) -> bool {
    arg == -1 || c as int == arg as int
}

/// Reap one exited child.  An argument of -1 selects any child.  With no
/// matching child at all, the call yields -1; with matching children but
/// none of them Zombie, it yields -2 (retryable).  Otherwise the first
/// matching Zombie child is removed from the children list and destroyed,
/// its exit code is written to `exit_code`, and its pid is returned —
/// exactly one child is reaped per call.
#[verifier::loop_isolation(false)]
pub fn sys_waitpid(k: &mut Kernel, pid: isize, exit_code: &mut i32) -> (r: isize)
    requires
        old(k).wf(),
        old(k).has_current(),
    ensures
        final(k).wf(),
        ({
            let me = old(k).cur_ref().pid as int;
            let ch = old(k).proc_at(me).children@;
            if forall|j: int| 0 <= j < ch.len() ==> !pid_matches(pid, #[trigger] ch[j]) {
                r == -1 && *final(k) == *old(k) && *final(exit_code) == *old(exit_code)
            } else if forall|j: int|
                0 <= j < ch.len() ==> !(pid_matches(pid, #[trigger] ch[j]) && old(k).proc_at(
                    ch[j] as int,
                ).zombie) {
                r == -2 && *final(k) == *old(k) && *final(exit_code) == *old(exit_code)
            } else {
                exists|idx: int|
                    {
                        let c = ch[idx] as int;
                        &&& 0 <= idx < ch.len()
                        &&& pid_matches(pid, #[trigger] ch[idx])
                        &&& old(k).proc_at(c).zombie
                        &&& (forall|j: int|
                            0 <= j < idx ==> !(pid_matches(pid, #[trigger] ch[j]) && old(
                                k,
                            ).proc_at(ch[j] as int).zombie))
                        &&& r == ch[idx] as isize
                        &&& *final(exit_code) == old(k).proc_at(c).exit_code
                        &&& final(k).procs@.len() == old(k).procs@.len()
                        &&& final(k).procs@[c] is None
                        &&& (forall|q: int|
                            0 <= q < old(k).procs@.len() && q != me && q != c ==> (
                            #[trigger] final(k).procs@[q]) == old(k).procs@[q])
                        &&& final(k).procs@[me] is Some
                        &&& crate::kernel::same_proc_outside_children(
                            old(k).proc_at(me),
                            final(k).proc_at(me),
                        )
                        &&& final(k).proc_at(me).children@ == ch.remove(idx)
                        &&& crate::kernel::same_outside_procs(*old(k), *final(k))
                    }
            }
        }),
{
    let cur = match k.current {
        Some(c) => c,
        None => vstd::pervasive::unreached(),
    };
    let me = cur.pid;
    proof {
        assert(old(k).proc_ok(me as int));
    }
    let n = k.proc_get(me).children.len();
    let mut any = false;
    let mut zidx: Option<usize> = None;
    let mut j: usize = 0;
    while j < n
        invariant
            j <= n,
            old(k).wf(),
            *k == *old(k),
            k.has_proc(me as int),
            n == k.proc_at(me as int).children@.len(),
            any == exists|j2: int|
                0 <= j2 < j && pid_matches(pid, #[trigger] k.proc_at(me as int).children@[j2]),
            match zidx {
                None => forall|j2: int|
                    0 <= j2 < j ==> !(pid_matches(pid, #[trigger] k.proc_at(me as int).children@[j2])
                        && k.proc_at(k.proc_at(me as int).children@[j2] as int).zombie),
                Some(z) => {
                    let ch = k.proc_at(me as int).children@;
                    &&& z < j
                    &&& pid_matches(pid, ch[z as int])
                    &&& k.proc_at(ch[z as int] as int).zombie
                    &&& (forall|j2: int|
                        0 <= j2 < z ==> !(pid_matches(pid, #[trigger] ch[j2]) && k.proc_at(
                            ch[j2] as int,
                        ).zombie))
                },
            },
        decreases n - j,
    {
        let c = k.proc_get(me).children[j];
        proof {
            assert(k.proc_ok(me as int));
            assert(k.has_proc(c as int));
            assert(c < MAX_PROCS);
        }
        let m = pid == -1 || (c as isize) == pid;
        proof {
            assert(m == pid_matches(pid, c));
        }
        if m {
            any = true;
            if zidx.is_none() {
                if k.proc_get(c).zombie {
                    zidx = Some(j);
                }
            }
        }
        j = j + 1;
    }
    if !any {
        return -1;
    }
    let idx = match zidx {
        Some(idx) => idx,
        None => {
            return -2;
        },
    };
    let c = k.proc_get(me).children[idx];
    proof {
        assert(k.has_proc(c as int));
        assert(old(k).proc_at(c as int).parent == Some(me));
        assert(c != me);
        assert(cur.pid != c);
    }
    let code = k.proc_get(c).exit_code;
    *exit_code = code;
    {
        let p = k.proc_mut(me);
        p.children.remove(idx);
    }
    let ghost k1 = *k;
    proof {
        let ch = old(k).proc_at(me as int).children@;
        ch.remove_ensures(idx as int);
        assert forall|pid2: int|
            0 <= pid2 < k1.procs@.len() && k1.procs@[pid2] is Some implies #[trigger] k1.proc_ok(
            pid2,
        ) by {
            assert(old(k).proc_ok(pid2));
            let p = k1.proc_at(pid2);
            if pid2 == me {
                assert forall|i2: int, j2: int|
                    0 <= i2 < j2 < p.children@.len() implies p.children@[i2] != p.children@[j2] by {
                    let i0: int = if i2 < idx {
                        i2
                    } else {
                        i2 + 1
                    };
                    let j0: int = if j2 < idx {
                        j2
                    } else {
                        j2 + 1
                    };
                    assert(p.children@[i2] == ch[i0] && p.children@[j2] == ch[j0]);
                }
                assert forall|c2: int| 0 <= c2 < p.children@.len() implies #[trigger] k1.has_proc(
                    p.children@[c2] as int,
                ) && k1.proc_at(p.children@[c2] as int).parent == Some(p.pid) by {
                    let c0: int = if c2 < idx {
                        c2
                    } else {
                        c2 + 1
                    };
                    assert(p.children@[c2] == ch[c0]);
                    assert(old(k).has_proc(ch[c0] as int));
                    if ch[c0] == me {
                        assert(old(k).proc_at(me as int).parent == Some(me));
                    }
                }
            } else {
                assert forall|c2: int| 0 <= c2 < p.children@.len() implies #[trigger] k1.has_proc(
                    p.children@[c2] as int,
                ) && k1.proc_at(p.children@[c2] as int).parent == Some(p.pid) by {
                    assert(old(k).has_proc(p.children@[c2] as int));
                    if p.children@[c2] == me {
                        assert(k1.proc_at(me as int).parent == old(k).proc_at(me as int).parent);
                    }
                }
            }
        }
        assert(k1.wf());
    }
    k.procs.set(c, None);
    proof {
        let ch = old(k).proc_at(me as int).children@;
        assert forall|pid2: int|
            0 <= pid2 < k.procs@.len() && k.procs@[pid2] is Some implies #[trigger] k.proc_ok(
            pid2,
        ) by {
            assert(pid2 != c);
            assert(k1.proc_ok(pid2));
            let p = k.proc_at(pid2);
            assert(p == k1.proc_at(pid2));
            assert forall|c2: int| 0 <= c2 < p.children@.len() implies #[trigger] k.has_proc(
                p.children@[c2] as int,
            ) && k.proc_at(p.children@[c2] as int).parent == Some(p.pid) by {
                assert(k1.has_proc(p.children@[c2] as int));
                if p.children@[c2] == c {
                    assert(k1.proc_at(c as int).parent == Some(pid2 as usize));
                    assert(old(k).proc_at(c as int).parent == Some(me));
                    assert(pid2 == me);
                    if pid2 == me {
                        let c0: int = if c2 < idx {
                            c2
                        } else {
                            c2 + 1
                        };
                        assert(p.children@[c2] == ch[c0]);
                        assert(c0 != idx);
                        assert(ch[c0] != ch[idx as int]);
                        assert(false);
                    }
                }
            }
        }
        assert(k.wf());
    }
    c as isize
}

/// The two processes agree on everything but their address space.
pub open spec fn same_proc_outside_mem(p1: Process, p2: Process) -> bool {
    &&& p2.pid == p1.pid
    &&& p2.parent == p1.parent
    &&& p2.children == p1.children
    &&& p2.zombie == p1.zombie
    &&& p2.exit_code == p1.exit_code
    &&& p2.tasks == p1.tasks
    &&& p2.mutex_slots == p1.mutex_slots
    &&& p2.sem_slots == p1.sem_slots
    &&& p2.condvar_slots == p1.condvar_slots
    &&& p2.deadlock_detect == p1.deadlock_detect
}

} // verus!
