//! Synchronization system calls: mutexes, semaphores, condition variables,
//! sleeping, and the deadlock-detector toggle.
use vstd::prelude::*;

use crate::kernel::{
    lemma_wf_after_proc_update, lemma_wf_after_task_update, lemma_wf_frame, only_proc_changed,
    only_task_changed, same_proc_outside_slots, Kernel,
};
use crate::process::{alloc_slot, lookup_slot, slot_allocated, slot_of};
use crate::sched::{block_current, pick_next, picked_rel, sleep_until, wake_first};
use crate::sync::{CondvarState, MutexState, SemState};
use crate::task::{
    bumped_alloc, grow_alloc, task_fields_eq_except_sem, Task, TaskRef, TaskStatus,
};

verus! {

/// `post` is `mid` after the idle processor took the next schedulable task,
/// if any was ready to run.
pub open spec fn scheduled_from(mid: Kernel, post: Kernel) -> bool {
    if mid.any_eligible() {
        exists|i: int, c: TaskRef| #[trigger] picked_rel(mid, post, i, c) && mid.is_pick(i)
    } else {
        post == mid
    }
}

/// Create a mutex — spinning when `blocking` is false, blocking otherwise —
/// in the first free slot of the calling process's mutex table, and return
/// the slot id.
pub fn sys_mutex_create(k: &mut Kernel, blocking: bool) -> (r: isize)
    requires
        old(k).wf(),
        old(k).has_current(),
        old(k).proc_at(old(k).cur_ref().pid as int).mutex_slots@.len() < isize::MAX as usize,
    ensures
        final(k).wf(),
        r >= 0,
        ({
            let pid = old(k).cur_ref().pid as int;
            let g = old(k).mutexes@.len() as int;
            let m = final(k).mutexes@[g];
            &&& final(k).mutexes@.len() == g + 1
            &&& final(k).mutexes@.subrange(0, g) == old(k).mutexes@
            &&& m.blocking == blocking
            &&& !m.locked
            &&& m.owner is None
            &&& m.waiters@ == Seq::<TaskRef>::empty()
            &&& only_proc_changed(*old(k), *final(k), pid)
            &&& same_proc_outside_slots(old(k).proc_at(pid), final(k).proc_at(pid))
            &&& final(k).proc_at(pid).sem_slots == old(k).proc_at(pid).sem_slots
            &&& final(k).proc_at(pid).condvar_slots == old(k).proc_at(pid).condvar_slots
            &&& slot_allocated(
                old(k).proc_at(pid).mutex_slots@,
                final(k).proc_at(pid).mutex_slots@,
                old(k).mutexes@.len() as usize,
                r as int,
            )
        }),
        final(k).sems == old(k).sems,
        final(k).condvars == old(k).condvars,
        final(k).ready == old(k).ready,
        final(k).sleeping == old(k).sleeping,
        final(k).current == old(k).current,
        final(k).time_us == old(k).time_us,
        final(k).apps == old(k).apps,
{
    let cur = match k.current {
        Some(c) => c,
        None => vstd::pervasive::unreached(),
    };
    let pid = cur.pid;
    let g = k.mutexes.len();
    k.mutexes.push(MutexState::new(blocking));
    let ghost k1 = *k;
    proof {
        lemma_wf_frame(*old(k), k1);
        assert(k1.mutexes@.subrange(0, g as int) =~= old(k).mutexes@);
    }
    let id = {
        let p = k.proc_mut(pid);
        alloc_slot(&mut p.mutex_slots, g)
    };
    proof {
        assert(k1.proc_ok(pid as int));
        crate::process::lemma_slots_in_bounds_alloc(
            k1.proc_at(pid as int).mutex_slots@,
            k.proc_at(pid as int).mutex_slots@,
            g,
            id as int,
            k.mutexes@.len() as int,
        );
        lemma_wf_after_proc_update(k1, *k, pid as int);
    }
    id as isize
}

/// Create a semaphore holding `res_count` units in the first free slot of
/// the calling process's semaphore table, and return the slot id.
pub fn sys_semaphore_create(k: &mut Kernel, res_count: usize) -> (r: isize)
    requires
        old(k).wf(),
        old(k).has_current(),
        old(k).proc_at(old(k).cur_ref().pid as int).sem_slots@.len() < isize::MAX as usize,
    ensures
        final(k).wf(),
        r >= 0,
        ({
            let pid = old(k).cur_ref().pid as int;
            let g = old(k).sems@.len() as int;
            let s = final(k).sems@[g];
            &&& final(k).sems@.len() == g + 1
            &&& final(k).sems@.subrange(0, g) == old(k).sems@
            &&& s.count == res_count
            &&& s.waiters@ == Seq::<TaskRef>::empty()
            &&& only_proc_changed(*old(k), *final(k), pid)
            &&& same_proc_outside_slots(old(k).proc_at(pid), final(k).proc_at(pid))
            &&& final(k).proc_at(pid).mutex_slots == old(k).proc_at(pid).mutex_slots
            &&& final(k).proc_at(pid).condvar_slots == old(k).proc_at(pid).condvar_slots
            &&& slot_allocated(
                old(k).proc_at(pid).sem_slots@,
                final(k).proc_at(pid).sem_slots@,
                old(k).sems@.len() as usize,
                r as int,
            )
        }),
        final(k).mutexes == old(k).mutexes,
        final(k).condvars == old(k).condvars,
        final(k).ready == old(k).ready,
        final(k).sleeping == old(k).sleeping,
        final(k).current == old(k).current,
        final(k).time_us == old(k).time_us,
        final(k).apps == old(k).apps,
{
    let cur = match k.current {
        Some(c) => c,
        None => vstd::pervasive::unreached(),
    };
    let pid = cur.pid;
    let g = k.sems.len();
    k.sems.push(SemState::new(res_count));
    let ghost k1 = *k;
    proof {
        lemma_wf_frame(*old(k), k1);
        assert(k1.sems@.subrange(0, g as int) =~= old(k).sems@);
    }
    let id = {
        let p = k.proc_mut(pid);
        alloc_slot(&mut p.sem_slots, g)
    };
    proof {
        assert(k1.proc_ok(pid as int));
        crate::process::lemma_slots_in_bounds_alloc(
            k1.proc_at(pid as int).sem_slots@,
            k.proc_at(pid as int).sem_slots@,
            g,
            id as int,
            k.sems@.len() as int,
        );
        let p1 = k1.proc_at(pid as int);
        let p2 = k.proc_at(pid as int);
        assert(p2.sem_slots@.len() >= p1.sem_slots@.len());
        assert forall|t: int| 0 <= t < p2.tasks@.len() && p2.tasks@[t] is Some implies (
        #[trigger] p2.tasks@[t].unwrap()).wf(
            t,
            p2.sem_slots@.len() as int,
            k.mutexes@.len() as int,
        ) by {
            assert(p1.tasks@[t].unwrap().wf(t, p1.sem_slots@.len() as int, k.mutexes@.len() as int));
        }
        lemma_wf_after_proc_update(k1, *k, pid as int);
    }
    id as isize
}

/// Create a condition variable in the first free slot of the calling
/// process's table, and return the slot id.
pub fn sys_condvar_create(k: &mut Kernel) -> (r: isize)
    requires
        old(k).wf(),
        old(k).has_current(),
        old(k).proc_at(old(k).cur_ref().pid as int).condvar_slots@.len() < isize::MAX as usize,
    ensures
        final(k).wf(),
        r >= 0,
        ({
            let pid = old(k).cur_ref().pid as int;
            let g = old(k).condvars@.len() as int;
            let c = final(k).condvars@[g];
            &&& final(k).condvars@.len() == g + 1
            &&& final(k).condvars@.subrange(0, g) == old(k).condvars@
            &&& c.waiters@ == Seq::<TaskRef>::empty()
            &&& only_proc_changed(*old(k), *final(k), pid)
            &&& same_proc_outside_slots(old(k).proc_at(pid), final(k).proc_at(pid))
            &&& final(k).proc_at(pid).mutex_slots == old(k).proc_at(pid).mutex_slots
            &&& final(k).proc_at(pid).sem_slots == old(k).proc_at(pid).sem_slots
            &&& slot_allocated(
                old(k).proc_at(pid).condvar_slots@,
                final(k).proc_at(pid).condvar_slots@,
                old(k).condvars@.len() as usize,
                r as int,
            )
        }),
        final(k).mutexes == old(k).mutexes,
        final(k).sems == old(k).sems,
        final(k).ready == old(k).ready,
        final(k).sleeping == old(k).sleeping,
        final(k).current == old(k).current,
        final(k).time_us == old(k).time_us,
        final(k).apps == old(k).apps,
{
    let cur = match k.current {
        Some(c) => c,
        None => vstd::pervasive::unreached(),
    };
    let pid = cur.pid;
    let g = k.condvars.len();
    k.condvars.push(CondvarState::new());
    let ghost k1 = *k;
    proof {
        lemma_wf_frame(*old(k), k1);
        assert(k1.condvars@.subrange(0, g as int) =~= old(k).condvars@);
    }
    let id = {
        let p = k.proc_mut(pid);
        alloc_slot(&mut p.condvar_slots, g)
    };
    proof {
        assert(k1.proc_ok(pid as int));
        crate::process::lemma_slots_in_bounds_alloc(
            k1.proc_at(pid as int).condvar_slots@,
            k.proc_at(pid as int).condvar_slots@,
            g,
            id as int,
            k.condvars@.len() as int,
        );
        lemma_wf_after_proc_update(k1, *k, pid as int);
    }
    id as isize
}

/// Turn the advisory deadlock detector on (any nonzero argument) or off for
/// the calling process.
pub fn sys_enable_deadlock_detect(k: &mut Kernel, enabled: usize) -> (r: isize)
    requires
        old(k).wf(),
        old(k).has_current(),
    ensures
        final(k).wf(),
        r == 0,
        ({
            let pid = old(k).cur_ref().pid as int;
            &&& only_proc_changed(*old(k), *final(k), pid)
            &&& final(k).proc_at(pid) == (crate::process::Process {
                deadlock_detect: enabled != 0,
                ..old(k).proc_at(pid)
            })
        }),
        final(k).mutexes == old(k).mutexes,
        final(k).sems == old(k).sems,
        final(k).condvars == old(k).condvars,
        final(k).ready == old(k).ready,
        final(k).sleeping == old(k).sleeping,
        final(k).current == old(k).current,
        final(k).time_us == old(k).time_us,
        final(k).apps == old(k).apps,
{
    let cur = match k.current {
        Some(c) => c,
        None => vstd::pervasive::unreached(),
    };
    let pid = cur.pid;
    {
        let p = k.proc_mut(pid);
        p.deadlock_detect = enabled != 0;
    }
    proof {
        assert(old(k).proc_ok(pid as int));
        lemma_wf_after_proc_update(*old(k), *k, pid as int);
    }
    0
}

/// The suspension a contended blocking mutex records: the caller joins the
/// lock's FIFO wait queue, blocks, and will yield 0 once woken.
pub open spec fn mutex_blocked_mid(pre: Kernel, mid: Kernel, g: int) -> bool {
    let cur = pre.cur_ref();
    let m = pre.mutexes@[g];
    &&& only_task_changed(pre, mid, cur)
    &&& mid.task_at(cur) == (Task { status: TaskStatus::Blocked, cx_ret: 0, ..pre.task_at(cur) })
    &&& mid.mutexes@.len() == pre.mutexes@.len()
    &&& (forall|j: int| 0 <= j < pre.mutexes@.len() && j != g ==> mid.mutexes@[j] == pre.mutexes@[j])
    &&& mid.mutexes@[g].blocking == m.blocking
    &&& mid.mutexes@[g].locked == m.locked
    &&& mid.mutexes@[g].owner == m.owner
    &&& mid.mutexes@[g].waiters@ == m.waiters@.push(cur)
    &&& mid.ready == pre.ready
    &&& mid.sleeping == pre.sleeping
    &&& mid.current is None
    &&& mid.sems == pre.sems
    &&& mid.condvars == pre.condvars
    &&& mid.time_us == pre.time_us
    &&& mid.apps == pre.apps
}

/// The suspension a contended spinning mutex records: the caller goes back
/// to the ready queue marked as busy-retrying the lock, and the scheduler
/// runs it again — claiming the lock for it — only once the lock is free.
pub open spec fn spin_retry_mid(pre: Kernel, mid: Kernel, g: int) -> bool {
    let cur = pre.cur_ref();
    &&& only_task_changed(pre, mid, cur)
    &&& mid.task_at(cur) == (Task {
        status: TaskStatus::Ready,
        retry_lock: Some(g as usize),
        cx_ret: 0,
        ..pre.task_at(cur)
    })
    &&& mid.ready@ == pre.ready@.push(cur)
    &&& mid.current is None
    &&& mid.mutexes == pre.mutexes
    &&& mid.sems == pre.sems
    &&& mid.condvars == pre.condvars
    &&& mid.sleeping == pre.sleeping
    &&& mid.time_us == pre.time_us
    &&& mid.apps == pre.apps
}

/// What releasing a held blocking mutex does: the longest-waiting waiter
/// that can still be woken takes the lock directly — no third task can
/// steal it in between — or, when no waiter remains, the lock is cleared.
pub open spec fn mutex_released(pre: Kernel, post: Kernel, g: int) -> bool {
    let m = pre.mutexes@[g];
    ||| ({
        &&& (forall|j: int| 0 <= j < m.waiters@.len() ==> !pre.wakeable(#[trigger] m.waiters@[j]))
        &&& post.procs == pre.procs
        &&& post.ready == pre.ready
        &&& post.mutexes@.len() == pre.mutexes@.len()
        &&& (forall|j: int|
            0 <= j < pre.mutexes@.len() && j != g ==> post.mutexes@[j] == pre.mutexes@[j])
        &&& post.mutexes@[g].blocking == m.blocking
        &&& !post.mutexes@[g].locked
        &&& post.mutexes@[g].owner is None
        &&& post.mutexes@[g].waiters@.len() == 0
        &&& post.sems == pre.sems
        &&& post.condvars == pre.condvars
        &&& post.sleeping == pre.sleeping
        &&& post.current == pre.current
        &&& post.time_us == pre.time_us
        &&& post.apps == pre.apps
    })
    ||| (exists|w: int|
        {
            let c = m.waiters@[w];
            &&& 0 <= w < m.waiters@.len()
            &&& pre.wakeable(#[trigger] m.waiters@[w])
            &&& (forall|j: int| 0 <= j < w ==> !pre.wakeable(#[trigger] m.waiters@[j]))
            &&& only_task_changed(pre, post, c)
            &&& post.task_at(c) == (Task { status: TaskStatus::Ready, cx_ret: 0, ..pre.task_at(c) })
            &&& post.ready@ == pre.ready@.push(c)
            &&& post.mutexes@.len() == pre.mutexes@.len()
            &&& (forall|j: int|
                0 <= j < pre.mutexes@.len() && j != g ==> post.mutexes@[j] == pre.mutexes@[j])
            &&& post.mutexes@[g].blocking == m.blocking
            &&& post.mutexes@[g].locked == m.locked
            &&& post.mutexes@[g].owner == Some(c)
            &&& post.mutexes@[g].waiters@ == m.waiters@.subrange(w + 1, m.waiters@.len() as int)
            &&& post.sems == pre.sems
            &&& post.condvars == pre.condvars
            &&& post.sleeping == pre.sleeping
            &&& post.current == pre.current
            &&& post.time_us == pre.time_us
            &&& post.apps == pre.apps
        })
}

/// What `unlock` does to the mutex in arena slot `g`, for either variant:
/// a lock nobody holds is left as it is, a spinning lock is cleared (its
/// contenders retry through the scheduler), and a blocking lock is handed
/// to the head waiter.
pub open spec fn mutex_unlock_rel(pre: Kernel, post: Kernel, g: int) -> bool {
    let m = pre.mutexes@[g];
    if !m.locked {
        post == pre
    } else if !m.blocking {
        &&& post.procs == pre.procs
        &&& post.ready == pre.ready
        &&& post.mutexes@ == pre.mutexes@.update(
            g,
            (MutexState { locked: false, owner: None, ..m }),
        )
        &&& post.sems == pre.sems
        &&& post.condvars == pre.condvars
        &&& post.sleeping == pre.sleeping
        &&& post.current == pre.current
        &&& post.time_us == pre.time_us
        &&& post.apps == pre.apps
    } else {
        mutex_released(pre, post, g)
    }
}

/// Acquire a mutex of the calling process, by slot id.  An unknown slot
/// yields the argument-error sentinel.  With deadlock detection enabled,
/// any attempt on an already-locked mutex is refused with the deadlock
/// sentinel instead of waiting.  Otherwise a free lock is claimed at once,
/// a held blocking lock parks the caller on its FIFO queue, and a held
/// spinning lock sends the caller back to the ready queue to busy-retry;
/// either way the call yields 0 once the lock is finally held.
pub fn sys_mutex_lock(k: &mut Kernel, mutex_id: usize) -> (r: isize)
    requires
        old(k).wf(),
        old(k).has_current(),
    ensures
        final(k).wf(),
        ({
            let pid = old(k).cur_ref().pid as int;
            let cur = old(k).cur_ref();
            match slot_of(old(k).proc_at(pid).mutex_slots@, mutex_id as int) {
                None => r == -1 && *final(k) == *old(k),
                Some(g) => {
                    let m = old(k).mutexes@[g as int];
                    if old(k).proc_at(pid).deadlock_detect && m.locked {
                        r == crate::DEADLOCK_SENTINEL && *final(k) == *old(k)
                    } else if !m.locked {
                        &&& r == 0
                        &&& final(k).mutexes@ == old(k).mutexes@.update(
                            g as int,
                            (MutexState { locked: true, owner: Some(cur), ..m }),
                        )
                        &&& final(k).procs == old(k).procs
                        &&& final(k).ready == old(k).ready
                        &&& final(k).sems == old(k).sems
                        &&& final(k).condvars == old(k).condvars
                        &&& final(k).sleeping == old(k).sleeping
                        &&& final(k).current == old(k).current
                        &&& final(k).time_us == old(k).time_us
                        &&& final(k).apps == old(k).apps
                    } else if m.blocking {
                        r == 0 && exists|mid: Kernel|
                            #[trigger] scheduled_from(mid, *final(k)) && mutex_blocked_mid(
                                *old(k),
                                mid,
                                g as int,
                            )
                    } else {
                        r == 0 && exists|mid: Kernel|
                            #[trigger] scheduled_from(mid, *final(k)) && spin_retry_mid(
                                *old(k),
                                mid,
                                g as int,
                            )
                    }
                },
            }
        }),
{
    let cur = match k.current {
        Some(c) => c,
        None => vstd::pervasive::unreached(),
    };
    let pid = cur.pid;
    let (g, detect) = {
        let p = k.proc_get(pid);
        (lookup_slot(&p.mutex_slots, mutex_id), p.deadlock_detect)
    };
    let g = match g {
        Some(g) => g,
        None => {
            return -1;
        },
    };
    proof {
        assert(old(k).proc_ok(pid as int));
        assert(old(k).proc_at(pid as int).mutex_slots@[mutex_id as int].unwrap() < old(
            k,
        ).mutexes@.len());
    }
    let locked = k.mutexes[g].locked;
    let blocking = k.mutexes[g].blocking;
    if detect && locked {
        return crate::DEADLOCK_SENTINEL;
    }
    if !locked {
        let mm = &mut k.mutexes[g];
        mm.locked = true;
        mm.owner = Some(cur);
        proof {
            lemma_wf_frame(*old(k), *k);
        }
        return 0;
    }
    if blocking {
        {
            let t = k.task_mut(cur);
            t.cx_ret = 0;
        }
        let ghost ka = *k;
        proof {
            old(k).lemma_task_wf(cur);
            lemma_wf_after_task_update(*old(k), ka, cur);
        }
        {
            let mm = &mut k.mutexes[g];
            mm.waiters.push(cur);
        }
        let ghost kb = *k;
        proof {
            lemma_wf_frame(ka, kb);
        }
        block_current(k);
        let ghost mid = *k;
        proof {
            let pidi = cur.pid as int;
            let tidi = cur.tid as int;
            assert(mid.proc_at(pidi).tasks@ =~= old(k).proc_at(pidi).tasks@.update(
                tidi,
                Some(mid.task_at(cur)),
            ));
            assert(mutex_blocked_mid(*old(k), mid, g as int));
        }
        pick_next(k);
        proof {
            assert(scheduled_from(mid, *k));
        }
        0
    } else {
        {
            let t = k.task_mut(cur);
            t.cx_ret = 0;
            t.retry_lock = Some(g);
            t.status = TaskStatus::Ready;
        }
        let ghost ka = *k;
        proof {
            old(k).lemma_task_wf(cur);
            lemma_wf_after_task_update(*old(k), ka, cur);
        }
        k.ready.push(cur);
        let ghost kb = *k;
        proof {
            lemma_wf_frame(ka, kb);
        }
        k.current = None;
        proof {
            lemma_wf_frame(kb, *k);
        }
        let ghost mid = *k;
        proof {
            let pidi = cur.pid as int;
            let tidi = cur.tid as int;
            assert(mid.proc_at(pidi).tasks@ =~= old(k).proc_at(pidi).tasks@.update(
                tidi,
                Some(mid.task_at(cur)),
            ));
            assert(spin_retry_mid(*old(k), mid, g as int));
        }
        pick_next(k);
        proof {
            assert(scheduled_from(mid, *k));
        }
        0
    }
}

/// Release a mutex of the calling process, by slot id.  An unknown slot
/// yields the argument-error sentinel; otherwise the call yields 0 and the
/// lock is released as [`mutex_unlock_rel`] describes.
pub fn sys_mutex_unlock(k: &mut Kernel, mutex_id: usize) -> (r: isize)
    requires
        old(k).wf(),
        old(k).has_current(),
    ensures
        final(k).wf(),
        ({
            let pid = old(k).cur_ref().pid as int;
            match slot_of(old(k).proc_at(pid).mutex_slots@, mutex_id as int) {
                None => r == -1 && *final(k) == *old(k),
                Some(g) => r == 0 && mutex_unlock_rel(*old(k), *final(k), g as int),
            }
        }),
{
    let cur = match k.current {
        Some(c) => c,
        None => vstd::pervasive::unreached(),
    };
    let pid = cur.pid;
    let g = {
        let p = k.proc_get(pid);
        lookup_slot(&p.mutex_slots, mutex_id)
    };
    let g = match g {
        Some(g) => g,
        None => {
            return -1;
        },
    };
    proof {
        assert(old(k).proc_ok(pid as int));
        assert(old(k).proc_at(pid as int).mutex_slots@[mutex_id as int].unwrap() < old(
            k,
        ).mutexes@.len());
    }
    let locked = k.mutexes[g].locked;
    let blocking = k.mutexes[g].blocking;
    if !locked {
        return 0;
    }
    if !blocking {
        let mm = &mut k.mutexes[g];
        mm.locked = false;
        mm.owner = None;
        proof {
            lemma_wf_frame(*old(k), *k);
        }
        return 0;
    }
    let mut q: Vec<TaskRef> = Vec::new();
    core::mem::swap(&mut q, &mut k.mutexes[g].waiters);
    let ghost ka = *k;
    proof {
        lemma_wf_frame(*old(k), ka);
    }
    let woken = wake_first(k, &mut q);
    let ghost kb = *k;
    core::mem::swap(&mut q, &mut k.mutexes[g].waiters);
    let ghost kc = *k;
    proof {
        lemma_wf_frame(kb, kc);
    }
    match woken {
        Some(c) => {
            let mm = &mut k.mutexes[g];
            mm.owner = Some(c);
            proof {
                lemma_wf_frame(kc, *k);
                assert(mutex_released(*old(k), *k, g as int));
            }
        },
        None => {
            let mm = &mut k.mutexes[g];
            mm.locked = false;
            mm.owner = None;
            proof {
                lemma_wf_frame(kc, *k);
                assert(mutex_released(*old(k), *k, g as int));
            }
        },
    }
    0
}

/// What `signal` does to the condition variable in arena slot `g`: the
/// longest-waiting waiter that can still be woken becomes Ready (its wait
/// yields 0), or nothing happens beyond dropping dead queue entries.
pub open spec fn condvar_signaled(pre: Kernel, post: Kernel, g: int) -> bool {
    let cv = pre.condvars@[g];
    ||| ({
        &&& (forall|j: int| 0 <= j < cv.waiters@.len() ==> !pre.wakeable(#[trigger] cv.waiters@[j]))
        &&& post.procs == pre.procs
        &&& post.ready == pre.ready
        &&& post.condvars@.len() == pre.condvars@.len()
        &&& (forall|j: int|
            0 <= j < pre.condvars@.len() && j != g ==> post.condvars@[j] == pre.condvars@[j])
        &&& post.condvars@[g].waiters@.len() == 0
        &&& post.mutexes == pre.mutexes
        &&& post.sems == pre.sems
        &&& post.sleeping == pre.sleeping
        &&& post.current == pre.current
        &&& post.time_us == pre.time_us
        &&& post.apps == pre.apps
    })
    ||| (exists|w: int|
        {
            let c = cv.waiters@[w];
            &&& 0 <= w < cv.waiters@.len()
            &&& pre.wakeable(#[trigger] cv.waiters@[w])
            &&& (forall|j: int| 0 <= j < w ==> !pre.wakeable(#[trigger] cv.waiters@[j]))
            &&& only_task_changed(pre, post, c)
            &&& post.task_at(c) == (Task { status: TaskStatus::Ready, cx_ret: 0, ..pre.task_at(c) })
            &&& post.ready@ == pre.ready@.push(c)
            &&& post.condvars@.len() == pre.condvars@.len()
            &&& (forall|j: int|
                0 <= j < pre.condvars@.len() && j != g ==> post.condvars@[j] == pre.condvars@[j])
            &&& post.condvars@[g].waiters@ == cv.waiters@.subrange(w + 1, cv.waiters@.len() as int)
            &&& post.mutexes == pre.mutexes
            &&& post.sems == pre.sems
            &&& post.sleeping == pre.sleeping
            &&& post.current == pre.current
            &&& post.time_us == pre.time_us
            &&& post.apps == pre.apps
        })
}

/// Wake one waiter of a condition variable of the calling process, by slot
/// id; a signal with no waiters does nothing.  An unknown slot yields the
/// argument-error sentinel.
pub fn sys_condvar_signal(k: &mut Kernel, condvar_id: usize) -> (r: isize)
    requires
        old(k).wf(),
        old(k).has_current(),
    ensures
        final(k).wf(),
        ({
            let pid = old(k).cur_ref().pid as int;
            match slot_of(old(k).proc_at(pid).condvar_slots@, condvar_id as int) {
                None => r == -1 && *final(k) == *old(k),
                Some(g) => r == 0 && condvar_signaled(*old(k), *final(k), g as int),
            }
        }),
{
    let cur = match k.current {
        Some(c) => c,
        None => vstd::pervasive::unreached(),
    };
    let pid = cur.pid;
    let g = {
        let p = k.proc_get(pid);
        lookup_slot(&p.condvar_slots, condvar_id)
    };
    let g = match g {
        Some(g) => g,
        None => {
            return -1;
        },
    };
    proof {
        assert(old(k).proc_ok(pid as int));
        assert(old(k).proc_at(pid as int).condvar_slots@[condvar_id as int].unwrap() < old(
            k,
        ).condvars@.len());
    }
    let mut q: Vec<TaskRef> = Vec::new();
    core::mem::swap(&mut q, &mut k.condvars[g].waiters);
    let ghost ka = *k;
    proof {
        lemma_wf_frame(*old(k), ka);
    }
    let woken = wake_first(k, &mut q);
    let ghost kb = *k;
    core::mem::swap(&mut q, &mut k.condvars[g].waiters);
    proof {
        lemma_wf_frame(kb, *k);
        assert(condvar_signaled(*old(k), *k, g as int));
    }
    0
}

/// The suspension a condition-variable wait records after the mutex is
/// released: the caller joins the condition variable's FIFO queue and
/// blocks; being woken does not reacquire the mutex.
pub open spec fn condvar_blocked_mid(pre: Kernel, mid: Kernel, g: int) -> bool {
    let cur = pre.cur_ref();
    let cv = pre.condvars@[g];
    &&& only_task_changed(pre, mid, cur)
    &&& mid.task_at(cur) == (Task { status: TaskStatus::Blocked, cx_ret: 0, ..pre.task_at(cur) })
    &&& mid.condvars@.len() == pre.condvars@.len()
    &&& (forall|j: int|
        0 <= j < pre.condvars@.len() && j != g ==> mid.condvars@[j] == pre.condvars@[j])
    &&& mid.condvars@[g].waiters@ == cv.waiters@.push(cur)
    &&& mid.ready == pre.ready
    &&& mid.sleeping == pre.sleeping
    &&& mid.current is None
    &&& mid.mutexes == pre.mutexes
    &&& mid.sems == pre.sems
    &&& mid.time_us == pre.time_us
    &&& mid.apps == pre.apps
}

/// Atomically release the given mutex and block the caller on the condition
/// variable's queue; the wait yields 0 once the task is signalled, and the
/// caller must re-lock the mutex itself if it needs it.  An unknown slot id
/// for either handle yields the argument-error sentinel with nothing
/// changed.
pub fn sys_condvar_wait(k: &mut Kernel, condvar_id: usize, mutex_id: usize) -> (r: isize)
    requires
        old(k).wf(),
        old(k).has_current(),
    ensures
        final(k).wf(),
        ({
            let pid = old(k).cur_ref().pid as int;
            match (
                slot_of(old(k).proc_at(pid).condvar_slots@, condvar_id as int),
                slot_of(old(k).proc_at(pid).mutex_slots@, mutex_id as int),
            ) {
                (Some(gc), Some(gm)) => r == 0 && exists|mid1: Kernel, mid2: Kernel|
                    {
                        &&& #[trigger] condvar_blocked_mid(mid1, mid2, gc as int)
                        &&& mutex_unlock_rel(*old(k), mid1, gm as int)
                        &&& scheduled_from(mid2, *final(k))
                    },
                _ => r == -1 && *final(k) == *old(k),
            }
        }),
{
    let cur = match k.current {
        Some(c) => c,
        None => vstd::pervasive::unreached(),
    };
    let pid = cur.pid;
    let (gc, gm) = {
        let p = k.proc_get(pid);
        (lookup_slot(&p.condvar_slots, condvar_id), lookup_slot(&p.mutex_slots, mutex_id))
    };
    let gc = match gc {
        Some(g) => g,
        None => {
            return -1;
        },
    };
    if gm.is_none() {
        return -1;
    }
    sys_mutex_unlock(k, mutex_id);
    let ghost mid1 = *k;
    proof {
        assert(old(k).proc_ok(pid as int));
        assert(old(k).proc_at(pid as int).condvar_slots@[condvar_id as int].unwrap() < old(
            k,
        ).condvars@.len());
        assert(mid1.has_current());
        assert(mid1.proc_at(pid as int).condvar_slots == old(k).proc_at(pid as int).condvar_slots);
    }
    {
        let t = k.task_mut(cur);
        t.cx_ret = 0;
    }
    let ghost ka = *k;
    proof {
        mid1.lemma_task_wf(cur);
        lemma_wf_after_task_update(mid1, ka, cur);
    }
    {
        let cc = &mut k.condvars[gc];
        cc.waiters.push(cur);
    }
    let ghost kb = *k;
    proof {
        lemma_wf_frame(ka, kb);
    }
    block_current(k);
    let ghost mid2 = *k;
    proof {
        assert(mid2.proc_at(pid as int).tasks@ =~= mid1.proc_at(pid as int).tasks@.update(
            cur.tid as int,
            Some(mid2.task_at(cur)),
        ));
        assert(condvar_blocked_mid(mid1, mid2, gc as int));
    }
    pick_next(k);
    proof {
        assert(scheduled_from(mid2, *k));
    }
    0
}

/// Raise a semaphore of the calling process, by slot id: record the unit on
/// the caller's allocation ledger (slot 0 is exempt), then either hand the
/// unit to the longest-waiting task — whose `down` then yields 0 and is
/// debited — or raise the count when nobody waits.  An unknown slot yields
/// the argument-error sentinel.
pub fn sys_semaphore_up(k: &mut Kernel, sem_id: usize) -> (r: isize)
    requires
        old(k).wf(),
        old(k).has_current(),
        old(k).up_headroom(old(k).cur_ref(), sem_id as int),
        ({
            let pid = old(k).cur_ref().pid as int;
            match slot_of(old(k).proc_at(pid).sem_slots@, sem_id as int) {
                Some(g) => old(k).sems@[g as int].count < usize::MAX && (forall|j: int|
                    0 <= j < old(k).sems@[g as int].waiters@.len() && old(k).valid_ref(
                        #[trigger] old(k).sems@[g as int].waiters@[j],
                    ) ==> old(k).down_headroom(
                        old(k).sems@[g as int].waiters@[j],
                        old(k).task_at(old(k).sems@[g as int].waiters@[j]).down_slot as int,
                    )),
                None => true,
            }
        }),
    ensures
        final(k).wf(),
        ({
            let pid = old(k).cur_ref().pid as int;
            let cur = old(k).cur_ref();
            match slot_of(old(k).proc_at(pid).sem_slots@, sem_id as int) {
                None => r == -1 && *final(k) == *old(k),
                Some(g) => r == 0 && exists|mid: Kernel|
                    {
                        &&& #[trigger] sem_up_booked(*old(k), mid, cur, sem_id as int)
                        &&& sem_wake_rel(mid, *final(k), g as int)
                    },
            }
        }),
{
    let cur = match k.current {
        Some(c) => c,
        None => vstd::pervasive::unreached(),
    };
    let pid = cur.pid;
    let g = {
        let p = k.proc_get(pid);
        lookup_slot(&p.sem_slots, sem_id)
    };
    let g = match g {
        Some(g) => g,
        None => {
            return -1;
        },
    };
    proof {
        assert(old(k).proc_ok(pid as int));
        assert(old(k).proc_at(pid as int).sem_slots@[sem_id as int].unwrap() < old(
            k,
        ).sems@.len());
        old(k).lemma_task_wf(cur);
    }
    if sem_id != 0 {
        let t = k.task_mut(cur);
        grow_alloc(&mut t.sem_allocated, sem_id);
        let v = t.sem_allocated[sem_id];
        t.sem_allocated.set(sem_id, v + 1);
    }
    let ghost mid = *k;
    proof {
        if sem_id != 0 {
            assert(mid.task_at(cur).sem_allocated@ =~= bumped_alloc(
                old(k).task_at(cur).sem_allocated@,
                sem_id as int,
                1,
            ));
            lemma_wf_after_task_update(*old(k), mid, cur);
        } else {
            assert(mid.proc_at(pid as int).tasks@ =~= mid.proc_at(pid as int).tasks@.update(
                cur.tid as int,
                Some(mid.task_at(cur)),
            ));
        }
        assert(sem_up_booked(*old(k), mid, cur, sem_id as int));
    }
    let mut q: Vec<TaskRef> = Vec::new();
    core::mem::swap(&mut q, &mut k.sems[g].waiters);
    let ghost ka = *k;
    proof {
        lemma_wf_frame(mid, ka);
    }
    let woken = wake_first(k, &mut q);
    let ghost kb = *k;
    core::mem::swap(&mut q, &mut k.sems[g].waiters);
    let ghost kc = *k;
    proof {
        lemma_wf_frame(kb, kc);
    }
    match woken {
        Some(c) => {
            proof {
                kc.lemma_task_wf(c);
                assert(mid.wakeable(c));
                assert(mid.down_headroom(c, mid.task_at(c).down_slot as int));
            }
            let slot = {
                let t = k.task_get(c);
                t.down_slot
            };
            let nslots = {
                let p = k.proc_get(c.pid);
                p.sem_slots.len()
            };
            if slot < nslots {
                let t = k.task_mut(c);
                t.sem_need = 0;
                grow_alloc(&mut t.sem_allocated, slot);
                let v = t.sem_allocated[slot];
                t.sem_allocated.set(slot, v - 1);
                proof {
                    lemma_wf_after_task_update(kc, *k, c);
                    assert(k.task_at(c).sem_allocated@ =~= bumped_alloc(
                        mid.task_at(c).sem_allocated@,
                        mid.task_at(c).down_slot as int,
                        -1,
                    ));
                }
            } else {
                let t = k.task_mut(c);
                t.sem_need = 0;
                proof {
                    lemma_wf_after_task_update(kc, *k, c);
                }
            }
            proof {
                assert(k.proc_at(c.pid as int).tasks@ =~= mid.proc_at(c.pid as int).tasks@.update(
                    c.tid as int,
                    Some(k.task_at(c)),
                ));
                assert(sem_wake_rel(mid, *k, g as int));
            }
        },
        None => {
            let ss = &mut k.sems[g];
            let c0 = ss.count;
            ss.count = c0 + 1;
            proof {
                lemma_wf_frame(kc, *k);
                assert(sem_wake_rel(mid, *k, g as int));
            }
        },
    }
    0
}

/// The allocation ledger entry an `up` on `slot` records for the caller:
/// one more unit contributed, with slot 0 exempt from the accounting.
pub open spec fn sem_up_booked(pre: Kernel, mid: Kernel, cur: TaskRef, slot: int) -> bool {
    &&& only_task_changed(pre, mid, cur)
    &&& task_fields_eq_except_sem(pre.task_at(cur), mid.task_at(cur))
    &&& mid.task_at(cur).sem_need == pre.task_at(cur).sem_need
    &&& mid.task_at(cur).sem_allocated@ == if slot != 0 {
        bumped_alloc(pre.task_at(cur).sem_allocated@, slot, 1)
    } else {
        pre.task_at(cur).sem_allocated@
    }
    &&& mid.mutexes == pre.mutexes
    &&& mid.sems == pre.sems
    &&& mid.condvars == pre.condvars
    &&& mid.ready == pre.ready
    &&& mid.sleeping == pre.sleeping
    &&& mid.current == pre.current
    &&& mid.time_us == pre.time_us
    &&& mid.apps == pre.apps
}

/// What the semaphore side of an `up` does: the longest-waiting task that
/// can still be woken receives the unit — it becomes Ready, its `down`
/// yields 0, its pending need is cleared, and its ledger is debited at the
/// slot it blocked with — or, with nobody to wake, the count rises by one.
pub open spec fn sem_wake_rel(mid: Kernel, post: Kernel, g: int) -> bool {
    let s = mid.sems@[g];
    ||| ({
        &&& (forall|j: int| 0 <= j < s.waiters@.len() ==> !mid.wakeable(#[trigger] s.waiters@[j]))
        &&& post.procs == mid.procs
        &&& post.ready == mid.ready
        &&& post.sems@.len() == mid.sems@.len()
        &&& (forall|j: int| 0 <= j < mid.sems@.len() && j != g ==> post.sems@[j] == mid.sems@[j])
        &&& post.sems@[g].count == s.count + 1
        &&& post.sems@[g].waiters@.len() == 0
        &&& post.mutexes == mid.mutexes
        &&& post.condvars == mid.condvars
        &&& post.sleeping == mid.sleeping
        &&& post.current == mid.current
        &&& post.time_us == mid.time_us
        &&& post.apps == mid.apps
    })
    ||| (exists|w: int|
        {
            let c = s.waiters@[w];
            &&& 0 <= w < s.waiters@.len()
            &&& mid.wakeable(#[trigger] s.waiters@[w])
            &&& (forall|j: int| 0 <= j < w ==> !mid.wakeable(#[trigger] s.waiters@[j]))
            &&& only_task_changed(mid, post, c)
            &&& task_fields_eq_except_sem(
                (Task { status: TaskStatus::Ready, cx_ret: 0, ..mid.task_at(c) }),
                post.task_at(c),
            )
            &&& post.task_at(c).status == TaskStatus::Ready
            &&& post.task_at(c).cx_ret == 0
            &&& post.task_at(c).sem_need == 0
            &&& post.task_at(c).sem_allocated@ == if (mid.task_at(c).down_slot as int)
                < mid.proc_at(c.pid as int).sem_slots@.len() {
                bumped_alloc(mid.task_at(c).sem_allocated@, mid.task_at(c).down_slot as int, -1)
            } else {
                mid.task_at(c).sem_allocated@
            }
            &&& post.ready@ == mid.ready@.push(c)
            &&& post.sems@.len() == mid.sems@.len()
            &&& (forall|j: int| 0 <= j < mid.sems@.len() && j != g ==> post.sems@[j] == mid.sems@[j])
            &&& post.sems@[g].count == s.count
            &&& post.sems@[g].waiters@ == s.waiters@.subrange(w + 1, s.waiters@.len() as int)
            &&& post.mutexes == mid.mutexes
            &&& post.condvars == mid.condvars
            &&& post.sleeping == mid.sleeping
            &&& post.current == mid.current
            &&& post.time_us == mid.time_us
            &&& post.apps == mid.apps
        })
}

impl Kernel {
    /// The deadlock detector's availability vector for one process: the
    /// current count of every live semaphore slot, zero for empty slots.
    pub open spec fn sem_avail(self, pid: int) -> Seq<int> {
        Seq::new(
            self.proc_at(pid).sem_slots@.len(),
            |j: int|
                match self.proc_at(pid).sem_slots@[j] {
                    Some(g) => self.sems@[g as int].count as int,
                    None => 0,
                },
        )
    }
}

/// Snapshot the availability vector of the calling process's semaphores.
fn sem_avail_snapshot(k: &Kernel, pid: usize) -> (avail: Vec<i128>)
    requires
        k.wf(),
        k.has_proc(pid as int),
    ensures
        crate::deadlock::widened(avail@) == k.sem_avail(pid as int),
        avail@.len() == k.proc_at(pid as int).sem_slots@.len(),
        forall|j: int| 0 <= j < avail@.len() ==> 0 <= #[trigger] avail@[j] <= usize::MAX,
{
    let p = k.proc_get(pid);
    let ns = p.sem_slots.len();
    let mut avail: Vec<i128> = Vec::new();
    let mut j: usize = 0;
    while j < ns
        invariant
            j <= ns,
            ns == p.sem_slots@.len(),
            k.wf(),
            k.has_proc(pid as int),
            *p == k.proc_at(pid as int),
            avail@.len() == j,
            forall|j2: int| 0 <= j2 < j ==> #[trigger] avail@[j2] == k.sem_avail(pid as int)[j2],
            forall|j2: int| 0 <= j2 < j ==> 0 <= #[trigger] avail@[j2] <= usize::MAX,
        decreases ns - j,
    {
        match lookup_slot(&p.sem_slots, j) {
            Some(g) => {
                proof {
                    assert(k.proc_ok(pid as int));
                    assert(k.proc_at(pid as int).sem_slots@[j as int].unwrap() < k.sems@.len());
                }
                avail.push(k.sems[g].count as i128);
            },
            None => {
                avail.push(0);
            },
        }
        j = j + 1;
    }
    proof {
        assert(crate::deadlock::widened(avail@) =~= k.sem_avail(pid as int));
    }
    avail
}

/// The ledger entry a detector-guarded `down` records before the safety
/// test: the caller's pending need is set to the requested slot and its
/// ledger is extended to cover that slot.
pub open spec fn need_booked(pre: Kernel, mid: Kernel, slot: int) -> bool {
    let cur = pre.cur_ref();
    &&& only_task_changed(pre, mid, cur)
    &&& task_fields_eq_except_sem(pre.task_at(cur), mid.task_at(cur))
    &&& mid.task_at(cur).sem_need == slot
    &&& mid.task_at(cur).sem_allocated@ == crate::task::grown_alloc(
        pre.task_at(cur).sem_allocated@,
        slot,
    )
    &&& mid.mutexes == pre.mutexes
    &&& mid.sems == pre.sems
    &&& mid.condvars == pre.condvars
    &&& mid.ready == pre.ready
    &&& mid.sleeping == pre.sleeping
    &&& mid.current == pre.current
    &&& mid.time_us == pre.time_us
    &&& mid.apps == pre.apps
}

/// The suspension a `down` on an exhausted semaphore records: the caller
/// joins the FIFO wait queue with the slot it blocked on noted, and blocks.
pub open spec fn sem_blocked_mid(pre: Kernel, mid: Kernel, g: int, slot: int) -> bool {
    let cur = pre.cur_ref();
    let s = pre.sems@[g];
    &&& only_task_changed(pre, mid, cur)
    &&& mid.task_at(cur) == (Task {
        status: TaskStatus::Blocked,
        cx_ret: 0,
        down_slot: slot as usize,
        ..pre.task_at(cur)
    })
    &&& mid.sems@.len() == pre.sems@.len()
    &&& (forall|j: int| 0 <= j < pre.sems@.len() && j != g ==> mid.sems@[j] == pre.sems@[j])
    &&& mid.sems@[g].count == s.count
    &&& mid.sems@[g].waiters@ == s.waiters@.push(cur)
    &&& mid.ready == pre.ready
    &&& mid.sleeping == pre.sleeping
    &&& mid.current is None
    &&& mid.mutexes == pre.mutexes
    &&& mid.condvars == pre.condvars
    &&& mid.time_us == pre.time_us
    &&& mid.apps == pre.apps
}

/// What a `down` that was not refused does to semaphore `g`: a positive
/// count is taken at once — clearing the caller's pending need and debiting
/// its ledger — and an exhausted one parks the caller on the wait queue,
/// where a later `up` settles the same bookkeeping.
pub open spec fn down_proceed(pre: Kernel, post: Kernel, g: int, slot: int) -> bool {
    let cur = pre.cur_ref();
    let s = pre.sems@[g];
    if s.count > 0 {
        &&& only_task_changed(pre, post, cur)
        &&& task_fields_eq_except_sem(pre.task_at(cur), post.task_at(cur))
        &&& post.task_at(cur).sem_need == 0
        &&& post.task_at(cur).sem_allocated@ == bumped_alloc(
            pre.task_at(cur).sem_allocated@,
            slot,
            -1,
        )
        &&& post.sems@.len() == pre.sems@.len()
        &&& (forall|j: int| 0 <= j < pre.sems@.len() && j != g ==> post.sems@[j] == pre.sems@[j])
        &&& post.sems@[g].count == s.count - 1
        &&& post.sems@[g].waiters == s.waiters
        &&& post.ready == pre.ready
        &&& post.sleeping == pre.sleeping
        &&& post.current == pre.current
        &&& post.mutexes == pre.mutexes
        &&& post.condvars == pre.condvars
        &&& post.time_us == pre.time_us
        &&& post.apps == pre.apps
    } else {
        exists|mid: Kernel|
            #[trigger] sem_blocked_mid(pre, mid, g, slot) && scheduled_from(mid, post)
    }
}

/// Take one unit of a semaphore of the calling process, by slot id.  An
/// unknown slot yields the argument-error sentinel.  With deadlock detection
/// enabled — and outside the exempt slot 0 — the caller's pending need is
/// recorded and the Banker's-style safety simulation runs first: an unsafe
/// state is refused at once with the deadlock sentinel and the caller does
/// not block.  Otherwise the call yields 0, immediately when units remain
/// and after waiting on the FIFO queue when none do.
pub fn sys_semaphore_down(k: &mut Kernel, sem_id: usize) -> (r: isize)
    requires
        old(k).wf(),
        old(k).has_current(),
        old(k).down_headroom(old(k).cur_ref(), sem_id as int),
    ensures
        final(k).wf(),
        ({
            let pid = old(k).cur_ref().pid as int;
            match slot_of(old(k).proc_at(pid).sem_slots@, sem_id as int) {
                None => r == -1 && *final(k) == *old(k),
                Some(g) => {
                    if old(k).proc_at(pid).deadlock_detect && sem_id != 0 {
                        exists|mid: Kernel|
                            #[trigger] need_booked(*old(k), mid, sem_id as int) && (if !crate::deadlock::banker_safe_spec(
                                mid.proc_at(pid).tasks@,
                                mid.sem_avail(pid),
                            ) {
                                r == crate::DEADLOCK_SENTINEL && *final(k) == mid
                            } else {
                                r == 0 && down_proceed(mid, *final(k), g as int, sem_id as int)
                            })
                    } else {
                        r == 0 && down_proceed(*old(k), *final(k), g as int, sem_id as int)
                    }
                },
            }
        }),
{
    let cur = match k.current {
        Some(c) => c,
        None => vstd::pervasive::unreached(),
    };
    let pid = cur.pid;
    let (g, detect) = {
        let p = k.proc_get(pid);
        (lookup_slot(&p.sem_slots, sem_id), p.deadlock_detect)
    };
    let g = match g {
        Some(g) => g,
        None => {
            return -1;
        },
    };
    proof {
        assert(old(k).proc_ok(pid as int));
        assert(old(k).proc_at(pid as int).sem_slots@[sem_id as int].unwrap() < old(
            k,
        ).sems@.len());
        old(k).lemma_task_wf(cur);
    }
    if detect && sem_id != 0 {
        {
            let t = k.task_mut(cur);
            t.sem_need = sem_id;
            grow_alloc(&mut t.sem_allocated, sem_id);
        }
        proof {
            lemma_wf_after_task_update(*old(k), *k, cur);
            assert(need_booked(*old(k), *k, sem_id as int));
        }
        let avail = sem_avail_snapshot(k, pid);
        let safe = {
            let p = k.proc_get(pid);
            proof {
                assert(k.proc_ok(pid as int));
                assert forall|t: int|
                    0 <= t < p.tasks@.len() && p.tasks@[t] is Some implies ((
                #[trigger] p.tasks@[t].unwrap()).sem_allocated@.len() <= avail@.len() && (
                p.tasks@[t].unwrap().sem_need == 0 || p.tasks@[t].unwrap().sem_need
                    < avail@.len())) by {
                    assert(p.tasks@[t].unwrap().wf(
                        t,
                        p.sem_slots@.len() as int,
                        k.mutexes@.len() as int,
                    ));
                }
            }
            crate::deadlock::banker_safe(&p.tasks, &avail)
        };
        if !safe {
            return crate::DEADLOCK_SENTINEL;
        }
    }
    let ghost kmid = *k;
    let count = k.sems[g].count;
    if count > 0 {
        {
            let ss = &mut k.sems[g];
            ss.count = count - 1;
        }
        let ghost ka = *k;
        proof {
            lemma_wf_frame(kmid, ka);
        }
        {
            let t = k.task_mut(cur);
            t.sem_need = 0;
            grow_alloc(&mut t.sem_allocated, sem_id);
            let v = t.sem_allocated[sem_id];
            t.sem_allocated.set(sem_id, v - 1);
        }
        proof {
            ka.lemma_task_wf(cur);
            lemma_wf_after_task_update(ka, *k, cur);
            assert(k.task_at(cur).sem_allocated@ =~= bumped_alloc(
                kmid.task_at(cur).sem_allocated@,
                sem_id as int,
                -1,
            ));
            assert(down_proceed(kmid, *k, g as int, sem_id as int));
        }
        0
    } else {
        {
            let t = k.task_mut(cur);
            t.cx_ret = 0;
            t.down_slot = sem_id;
        }
        let ghost ka = *k;
        proof {
            kmid.lemma_task_wf(cur);
            lemma_wf_after_task_update(kmid, ka, cur);
        }
        {
            let ss = &mut k.sems[g];
            ss.waiters.push(cur);
        }
        let ghost kb = *k;
        proof {
            lemma_wf_frame(ka, kb);
        }
        block_current(k);
        let ghost mid2 = *k;
        proof {
            assert(mid2.proc_at(pid as int).tasks@ =~= kmid.proc_at(pid as int).tasks@.update(
                cur.tid as int,
                Some(mid2.task_at(cur)),
            ));
            assert(sem_blocked_mid(kmid, mid2, g as int, sem_id as int));
        }
        pick_next(k);
        proof {
            assert(scheduled_from(mid2, *k));
        }
        0
    }
}

/// Put the calling task to sleep for `ms` milliseconds of kernel time and
/// run the next ready task; the timer wakes the sleeper, whose call then
/// yields 0.
pub fn sys_sleep(k: &mut Kernel, ms: usize) -> (r: isize)
    requires
        old(k).wf(),
        old(k).has_current(),
        old(k).time_us as int / 1000 + ms <= usize::MAX,
    ensures
        final(k).wf(),
        r == 0,
        exists|mid: Kernel|
            {
                let cur = old(k).cur_ref();
                &&& #[trigger] scheduled_from(mid, *final(k))
                &&& only_task_changed(*old(k), mid, cur)
                &&& mid.task_at(cur) == (Task {
                    status: TaskStatus::Blocked,
                    ..old(k).task_at(cur)
                })
                &&& mid.sleeping@ == old(k).sleeping@.push(
                    crate::kernel::SleepEntry {
                        deadline_ms: (old(k).time_us / 1000 + ms) as usize,
                        task: cur,
                    },
                )
                &&& mid.current is None
                &&& mid.ready == old(k).ready
                &&& mid.mutexes == old(k).mutexes
                &&& mid.sems == old(k).sems
                &&& mid.condvars == old(k).condvars
                &&& mid.time_us == old(k).time_us
                &&& mid.apps == old(k).apps
            },
{
    let now_ms = k.time_us / 1000;
    let expire_ms = now_ms + ms;
    sleep_until(k, expire_ms);
    let ghost mid = *k;
    pick_next(k);
    proof {
        assert(only_task_changed(*old(k), mid, old(k).cur_ref()));
        assert(scheduled_from(mid, *k));
    }
    0
}

} // verus!
