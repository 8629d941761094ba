//! The cooperative scheduler: a single ready queue picked by stride, the
//! blocked and sleeping sets, and the wake rules.
use vstd::prelude::*;

use crate::kernel::{
    lemma_wf_after_task_update, lemma_wf_frame, only_task_changed, Kernel, SleepEntry,
};
use crate::sync::MutexState;
use crate::task::{Task, TaskRef, TaskStatus};
use crate::BIG_STRIDE;

verus! {

/// The pass value of a task after it has been picked to run: one stride
/// step further, where a step is `BIG_STRIDE / priority` (capped at the top
/// of the counter, which no real schedule reaches).
pub open spec fn sched_bump(pass: u64, priority: usize) -> u64 {
    let step = BIG_STRIDE as int / priority as int;
    if pass + step > u64::MAX {
        u64::MAX
    } else {
        (pass + step) as u64
    }
}

impl Kernel {
    /// Some ready-queue entry may run now.
    pub open spec fn any_eligible(self) -> bool {
        exists|j: int| 0 <= j < self.ready@.len() && self.eligible(#[trigger] self.ready@[j])
    }

    /// Ready-queue position `i` is the scheduler's choice: the first entry
    /// that may run now and whose pass value is minimal among those.
    pub open spec fn is_pick(self, i: int) -> bool {
        let q = self.ready@;
        &&& 0 <= i < q.len()
        &&& self.eligible(q[i])
        &&& (forall|j: int|
            0 <= j < q.len() && self.eligible(#[trigger] q[j]) ==> self.task_at(q[i]).pass
                <= self.task_at(q[j]).pass)
        &&& (forall|j: int|
            0 <= j < i && self.eligible(#[trigger] q[j]) ==> self.task_at(q[j]).pass
                > self.task_at(q[i]).pass)
    }
}

/// How picking ready-queue position `i` (holding task `c`) turns `pre` into
/// `post`: the entry leaves the queue and becomes current, its task runs
/// with its pass advanced, and a busy-retried spinning mutex is finally
/// claimed.
pub open spec fn picked_rel(pre: Kernel, post: Kernel, i: int, c: TaskRef) -> bool {
    let t1 = pre.task_at(c);
    &&& 0 <= i < pre.ready@.len()
    &&& c == pre.ready@[i]
    &&& post.ready@ == pre.ready@.remove(i)
    &&& post.current == Some(c)
    &&& only_task_changed(pre, post, c)
    &&& post.task_at(c) == (Task {
        status: TaskStatus::Running,
        pass: sched_bump(t1.pass, t1.priority),
        retry_lock: None,
        ..t1
    })
    &&& (match t1.retry_lock {
        None => post.mutexes == pre.mutexes,
        Some(m) => post.mutexes@ == pre.mutexes@.update(
            m as int,
            (MutexState { locked: true, owner: Some(c), ..pre.mutexes@[m as int] }),
        ),
    })
    &&& post.sems == pre.sems
    &&& post.condvars == pre.condvars
    &&& post.sleeping == pre.sleeping
    &&& post.time_us == pre.time_us
    &&& post.apps == pre.apps
}

/// Mark a task Ready and put it at the back of the ready queue.
pub fn enqueue_ready(k: &mut Kernel, r: TaskRef)
    requires
        old(k).wf(),
        old(k).valid_ref(r),
    ensures
        final(k).wf(),
        only_task_changed(*old(k), *final(k), r),
        final(k).task_at(r) == (Task { status: TaskStatus::Ready, ..old(k).task_at(r) }),
        final(k).ready@ == old(k).ready@.push(r),
        final(k).mutexes == old(k).mutexes,
        final(k).sems == old(k).sems,
        final(k).condvars == old(k).condvars,
        final(k).sleeping == old(k).sleeping,
        final(k).current == old(k).current,
        final(k).time_us == old(k).time_us,
        final(k).apps == old(k).apps,
{
    let t = k.task_mut(r);
    t.status = TaskStatus::Ready;
    let ghost k1 = *k;
    proof {
        old(k).lemma_task_wf(r);
        lemma_wf_after_task_update(*old(k), k1, r);
    }
    k.ready.push(r);
    proof {
        lemma_wf_frame(k1, *k);
    }
}

/// Move the running task to Blocked and leave the processor idle; the
/// caller is responsible for queueing the task where its wake will come
/// from and for scheduling the next task.
pub fn block_current(k: &mut Kernel)
    requires
        old(k).wf(),
        old(k).has_current(),
    ensures
        final(k).wf(),
        only_task_changed(*old(k), *final(k), old(k).cur_ref()),
        final(k).task_at(old(k).cur_ref()) == (Task {
            status: TaskStatus::Blocked,
            ..old(k).task_at(old(k).cur_ref())
        }),
        final(k).current is None,
        final(k).ready == old(k).ready,
        final(k).mutexes == old(k).mutexes,
        final(k).sems == old(k).sems,
        final(k).condvars == old(k).condvars,
        final(k).sleeping == old(k).sleeping,
        final(k).time_us == old(k).time_us,
        final(k).apps == old(k).apps,
{
    let r = match k.current {
        Some(r) => r,
        None => vstd::pervasive::unreached(),
    };
    let t = k.task_mut(r);
    t.status = TaskStatus::Blocked;
    let ghost k1 = *k;
    proof {
        old(k).lemma_task_wf(r);
        lemma_wf_after_task_update(*old(k), k1, r);
    }
    k.current = None;
    proof {
        lemma_wf_frame(k1, *k);
    }
}

/// Register the running task on the sleep list with the given deadline and
/// block it; the timer will move it back to Ready once the deadline has
/// passed.
pub fn sleep_until(k: &mut Kernel, deadline_ms: usize)
    requires
        old(k).wf(),
        old(k).has_current(),
    ensures
        final(k).wf(),
        only_task_changed(*old(k), *final(k), old(k).cur_ref()),
        final(k).task_at(old(k).cur_ref()) == (Task {
            status: TaskStatus::Blocked,
            ..old(k).task_at(old(k).cur_ref())
        }),
        final(k).current is None,
        final(k).sleeping@ == old(k).sleeping@.push(
            SleepEntry { deadline_ms, task: old(k).cur_ref() },
        ),
        final(k).ready == old(k).ready,
        final(k).mutexes == old(k).mutexes,
        final(k).sems == old(k).sems,
        final(k).condvars == old(k).condvars,
        final(k).time_us == old(k).time_us,
        final(k).apps == old(k).apps,
{
    let r = match k.current {
        Some(r) => r,
        None => vstd::pervasive::unreached(),
    };
    k.sleeping.push(SleepEntry { deadline_ms, task: r });
    let ghost k1 = *k;
    proof {
        lemma_wf_frame(*old(k), k1);
    }
    block_current(k);
}

/// Pick the next task to run: the first eligible ready-queue entry with the
/// smallest pass value.  Returns nothing — and changes nothing — when no
/// entry may run (the processor idles).
#[verifier::loop_isolation(false)]
pub fn pick_next(k: &mut Kernel) -> (r: Option<TaskRef>)
    requires
        old(k).wf(),
        old(k).current is None,
    ensures
        final(k).wf(),
        (r is Some) == old(k).any_eligible(),
        r is None ==> *final(k) == *old(k),
        r matches Some(c) ==> exists|i: int|
            #[trigger] old(k).is_pick(i) && picked_rel(*old(k), *final(k), i, c),
{
    let n = k.ready.len();
    let mut best: Option<usize> = None;
    let mut i: usize = 0;
    while i < n
        invariant
            i <= n,
            n == k.ready@.len(),
            *k == *old(k),
            k.wf(),
            match best {
                None => forall|j: int| 0 <= j < i ==> !k.eligible(#[trigger] k.ready@[j]),
                Some(b) => {
                    &&& b < i
                    &&& k.eligible(k.ready@[b as int])
                    &&& (forall|j: int|
                        0 <= j < i && k.eligible(#[trigger] k.ready@[j]) ==> k.task_at(
                            k.ready@[b as int],
                        ).pass <= k.task_at(k.ready@[j]).pass)
                    &&& (forall|j: int|
                        0 <= j < b && k.eligible(#[trigger] k.ready@[j]) ==> k.task_at(
                            k.ready@[j],
                        ).pass > k.task_at(k.ready@[b as int]).pass)
                },
            },
        decreases n - i,
    {
        let cand = k.ready[i];
        if k.ref_valid(cand) && k.eligible_now(cand) {
            let cand_pass = k.task_get(cand).pass;
            match best {
                None => {
                    best = Some(i);
                },
                Some(b) => {
                    let best_pass = k.task_get(k.ready[b]).pass;
                    if cand_pass < best_pass {
                        best = Some(i);
                    }
                },
            }
        }
        i = i + 1;
    }
    let b = match best {
        None => {
            return None;
        },
        Some(b) => b,
    };
    let c = k.ready[b];
    let (pass, prio, retry) = {
        let t = k.task_get(c);
        (t.pass, t.priority, t.retry_lock)
    };
    proof {
        assert(old(k).proc_ok(c.pid as int));
        assert(old(k).task_at(c).wf(
            c.tid as int,
            old(k).proc_at(c.pid as int).sem_slots@.len() as int,
            old(k).mutexes@.len() as int,
        ));
    }
    let step = BIG_STRIDE / (prio as u64);
    let new_pass = if pass > u64::MAX - step {
        u64::MAX
    } else {
        pass + step
    };
    {
        let t = k.task_mut(c);
        t.status = TaskStatus::Running;
        t.pass = new_pass;
        t.retry_lock = None;
    }
    let ghost k1 = *k;
    proof {
        lemma_wf_after_task_update(*old(k), k1, c);
    }
    match retry {
        Some(m) => {
            let mm = &mut k.mutexes[m];
            mm.locked = true;
            mm.owner = Some(c);
        },
        None => {},
    }
    let ghost k2 = *k;
    proof {
        lemma_wf_frame(k1, k2);
    }
    k.ready.remove(b);
    k.current = Some(c);
    proof {
        old(k).ready@.remove_ensures(b as int);
        lemma_wf_frame(k2, *k);
        assert(old(k).is_pick(b as int));
        assert(picked_rel(*old(k), *k, b as int, c));
    }
    Some(c)
}

/// Pop entries off a wait queue until one names a task that can still be
/// woken; wake that task (it returns 0 from its suspended call) and put it
/// on the ready queue.  Entries of torn-down tasks are dropped, never
/// rescheduled.  Returns nothing when the queue runs out.
#[verifier::loop_isolation(false)]
pub fn wake_first(k: &mut Kernel, q: &mut Vec<TaskRef>) -> (res: Option<TaskRef>)
    requires
        old(k).wf(),
    ensures
        final(k).wf(),
        match res {
            None => {
                &&& final(q)@.len() == 0
                &&& *final(k) == *old(k)
                &&& (forall|j: int|
                    0 <= j < old(q)@.len() ==> !old(k).wakeable(#[trigger] old(q)@[j]))
            },
            Some(c) => exists|w: int|
                {
                    &&& 0 <= w < old(q)@.len()
                    &&& c == old(q)@[w]
                    &&& old(k).wakeable(c)
                    &&& (forall|j: int| 0 <= j < w ==> !old(k).wakeable(#[trigger] old(q)@[j]))
                    &&& final(q)@ == old(q)@.subrange(w + 1, old(q)@.len() as int)
                    &&& only_task_changed(*old(k), *final(k), c)
                    &&& final(k).task_at(c) == (Task {
                        status: TaskStatus::Ready,
                        cx_ret: 0,
                        ..old(k).task_at(c)
                    })
                    &&& final(k).ready@ == old(k).ready@.push(c)
                    &&& final(k).mutexes == old(k).mutexes
                    &&& final(k).sems == old(k).sems
                    &&& final(k).condvars == old(k).condvars
                    &&& final(k).sleeping == old(k).sleeping
                    &&& final(k).current == old(k).current
                    &&& final(k).time_us == old(k).time_us
                    &&& final(k).apps == old(k).apps
                },
        },
{
    let ghost q0 = q@;
    loop
        invariant
            *k == *old(k),
            k.wf(),
            q@.len() <= q0.len(),
            q@ == q0.subrange(q0.len() - q@.len(), q0.len() as int),
            forall|j: int| 0 <= j < q0.len() - q@.len() ==> !k.wakeable(#[trigger] q0[j]),
        decreases q@.len(),
    {
        if q.len() == 0 {
            return None;
        }
        let ghost w = q0.len() - q@.len();
        let r = q.remove(0);
        proof {
            assert(r == q0[w]);
            assert(q@ =~= q0.subrange(q0.len() - q@.len(), q0.len() as int));
        }
        if k.ref_valid(r) {
            let blocked = {
                let t = k.task_get(r);
                t.status == TaskStatus::Blocked
            };
            if blocked {
                {
                    let t = k.task_mut(r);
                    t.status = TaskStatus::Ready;
                    t.cx_ret = 0;
                }
                let ghost k1 = *k;
                proof {
                    old(k).lemma_task_wf(r);
                    lemma_wf_after_task_update(*old(k), k1, r);
                }
                k.ready.push(r);
                proof {
                    lemma_wf_frame(k1, *k);
                    assert(q@ == q0.subrange(w + 1, q0.len() as int));
                }
                return Some(r);
            }
        }
    }
}

/// Whether one of the first `upto` sleep entries names task `x` and has a
/// deadline at or before `now_ms`.
pub open spec fn names_expired(entries: Seq<SleepEntry>, upto: int, now_ms: int, x: TaskRef) -> bool {
    exists|j: int|
        0 <= j < upto && (#[trigger] entries[j]).task == x && entries[j].deadline_ms <= now_ms
}

/// A task named by one of the first `a` entries is named by one of the
/// first `b` whenever `a <= b`.
proof fn lemma_names_expired_mono(
    entries: Seq<SleepEntry>,
    a: int,
    b: int,
    now_ms: int,
    t: TaskRef,
)
    requires
        a <= b,
        names_expired(entries, a, now_ms, t),
    ensures
        names_expired(entries, b, now_ms, t),
{
    let j = choose|j: int|
        0 <= j < a && (#[trigger] entries[j]).task == t && entries[j].deadline_ms <= now_ms;
    assert(0 <= j < b && entries[j].task == t && entries[j].deadline_ms <= now_ms);
}

/// Filtering a sequence grown by one entry keeps the filtered prefix and
/// appends the new entry exactly when it satisfies the predicate.
pub proof fn lemma_filter_push<A>(s: Seq<A>, e: A, pred: spec_fn(A) -> bool)
    ensures
        pred(e) ==> s.push(e).filter(pred) == s.filter(pred).push(e),
        !pred(e) ==> s.push(e).filter(pred) == s.filter(pred),
{
    reveal(Seq::filter);
    assert(s.push(e).drop_last() =~= s);
    assert(s.push(e).last() == e);
    assert(s.push(e).filter(pred) == if pred(e) {
        s.push(e).drop_last().filter(pred).push(e)
    } else {
        s.push(e).drop_last().filter(pred)
    });
}

/// Advance the kernel clock and move every sleeper whose deadline has
/// passed back to the ready queue; sleepers of torn-down tasks are dropped.
#[verifier::loop_isolation(false)]
pub fn timer_tick(k: &mut Kernel, now_us: usize)
    requires
        old(k).wf(),
        now_us >= old(k).time_us,
    ensures
        final(k).wf(),
        final(k).time_us == now_us,
        final(k).sleeping@ == old(k).sleeping@.filter(
            |e: SleepEntry| e.deadline_ms as int > now_us as int / 1000,
        ),
        final(k).procs@.len() == old(k).procs@.len(),
        final(k).mutexes == old(k).mutexes,
        final(k).sems == old(k).sems,
        final(k).condvars == old(k).condvars,
        final(k).current == old(k).current,
        final(k).apps == old(k).apps,
        final(k).ready@.len() >= old(k).ready@.len(),
        final(k).ready@.subrange(0, old(k).ready@.len() as int) == old(k).ready@,
        // every appended ready entry is a sleeper whose deadline passed
        forall|i: int|
            old(k).ready@.len() <= i < final(k).ready@.len() ==> names_expired(
                old(k).sleeping@,
                old(k).sleeping@.len() as int,
                now_us as int / 1000,
                #[trigger] final(k).ready@[i],
            ),
        // a task no expired sleeper names is untouched
        forall|x: TaskRef|
            old(k).valid_ref(x) && !names_expired(
                old(k).sleeping@,
                old(k).sleeping@.len() as int,
                now_us as int / 1000,
                x,
            ) ==> (#[trigger] final(k).valid_ref(x) && final(k).task_at(x) == old(k).task_at(x)),
        // a woken sleeper is Ready again and will return 0 from its sleep
        forall|j: int|
            0 <= j < old(k).sleeping@.len() && old(k).sleeping@[j].deadline_ms as int <= now_us
                as int / 1000 && old(k).wakeable((#[trigger] old(k).sleeping@[j]).task) ==> {
                let x = old(k).sleeping@[j].task;
                &&& final(k).valid_ref(x)
                &&& final(k).task_at(x).status == TaskStatus::Ready
                &&& final(k).task_at(x).cx_ret == 0
                &&& final(k).task_at(x) == (Task {
                    status: TaskStatus::Ready,
                    cx_ret: 0,
                    ..old(k).task_at(x)
                })
            },
{
    k.time_us = now_us;
    let now_ms = now_us / 1000;
    let mut pending: Vec<SleepEntry> = Vec::new();
    core::mem::swap(&mut pending, &mut k.sleeping);
    proof {
        lemma_wf_frame(*old(k), *k);
    }
    let ghost pend0 = pending@;
    let ghost keep = |e: SleepEntry| e.deadline_ms as int > now_us as int / 1000;
    let n = pending.len();
    let mut i: usize = 0;
    while i < n
        invariant
            i <= n,
            n == pend0.len(),
            pending@ == pend0,
            k.wf(),
            k.time_us == now_us,
            now_ms == now_us as int / 1000,
            k.procs@.len() == old(k).procs@.len(),
            k.mutexes == old(k).mutexes,
            k.sems == old(k).sems,
            k.condvars == old(k).condvars,
            k.current == old(k).current,
            k.apps == old(k).apps,
            pend0 == old(k).sleeping@,
            k.sleeping@ == pend0.subrange(0, i as int).filter(keep),
            k.ready@.len() >= old(k).ready@.len(),
            k.ready@.subrange(0, old(k).ready@.len() as int) == old(k).ready@,
            forall|x: int|
                old(k).ready@.len() <= x < k.ready@.len() ==> names_expired(
                    pend0,
                    i as int,
                    now_us as int / 1000,
                    #[trigger] k.ready@[x],
                ),
            forall|x: TaskRef|
                #[trigger] old(k).valid_ref(x) && !names_expired(
                    pend0,
                    i as int,
                    now_us as int / 1000,
                    x,
                ) ==> (k.valid_ref(x) && k.task_at(x) == old(k).task_at(x)),
            forall|x: TaskRef| #[trigger] old(k).valid_ref(x) ==> k.valid_ref(x),
            forall|x: TaskRef|
                #[trigger] old(k).valid_ref(x) && !(k.task_at(x) == old(k).task_at(x)) ==> k.task_at(
                    x,
                ) == (Task { status: TaskStatus::Ready, cx_ret: 0, ..old(k).task_at(x) }),
            forall|j: int|
                0 <= j < i && pend0[j].deadline_ms as int <= now_us as int / 1000 && old(k).wakeable(
                    (#[trigger] pend0[j]).task,
                ) ==> {
                    let x = pend0[j].task;
                    &&& k.valid_ref(x)
                    &&& k.task_at(x) == (Task {
                        status: TaskStatus::Ready,
                        cx_ret: 0,
                        ..old(k).task_at(x)
                    })
                },
        decreases n - i,
    {
        let e = pending[i];
        let ghost k_pre = *k;
        if e.deadline_ms <= now_ms {
            if k.ref_valid(e.task) {
                let blocked = {
                    let t = k.task_get(e.task);
                    t.status == TaskStatus::Blocked
                };
                if blocked {
                    {
                        let t = k.task_mut(e.task);
                        t.status = TaskStatus::Ready;
                        t.cx_ret = 0;
                    }
                    let ghost k1 = *k;
                    proof {
                        k_pre.lemma_task_wf(e.task);
                        lemma_wf_after_task_update(k_pre, k1, e.task);
                    }
                    k.ready.push(e.task);
                    proof {
                        lemma_wf_frame(k1, *k);
                        assert(k.task_at(e.task) == (Task {
                            status: TaskStatus::Ready,
                            cx_ret: 0,
                            ..k_pre.task_at(e.task)
                        }));
                    }
                }
            }
            proof {
                assert(pend0.subrange(0, i + 1) =~= pend0.subrange(0, i as int).push(e));
                lemma_filter_push(pend0.subrange(0, i as int), e, keep);
                assert(k.sleeping@ == pend0.subrange(0, i + 1).filter(keep));
            }
        } else {
            k.sleeping.push(e);
            proof {
                lemma_wf_frame(k_pre, *k);
                assert(pend0.subrange(0, i + 1) =~= pend0.subrange(0, i as int).push(e));
                lemma_filter_push(pend0.subrange(0, i as int), e, keep);
                assert(k.sleeping@ == pend0.subrange(0, i + 1).filter(keep));
            }
        }
        proof {
            let nowi = now_us as int / 1000;
            assert forall|x: TaskRef| k_pre.valid_ref(x) implies #[trigger] k.valid_ref(x) by {
                assert(k.procs == k_pre.procs || k.procs@ == k_pre.procs@.update(
                    e.task.pid as int,
                    k.procs@[e.task.pid as int],
                ));
            }
            assert forall|x: TaskRef|
                old(k).valid_ref(x) && !names_expired(pend0, i + 1, nowi, x) implies (
            #[trigger] k.valid_ref(x) && k.task_at(x) == old(k).task_at(x)) by {
                assert forall|j: int|
                    0 <= j < i && (#[trigger] pend0[j]).task == x implies pend0[j].deadline_ms
                        > nowi by {
                    if pend0[j].deadline_ms <= nowi {
                        assert(names_expired(pend0, i + 1, nowi, x));
                    }
                }
                assert(!names_expired(pend0, i as int, nowi, x));
                assert(k_pre.valid_ref(x) && k_pre.task_at(x) == old(k).task_at(x));
                assert(!(pend0[i as int].task == x && pend0[i as int].deadline_ms <= nowi));
                assert(k.task_at(x) == k_pre.task_at(x));
            }
            assert forall|x: int|
                old(k).ready@.len() <= x < k.ready@.len() implies names_expired(
                    pend0,
                    i + 1,
                    nowi,
                    #[trigger] k.ready@[x],
                ) by {
                if x < k_pre.ready@.len() {
                    assert(k.ready@[x] == k_pre.ready@[x]);
                    lemma_names_expired_mono(pend0, i as int, i + 1, nowi, k.ready@[x]);
                } else {
                    assert(k.ready@[x] == e.task);
                    assert(pend0[i as int].task == e.task && pend0[i as int].deadline_ms
                        <= nowi);
                }
            }
        }
        i = i + 1;
    }
    proof {
        assert(pend0.subrange(0, n as int) == pend0);
        assert(i == n);
    }
}

} // verus!
