//! The advisory deadlock detector: a safety simulation in the style of the
//! Banker's algorithm, run before a task is allowed to block on a semaphore,
//! plus the vector-comparison helper the detector's callers use.
use vstd::prelude::*;

use crate::task::Task;
use crate::MAX_TASKS_PER_PROC;

verus! {

/// The availability vector read as unbounded integers.
pub open spec fn widened(work: Seq<i128>) -> Seq<int> {
    Seq::new(work.len(), |j: int| work[j] as int)
}

/// Whether one thread could finish under the available vector `work`: it
/// either requests nothing (`sem_need` 0 — slot 0 is exempt from the
/// accounting) or the slot it requests still has units available.
pub open spec fn task_fin_ok(t: Task, work: Seq<int>) -> bool {
    t.sem_need == 0 || (t.sem_need < work.len() && work[t.sem_need as int] > 0)
}

/// The available vector after a finished thread's ledger is subtracted,
/// entry by entry; slot 0 is exempt and entries past the ledger are kept.
pub open spec fn sub_alloc(work: Seq<int>, alloc: Seq<isize>) -> Seq<int> {
    Seq::new(
        work.len(),
        |j: int|
            if 1 <= j < alloc.len() {
                work[j] - alloc[j]
            } else {
                work[j]
            },
    )
}

/// Thread slot `i` holds a live, not yet finished thread that could finish
/// under `work`.
pub open spec fn finishable_at(
    tasks: Seq<Option<Task>>,
    finish: Seq<bool>,
    work: Seq<int>,
    i: int,
) -> bool {
    &&& 0 <= i < tasks.len()
    &&& tasks[i] is Some
    &&& !finish[i]
    &&& task_fin_ok(tasks[i].unwrap(), work)
}

/// Slot `i` is the first finishable thread — the one the simulation takes.
pub open spec fn first_finishable(
    tasks: Seq<Option<Task>>,
    finish: Seq<bool>,
    work: Seq<int>,
    i: int,
) -> bool {
    &&& finishable_at(tasks, finish, work, i)
    &&& (forall|j: int| 0 <= j < i ==> !finishable_at(tasks, finish, work, j))
}

/// Some thread could still finish.
pub open spec fn exists_finishable(
    tasks: Seq<Option<Task>>,
    finish: Seq<bool>,
    work: Seq<int>,
) -> bool {
    exists|i: int| finishable_at(tasks, finish, work, i)
}

/// How many live threads among the first `n` slots are not yet finished.
pub open spec fn count_unfinished(tasks: Seq<Option<Task>>, finish: Seq<bool>, n: int) -> nat
    decreases n,
{
    if n <= 0 {
        0
    } else {
        count_unfinished(tasks, finish, n - 1) + (if tasks[n - 1] is Some && !finish[n - 1] {
            1nat
        } else {
            0nat
        })
    }
}

/// The simulation: repeatedly finish the first finishable thread and release
/// its ledger into the available vector, for at most `fuel` rounds or until
/// no thread can finish.
pub open spec fn banker_rounds(
    tasks: Seq<Option<Task>>,
    finish: Seq<bool>,
    work: Seq<int>,
    fuel: nat,
) -> Seq<bool>
    decreases fuel,
{
    if fuel == 0 {
        finish
    } else if exists_finishable(tasks, finish, work) {
        let i = choose|i: int| first_finishable(tasks, finish, work, i);
        banker_rounds(
            tasks,
            finish.update(i, true),
            sub_alloc(work, tasks[i].unwrap().sem_allocated@),
            (fuel - 1) as nat,
        )
    } else {
        finish
    }
}

/// The starting finish vector: empty thread slots have nothing to finish.
pub open spec fn init_finish(tasks: Seq<Option<Task>>) -> Seq<bool> {
    Seq::new(tasks.len(), |i: int| tasks[i] is None)
}

/// The state is safe: the simulation lets every live thread finish.
pub open spec fn banker_safe_spec(tasks: Seq<Option<Task>>, avail: Seq<int>) -> bool {
    let fin = banker_rounds(tasks, init_finish(tasks), avail, tasks.len());
    forall|i: int| 0 <= i < fin.len() ==> fin[i]
}

/// Below any finishable slot there is a first finishable slot.
proof fn lemma_first_below(tasks: Seq<Option<Task>>, finish: Seq<bool>, work: Seq<int>, i: int)
    requires
        finishable_at(tasks, finish, work, i),
    ensures
        exists|j: int| first_finishable(tasks, finish, work, j),
    decreases i,
{
    if forall|j: int| 0 <= j < i ==> !finishable_at(tasks, finish, work, j) {
        assert(first_finishable(tasks, finish, work, i));
    } else {
        let j = choose|j: int| 0 <= j < i && finishable_at(tasks, finish, work, j);
        lemma_first_below(tasks, finish, work, j);
    }
}

/// The first finishable slot is unique.
proof fn lemma_first_unique(
    tasks: Seq<Option<Task>>,
    finish: Seq<bool>,
    work: Seq<int>,
    i: int,
    j: int,
)
    requires
        first_finishable(tasks, finish, work, i),
        first_finishable(tasks, finish, work, j),
    ensures
        i == j,
{
    if i < j {
        assert(!finishable_at(tasks, finish, work, i));
    } else if j < i {
        assert(!finishable_at(tasks, finish, work, j));
    }
}

/// Finishing one live thread lowers the unfinished count by exactly one.
proof fn lemma_count_update(tasks: Seq<Option<Task>>, finish: Seq<bool>, i: int, n: int)
    requires
        0 <= i < n <= finish.len(),
        n <= tasks.len(),
        tasks[i] is Some,
        !finish[i],
    ensures
        count_unfinished(tasks, finish.update(i, true), n) + 1 == count_unfinished(
            tasks,
            finish,
            n,
        ),
    decreases n,
{
    if n - 1 == i {
        lemma_count_same(tasks, finish, finish.update(i, true), n - 1);
    } else {
        lemma_count_update(tasks, finish, i, n - 1);
    }
}

/// The unfinished count only reads the first `n` finish flags.
proof fn lemma_count_same(tasks: Seq<Option<Task>>, f1: Seq<bool>, f2: Seq<bool>, n: int)
    requires
        forall|j: int| 0 <= j < n ==> f1[j] == f2[j],
    ensures
        count_unfinished(tasks, f1, n) == count_unfinished(tasks, f2, n),
    decreases n,
{
    if n > 0 {
        lemma_count_same(tasks, f1, f2, n - 1);
    }
}

/// A live unfinished thread keeps the unfinished count positive.
proof fn lemma_count_pos(tasks: Seq<Option<Task>>, finish: Seq<bool>, i: int, n: int)
    requires
        0 <= i < n,
        n <= tasks.len(),
        tasks[i] is Some,
        !finish[i],
    ensures
        count_unfinished(tasks, finish, n) >= 1,
    decreases n,
{
    if i < n - 1 {
        lemma_count_pos(tasks, finish, i, n - 1);
    }
}

/// The unfinished count never exceeds the slot count.
proof fn lemma_count_le(tasks: Seq<Option<Task>>, finish: Seq<bool>, n: int)
    requires
        n >= 0,
    ensures
        count_unfinished(tasks, finish, n) <= n,
    decreases n,
{
    if n > 0 {
        lemma_count_le(tasks, finish, n - 1);
    }
}

/// Run the Banker's-style safety simulation over a process's thread table
/// and the semaphore availability vector: scan for a thread that could
/// finish, release its ledger, and repeat; the state is safe exactly when
/// every live thread ends finished.
#[verifier::loop_isolation(false)]
pub fn banker_safe(tasks: &Vec<Option<Task>>, avail: &Vec<i128>) -> (safe: bool)
    requires
        forall|t: int|
            0 <= t < tasks@.len() && tasks@[t] is Some ==> ((#[trigger] tasks@[t].unwrap(
            )).sem_allocated@.len() <= avail@.len() && (tasks@[t].unwrap().sem_need == 0
                || tasks@[t].unwrap().sem_need < avail@.len())),
        tasks@.len() <= MAX_TASKS_PER_PROC,
        forall|j: int| 0 <= j < avail@.len() ==> 0 <= #[trigger] avail@[j] <= usize::MAX,
    ensures
        safe == banker_safe_spec(tasks@, widened(avail@)),
{
    let ghost avail0 = widened(avail@);
    let n = tasks.len();
    let ns = avail.len();
    let mut work: Vec<i128> = Vec::new();
    let mut j: usize = 0;
    while j < ns
        invariant
            j <= ns,
            work@ =~= avail@.subrange(0, j as int),
        decreases ns - j,
    {
        work.push(avail[j]);
        j = j + 1;
    }
    proof {
        assert(work@ =~= avail@);
        assert(widened(work@) =~= avail0);
    }
    let mut finish: Vec<bool> = Vec::new();
    let mut i: usize = 0;
    while i < n
        invariant
            i <= n,
            finish@ =~= init_finish(tasks@).subrange(0, i as int),
        decreases n - i,
    {
        finish.push(tasks[i].is_none());
        proof {
            assert(finish@ =~= init_finish(tasks@).subrange(0, i + 1));
        }
        i = i + 1;
    }
    proof {
        assert(finish@ =~= init_finish(tasks@));
        lemma_count_le(tasks@, finish@, n as int);
    }
    let mut steps: usize = 0;
    loop
        invariant
            steps <= n,
            finish@.len() == n,
            work@.len() == ns,
            forall|t: int| 0 <= t < n && tasks@[t] is None ==> finish@[t],
            count_unfinished(tasks@, finish@, n as int) <= n - steps,
            forall|j2: int|
                0 <= j2 < ns ==> -(steps as int) * 0x8000_0000_0000_0000 <= #[trigger] work@[j2]
                    <= 0x1_0000_0000_0000_0000 + (steps as int) * 0x8000_0000_0000_0000,
            banker_rounds(tasks@, finish@, widened(work@), (n - steps) as nat) == banker_rounds(
                tasks@,
                init_finish(tasks@),
                avail0,
                n as nat,
            ),
        decreases count_unfinished(tasks@, finish@, n as int),
    {
        let ghost wmap = widened(work@);
        let mut found: Option<usize> = None;
        let mut i: usize = 0;
        while i < n
            invariant
                i <= n,
                found is None,
                forall|j2: int| 0 <= j2 < i ==> !finishable_at(tasks@, finish@, wmap, j2),
            decreases n - i,
        {
            if !finish[i] {
                let fin_ok = match &tasks[i] {
                    Some(t) => t.sem_need == 0 || (t.sem_need < ns && work[t.sem_need]
                        > 0),
                    None => false,
                };
                if fin_ok {
                    found = Some(i);
                    proof {
                        assert(finishable_at(tasks@, finish@, wmap, i as int));
                    }
                    break ;
                }
                proof {
                    assert(!finishable_at(tasks@, finish@, wmap, i as int));
                }
            }
            i = i + 1;
        }
        let i = match found {
            Some(i) => i,
            None => {
                proof {
                    assert(!exists_finishable(tasks@, finish@, wmap)) by {
                        if exists_finishable(tasks@, finish@, wmap) {
                            let w = choose|w: int| finishable_at(tasks@, finish@, wmap, w);
                            assert(!finishable_at(tasks@, finish@, wmap, w));
                        }
                    }
                    assert(banker_rounds(tasks@, finish@, wmap, (n - steps) as nat) == finish@);
                }
                break ;
            },
        };
        proof {
            assert(first_finishable(tasks@, finish@, wmap, i as int));
            lemma_count_pos(tasks@, finish@, i as int, n as int);
            assert(n - steps >= 1);
            let ghost ch = choose|c: int| first_finishable(tasks@, finish@, wmap, c);
            lemma_first_unique(tasks@, finish@, wmap, ch, i as int);
            assert(banker_rounds(tasks@, finish@, wmap, (n - steps) as nat) == banker_rounds(
                tasks@,
                finish@.update(i as int, true),
                sub_alloc(wmap, tasks@[i as int].unwrap().sem_allocated@),
                (n - steps - 1) as nat,
            ));
            lemma_count_update(tasks@, finish@, i as int, n as int);
        }
        let ghost finish1 = finish@.update(i as int, true);
        finish.set(i, true);
        let t = match &tasks[i] {
            Some(t) => t,
            None => vstd::pervasive::unreached(),
        };
        let na = t.sem_allocated.len();
        let ghost w0 = work@;
        let mut j: usize = 1;
        while j < na
            invariant
                1 <= j <= na || (na <= 1 && j == 1),
                na == t.sem_allocated@.len(),
                na <= ns,
                work@.len() == ns,
                forall|j2: int| j <= j2 < ns ==> work@[j2] == w0[j2],
                work@[0] == w0[0],
                forall|j2: int|
                    1 <= j2 < j ==> work@[j2] == w0[j2] - t.sem_allocated@[j2],
                steps < n,
                forall|j2: int|
                    0 <= j2 < ns ==> -(steps as int) * 0x8000_0000_0000_0000 <= #[trigger] w0[j2]
                        <= 0x1_0000_0000_0000_0000 + (steps as int) * 0x8000_0000_0000_0000,
                forall|j2: int|
                    0 <= j2 < ns ==> -(steps as int) * 0x8000_0000_0000_0000
                        - 0x8000_0000_0000_0000 <= #[trigger] work@[j2]
                        <= 0x1_0000_0000_0000_0000 + (steps as int) * 0x8000_0000_0000_0000
                        + 0x8000_0000_0000_0000,
            decreases na - j,
        {
            let v = work[j];
            let a = t.sem_allocated[j];
            proof {
                assert(v == w0[j as int]);
                assert(-(steps as int) * 0x8000_0000_0000_0000 <= v <= 0x1_0000_0000_0000_0000 + (
                steps as int) * 0x8000_0000_0000_0000);
            }
            let ghost wprev = work@;
            work.set(j, v - (a as i128));
            proof {
                assert forall|j2: int|
                    0 <= j2 < ns implies -(steps as int) * 0x8000_0000_0000_0000
                    - 0x8000_0000_0000_0000 <= #[trigger] work@[j2] <= 0x1_0000_0000_0000_0000 + (
                steps as int) * 0x8000_0000_0000_0000 + 0x8000_0000_0000_0000 by {
                    if j2 == j {
                        assert(work@[j2] == v - a);
                    } else {
                        assert(work@[j2] == wprev[j2]);
                    }
                }
            }
            j = j + 1;
        }
        proof {
            let sa = sub_alloc(wmap, t.sem_allocated@);
            assert(widened(work@).len() == sa.len());
            assert forall|j2: int| 0 <= j2 < ns implies widened(work@)[j2] == sa[j2] by {
                assert(wmap[j2] == w0[j2] as int);
                assert(j == na || (na <= 1 && j == 1));
                if 1 <= j2 < na {
                    assert(work@[j2] == w0[j2] - t.sem_allocated@[j2]);
                } else if j2 == 0 {
                    assert(work@[0] == w0[0]);
                } else {
                    assert(j2 >= na && j2 >= j);
                    assert(work@[j2] == w0[j2]);
                }
            }
            assert(widened(work@) =~= sub_alloc(wmap, t.sem_allocated@));
        }
        steps = steps + 1;
    }
    let mut all = true;
    let mut i: usize = 0;
    while i < n
        invariant
            i <= n,
            all == (forall|j2: int| 0 <= j2 < i ==> finish@[j2]),
        decreases n - i,
    {
        if !finish[i] {
            all = false;
        }
        i = i + 1;
    }
    proof {
        assert(banker_rounds(tasks@, init_finish(tasks@), avail0, n as nat) == finish@);
    }
    all
}

/// What [`judge_vec_a_greater_equ_than_b`] decides: outside of index 0,
/// every entry of `a` is at least the negation of the matching entry of `b`,
/// and where `b` is longer than `a`, none of `b`'s extra entries is negative.
/// Vectors of length at most one are accepted outright.
pub open spec fn spec_a_covers_neg_b(a: Seq<int>, b: Seq<int>) -> bool {
    let minlen = if a.len() <= b.len() {
        a.len() as int
    } else {
        b.len() as int
    };
    if minlen <= 1 {
        true
    } else {
        (forall|i: int| 1 <= i < minlen ==> a[i] >= -b[i]) && (a.len() >= b.len()
            || (forall|i: int| minlen <= i < b.len() ==> -b[i] <= 0))
    }
}

/// Entrywise comparison of an availability vector `a` against a negated
/// demand vector `b`, skipping the reserved resource id 0.
#[verifier::loop_isolation(false)]
pub fn judge_vec_a_greater_equ_than_b(a: &Vec<isize>, b: &Vec<isize>) -> (r: bool)
    ensures
        r == spec_a_covers_neg_b(
            a@.map_values(|x: isize| x as int),
            b@.map_values(|x: isize| x as int),
        ),
{
    let minlen: usize = if a.len() <= b.len() {
        a.len()
    } else {
        b.len()
    };
    if minlen <= 1 {
        return true;
    }
    let mut i: usize = 1;
    while i < minlen
        invariant
            1 <= i <= minlen,
            minlen <= a.len(),
            minlen <= b.len(),
            minlen == if a@.len() <= b@.len() {
                a@.len() as int
            } else {
                b@.len() as int
            },
            forall|k: int| 1 <= k < i ==> a@[k] as int >= -(b@[k] as int),
        decreases minlen - i,
    {
        if (a[i] as i128) < -(b[i] as i128) {
            proof {
                let am = a@.map_values(|x: isize| x as int);
                let bm = b@.map_values(|x: isize| x as int);
                assert(am[i as int] == a@[i as int] as int);
                assert(bm[i as int] == b@[i as int] as int);
                assert(am[i as int] < -bm[i as int]);
            }
            return false;
        }
        i = i + 1;
    }
    if a.len() >= b.len() {
        return true;
    }
    let mut j: usize = minlen;
    while j < b.len()
        invariant
            minlen <= j <= b.len(),
            forall|k: int| minlen <= k < j ==> -(b@[k] as int) <= 0,
        decreases b.len() - j,
    {
        if b[j] < 0 {
            proof {
                let bm = b@.map_values(|x: isize| x as int);
                assert(bm[j as int] == b@[j as int] as int);
                assert(-bm[j as int] > 0);
            }
            return false;
        }
        j = j + 1;
    }
    true
}

} // verus!
