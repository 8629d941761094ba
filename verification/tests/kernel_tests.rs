use oscore::deadlock::judge_vec_a_greater_equ_than_b;
use oscore::kernel::Kernel;
use oscore::sched::{enqueue_ready, pick_next, timer_tick};
use oscore::syscall::process::{
    create_root, spawn_thread, sys_exec, sys_exit, sys_fork, sys_get_time, sys_getpid, sys_mmap,
    sys_munmap, sys_sbrk, sys_set_priority, sys_spawn, sys_task_info, sys_waitpid, sys_yield,
    note_syscall,
};
use oscore::syscall::sync::{
    sys_condvar_create, sys_condvar_signal, sys_condvar_wait, sys_enable_deadlock_detect,
    sys_mutex_create, sys_mutex_lock, sys_mutex_unlock, sys_semaphore_create, sys_semaphore_down,
    sys_semaphore_up, sys_sleep,
};
use oscore::task::{TaskRef, TaskStatus};
use oscore::{DEADLOCK_SENTINEL, USER_HEAP_BASE};

fn boot() -> Kernel {
    let apps = vec![b"init".to_vec(), b"shell".to_vec()];
    let mut k = Kernel::new(apps);
    let pid = create_root(&mut k, b"init").expect("root image resolves");
    assert_eq!(pid, 0);
    let picked = pick_next(&mut k).expect("root task runs");
    assert_eq!(picked, TaskRef { pid: 0, tid: 0 });
    k
}

/// Hand the processor to the given task, parking the previous one as Ready.
fn switch_to(k: &mut Kernel, pid: usize, tid: usize) {
    if let Some(c) = k.current {
        if let Some(p) = k.procs[c.pid].as_mut() {
            if let Some(t) = p.tasks[c.tid].as_mut() {
                if t.status == TaskStatus::Running {
                    t.status = TaskStatus::Ready;
                }
            }
        }
    }
    k.current = Some(TaskRef { pid, tid });
    if let Some(p) = k.procs[pid].as_mut() {
        if let Some(t) = p.tasks[tid].as_mut() {
            t.status = TaskStatus::Running;
        }
    }
}

fn status_of(k: &Kernel, pid: usize, tid: usize) -> TaskStatus {
    k.procs[pid].as_ref().unwrap().tasks[tid].as_ref().unwrap().status
}

fn cx_ret_of(k: &Kernel, pid: usize, tid: usize) -> isize {
    k.procs[pid].as_ref().unwrap().tasks[tid].as_ref().unwrap().cx_ret
}

#[test]
fn getpid_of_root_is_zero() {
    let k = boot();
    assert_eq!(sys_getpid(&k), 0);
}

#[test]
fn mmap_and_unmap_roundtrip() {
    let mut k = boot();
    let start = 0x10_0000usize;
    assert_eq!(sys_mmap(&mut k, start, 8192, 3), 0);
    // mapping the same range again overlaps and is refused
    assert_eq!(sys_mmap(&mut k, start, 8192, 1), -1);
    // the pages are recorded with the requested permissions
    let mem = &k.procs[0].as_ref().unwrap().mem;
    assert_eq!(mem.pages.len(), 2);
    assert!(mem.pages.iter().all(|pg| pg.perm == 3));
    // unmapping the range once succeeds, a second time fails
    assert_eq!(sys_munmap(&mut k, start, 8192), 0);
    assert_eq!(sys_munmap(&mut k, start, 8192), -1);
}

#[test]
fn mmap_argument_errors() {
    let mut k = boot();
    assert_eq!(sys_mmap(&mut k, 0x10_0001, 4096, 3), -1); // misaligned
    assert_eq!(sys_mmap(&mut k, 0x10_0000, 4096, 0), -1); // no permission
    assert_eq!(sys_mmap(&mut k, 0x10_0000, 4096, 8), -1); // unknown bits
    assert_eq!(sys_mmap(&mut k, 0x10_0000, 0, 3), 0); // empty range: no-op
    assert_eq!(sys_munmap(&mut k, 0x10_0000, 0), 0);
    assert_eq!(sys_munmap(&mut k, 0x10_0000, 4096), -1); // nothing mapped
}

#[test]
fn sbrk_moves_the_program_break() {
    let mut k = boot();
    assert_eq!(sys_sbrk(&mut k, 0), USER_HEAP_BASE as isize);
    assert_eq!(sys_sbrk(&mut k, 100), USER_HEAP_BASE as isize);
    assert_eq!(
        sys_sbrk(&mut k, -50),
        (USER_HEAP_BASE + 100) as isize
    );
    // shrinking below the heap floor is refused and changes nothing
    assert_eq!(sys_sbrk(&mut k, -1000), -1);
    assert_eq!(sys_sbrk(&mut k, 0), (USER_HEAP_BASE + 50) as isize);
}

#[test]
fn fork_returns_child_pid_and_child_sees_zero() {
    let mut k = boot();
    let r = sys_fork(&mut k);
    assert_eq!(r, 1);
    // the parent's call yields the child's pid; the child's saved return
    // value register reads 0
    assert_eq!(cx_ret_of(&k, 1, 0), 0);
    assert_eq!(status_of(&k, 1, 0), TaskStatus::Ready);
    let child = k.procs[1].as_ref().unwrap();
    assert_eq!(child.parent, Some(0));
    assert_eq!(k.procs[0].as_ref().unwrap().children, vec![1]);
}

#[test]
fn fork_shares_mutex_handles() {
    let mut k = boot();
    let m = sys_mutex_create(&mut k, true) as usize;
    assert_eq!(sys_fork(&mut k), 1);
    // parent takes the lock; the child's slot names the same mutex, so the
    // child's lock attempt must wait instead of acquiring a copy
    assert_eq!(sys_mutex_lock(&mut k, m), 0);
    switch_to(&mut k, 1, 0);
    assert_eq!(sys_mutex_lock(&mut k, m), 0);
    assert_eq!(status_of(&k, 1, 0), TaskStatus::Blocked);
}

#[test]
fn waitpid_reaps_the_zombie_child() {
    let mut k = boot();
    assert_eq!(sys_fork(&mut k), 1);
    assert_eq!(sys_fork(&mut k), 2);
    // the first child exits with code 7; the second keeps running
    switch_to(&mut k, 1, 0);
    sys_exit(&mut k, 7);
    assert!(k.procs[1].as_ref().unwrap().zombie);
    switch_to(&mut k, 0, 0);
    let mut code: i32 = 0;
    assert_eq!(sys_waitpid(&mut k, -1, &mut code), 1);
    assert_eq!(code, 7);
    assert!(k.procs[1].is_none());
    // the remaining child is still running: retryable sentinel
    let mut code2: i32 = -99;
    assert_eq!(sys_waitpid(&mut k, -1, &mut code2), -2);
    assert_eq!(code2, -99);
    // no child has pid 5
    assert_eq!(sys_waitpid(&mut k, 5, &mut code2), -1);
}

#[test]
fn exit_detaches_grandchildren() {
    let mut k = boot();
    assert_eq!(sys_fork(&mut k), 1);
    switch_to(&mut k, 1, 0);
    assert_eq!(sys_fork(&mut k), 2);
    sys_exit(&mut k, 0);
    // the exiting child cut its own children loose
    assert!(k.procs[1].as_ref().unwrap().children.is_empty());
    switch_to(&mut k, 0, 0);
    let mut code: i32 = 0;
    assert_eq!(sys_waitpid(&mut k, -1, &mut code), 1);
    // the grandchild is alive but not the root's child
    assert!(k.procs[2].is_some());
    assert_eq!(sys_waitpid(&mut k, -1, &mut code), -1);
}

#[test]
fn exec_replaces_the_address_space_in_place() {
    let mut k = boot();
    let m = sys_mutex_create(&mut k, true);
    assert_eq!(sys_sbrk(&mut k, 64), USER_HEAP_BASE as isize);
    assert_eq!(sys_exec(&mut k, b"missing"), -1);
    assert_eq!(sys_sbrk(&mut k, 0), (USER_HEAP_BASE + 64) as isize);
    assert_eq!(sys_exec(&mut k, b"shell"), 0);
    let p = k.procs[0].as_ref().unwrap();
    assert_eq!(p.mem.brk, USER_HEAP_BASE);
    assert!(p.mem.pages.is_empty());
    // pid and handle tables are preserved
    assert_eq!(p.pid, 0);
    assert_eq!(p.mutex_slots.len(), 1);
    assert_eq!(p.mutex_slots[0], Some(m as usize));
}

#[test]
fn spawn_creates_a_fresh_child() {
    let mut k = boot();
    assert_eq!(sys_spawn(&mut k, b"missing"), -1);
    let r = sys_spawn(&mut k, b"shell");
    assert_eq!(r, 1);
    let child = k.procs[1].as_ref().unwrap();
    assert_eq!(child.parent, Some(0));
    assert!(child.mutex_slots.is_empty());
    assert_eq!(k.procs[0].as_ref().unwrap().children, vec![1]);
    assert_eq!(k.ready.last().copied(), Some(TaskRef { pid: 1, tid: 0 }));
}

#[test]
fn set_priority_rejects_low_values_and_stores_accepted_ones() {
    let mut k = boot();
    let before = k.procs[0].as_ref().unwrap().tasks[0].as_ref().unwrap().priority;
    assert_eq!(sys_set_priority(&mut k, 1), -1);
    assert_eq!(
        k.procs[0].as_ref().unwrap().tasks[0].as_ref().unwrap().priority,
        before
    );
    assert_eq!(sys_set_priority(&mut k, 5), 5);
    assert_eq!(
        k.procs[0].as_ref().unwrap().tasks[0].as_ref().unwrap().priority,
        5
    );
}

#[test]
fn stride_scheduling_follows_the_weights() {
    let mut k = boot();
    let t1 = spawn_thread(&mut k);
    assert_eq!(t1, 1);
    assert_eq!(sys_set_priority(&mut k, 2), 2);
    switch_to(&mut k, 0, 1);
    assert_eq!(sys_set_priority(&mut k, 4), 4);
    // park both tasks on the ready queue and count who gets picked
    if let Some(p) = k.procs[0].as_mut() {
        p.tasks[0].as_mut().unwrap().status = TaskStatus::Ready;
        p.tasks[0].as_mut().unwrap().pass = 0;
        p.tasks[1].as_mut().unwrap().status = TaskStatus::Ready;
        p.tasks[1].as_mut().unwrap().pass = 0;
    }
    k.current = None;
    k.ready.clear();
    enqueue_ready(&mut k, TaskRef { pid: 0, tid: 0 });
    enqueue_ready(&mut k, TaskRef { pid: 0, tid: 1 });
    let mut runs = [0usize; 2];
    for _ in 0..300 {
        let r = pick_next(&mut k).expect("someone is ready");
        runs[r.tid] += 1;
        enqueue_ready(&mut k, r);
        k.current = None;
    }
    // priority 4 gets about twice the share of priority 2
    assert!(runs[1] >= 2 * runs[0] - 4, "runs: {:?}", runs);
    assert!(runs[1] <= 2 * runs[0] + 4, "runs: {:?}", runs);
}

#[test]
fn yield_requeues_the_caller() {
    let mut k = boot();
    assert_eq!(sys_yield(&mut k), 0);
    // the only task comes right back
    assert_eq!(k.current, Some(TaskRef { pid: 0, tid: 0 }));
    assert_eq!(status_of(&k, 0, 0), TaskStatus::Running);
}

#[test]
fn blocking_mutex_alternation_loses_no_update() {
    let mut k = boot();
    assert_eq!(spawn_thread(&mut k), 1);
    let m = sys_mutex_create(&mut k, true) as usize;
    let mut counter: u64 = 0;
    for _ in 0..1000 {
        switch_to(&mut k, 0, 0);
        assert_eq!(sys_mutex_lock(&mut k, m), 0);
        counter += 1;
        assert_eq!(sys_mutex_unlock(&mut k, m), 0);
        switch_to(&mut k, 0, 1);
        assert_eq!(sys_mutex_lock(&mut k, m), 0);
        counter += 1;
        assert_eq!(sys_mutex_unlock(&mut k, m), 0);
    }
    assert_eq!(counter, 2000);
}

#[test]
fn blocking_mutex_hands_the_lock_to_the_head_waiter() {
    let mut k = boot();
    assert_eq!(spawn_thread(&mut k), 1);
    let m = sys_mutex_create(&mut k, true) as usize;
    assert_eq!(sys_mutex_lock(&mut k, m), 0);
    switch_to(&mut k, 0, 1);
    assert_eq!(sys_mutex_lock(&mut k, m), 0);
    assert_eq!(status_of(&k, 0, 1), TaskStatus::Blocked);
    // the releasing task hands the lock over directly
    switch_to(&mut k, 0, 0);
    assert_eq!(sys_mutex_unlock(&mut k, m), 0);
    assert!(k.mutexes[0].locked);
    assert_eq!(k.mutexes[0].owner, Some(TaskRef { pid: 0, tid: 1 }));
    assert_eq!(status_of(&k, 0, 1), TaskStatus::Ready);
    assert_eq!(cx_ret_of(&k, 0, 1), 0);
    // unknown slot ids are argument errors
    assert_eq!(sys_mutex_lock(&mut k, 99), -1);
    assert_eq!(sys_mutex_unlock(&mut k, 99), -1);
}

#[test]
fn spinning_mutex_contender_retries_through_the_scheduler() {
    let mut k = boot();
    assert_eq!(spawn_thread(&mut k), 1);
    let m = sys_mutex_create(&mut k, false) as usize;
    assert_eq!(sys_mutex_lock(&mut k, m), 0);
    switch_to(&mut k, 0, 1);
    k.ready.clear();
    assert_eq!(sys_mutex_lock(&mut k, m), 0);
    // the contender busy-retries: it sits in the ready queue, not on a wait
    // queue, but cannot be scheduled while the lock is held
    assert!(k.mutexes[0].waiters.is_empty());
    assert_eq!(k.ready.first().copied(), Some(TaskRef { pid: 0, tid: 1 }));
    assert!(k.current.is_none());
    // once the holder releases, the retrying task is scheduled and claims it
    switch_to(&mut k, 0, 0);
    assert_eq!(sys_mutex_unlock(&mut k, m), 0);
    assert!(!k.mutexes[0].locked);
    k.current = None;
    if let Some(p) = k.procs[0].as_mut() {
        p.tasks[0].as_mut().unwrap().status = TaskStatus::Ready;
    }
    let r = pick_next(&mut k).expect("retrying task is eligible now");
    assert_eq!(r, TaskRef { pid: 0, tid: 1 });
    assert!(k.mutexes[0].locked);
    assert_eq!(k.mutexes[0].owner, Some(TaskRef { pid: 0, tid: 1 }));
}

#[test]
fn semaphore_wakes_waiters_in_fifo_order() {
    let mut k = boot();
    assert_eq!(spawn_thread(&mut k), 1);
    assert_eq!(spawn_thread(&mut k), 2);
    let s = sys_semaphore_create(&mut k, 0) as usize;
    switch_to(&mut k, 0, 1);
    assert_eq!(sys_semaphore_down(&mut k, s), 0);
    assert_eq!(status_of(&k, 0, 1), TaskStatus::Blocked);
    switch_to(&mut k, 0, 2);
    assert_eq!(sys_semaphore_down(&mut k, s), 0);
    assert_eq!(status_of(&k, 0, 2), TaskStatus::Blocked);
    // the longest-waiting task is woken first and the count stays 0
    switch_to(&mut k, 0, 0);
    assert_eq!(sys_semaphore_up(&mut k, s), 0);
    assert_eq!(status_of(&k, 0, 1), TaskStatus::Ready);
    assert_eq!(status_of(&k, 0, 2), TaskStatus::Blocked);
    assert_eq!(k.sems[0].count, 0);
    assert_eq!(sys_semaphore_up(&mut k, s), 0);
    assert_eq!(status_of(&k, 0, 2), TaskStatus::Ready);
    // with nobody waiting the count rises
    assert_eq!(sys_semaphore_up(&mut k, s), 0);
    assert_eq!(k.sems[0].count, 1);
    assert_eq!(sys_semaphore_down(&mut k, 99), -1);
    assert_eq!(sys_semaphore_up(&mut k, 99), -1);
}

#[test]
fn deadlock_detector_refuses_the_unsafe_down() {
    let mut k = boot();
    assert_eq!(spawn_thread(&mut k), 1);
    assert_eq!(sys_enable_deadlock_detect(&mut k, 1), 0);
    let s0 = sys_semaphore_create(&mut k, 1) as usize; // slot 0 is exempt
    let s1 = sys_semaphore_create(&mut k, 1) as usize;
    let s2 = sys_semaphore_create(&mut k, 1) as usize;
    assert_eq!(s0, 0);
    // thread A exhausts resource 1, thread B exhausts resource 2
    assert_eq!(sys_semaphore_down(&mut k, s1), 0);
    switch_to(&mut k, 0, 1);
    assert_eq!(sys_semaphore_down(&mut k, s2), 0);
    // A asks for resource 2: B could still finish and release it, so A may
    // wait
    switch_to(&mut k, 0, 0);
    assert_eq!(sys_semaphore_down(&mut k, s2), 0);
    assert_eq!(status_of(&k, 0, 0), TaskStatus::Blocked);
    // B asks for resource 1: now nobody could finish — refused, not blocked
    switch_to(&mut k, 0, 1);
    assert_eq!(sys_semaphore_down(&mut k, s1), DEADLOCK_SENTINEL);
    assert_eq!(status_of(&k, 0, 1), TaskStatus::Running);
}

#[test]
fn deadlock_detector_refuses_contended_mutexes() {
    let mut k = boot();
    assert_eq!(spawn_thread(&mut k), 1);
    assert_eq!(sys_enable_deadlock_detect(&mut k, 1), 0);
    let m = sys_mutex_create(&mut k, true) as usize;
    assert_eq!(sys_mutex_lock(&mut k, m), 0);
    // any second lock attempt on a held mutex is conservatively refused
    switch_to(&mut k, 0, 1);
    assert_eq!(sys_mutex_lock(&mut k, m), DEADLOCK_SENTINEL);
    assert_eq!(status_of(&k, 0, 1), TaskStatus::Running);
    // switching detection off restores blocking behaviour
    assert_eq!(sys_enable_deadlock_detect(&mut k, 0), 0);
    assert_eq!(sys_mutex_lock(&mut k, m), 0);
    assert_eq!(status_of(&k, 0, 1), TaskStatus::Blocked);
}

#[test]
fn condvar_wait_releases_the_mutex_and_wake_does_not_reacquire() {
    let mut k = boot();
    assert_eq!(spawn_thread(&mut k), 1);
    let m = sys_mutex_create(&mut k, true) as usize;
    let cv = sys_condvar_create(&mut k) as usize;
    // signalling with no waiters is a no-op
    assert_eq!(sys_condvar_signal(&mut k, cv), 0);
    assert_eq!(sys_mutex_lock(&mut k, m), 0);
    assert_eq!(sys_condvar_wait(&mut k, cv, m), 0);
    // the wait released the mutex and blocked the caller
    assert!(!k.mutexes[0].locked);
    assert_eq!(status_of(&k, 0, 0), TaskStatus::Blocked);
    // another task can take the mutex meanwhile
    switch_to(&mut k, 0, 1);
    assert_eq!(sys_mutex_lock(&mut k, m), 0);
    assert_eq!(sys_condvar_signal(&mut k, cv), 0);
    // the woken waiter is Ready and did not reacquire the mutex
    assert_eq!(status_of(&k, 0, 0), TaskStatus::Ready);
    assert_eq!(k.mutexes[0].owner, Some(TaskRef { pid: 0, tid: 1 }));
    assert_eq!(sys_condvar_wait(&mut k, 99, m), -1);
    assert_eq!(sys_condvar_signal(&mut k, 99), -1);
}

#[test]
fn sleep_blocks_until_the_timer_expires() {
    let mut k = boot();
    assert_eq!(sys_sleep(&mut k, 5), 0);
    assert_eq!(status_of(&k, 0, 0), TaskStatus::Blocked);
    assert_eq!(k.sleeping.len(), 1);
    assert_eq!(k.sleeping[0].deadline_ms, 5);
    // a tick before the deadline wakes nobody
    timer_tick(&mut k, 4000);
    assert_eq!(status_of(&k, 0, 0), TaskStatus::Blocked);
    // a tick past the deadline moves the sleeper back to Ready
    timer_tick(&mut k, 6000);
    assert_eq!(status_of(&k, 0, 0), TaskStatus::Ready);
    assert!(k.sleeping.is_empty());
    assert_eq!(cx_ret_of(&k, 0, 0), 0);
}

#[test]
fn get_time_splits_seconds_and_microseconds() {
    let mut k = boot();
    timer_tick(&mut k, 1_500_042);
    let tv = sys_get_time(&k);
    assert_eq!(tv.sec, 1);
    assert_eq!(tv.usec, 500_042);
}

#[test]
fn task_info_reports_counts_and_running_time() {
    let mut k = boot();
    timer_tick(&mut k, 8000);
    note_syscall(&mut k, 3);
    note_syscall(&mut k, 3);
    note_syscall(&mut k, 7);
    let info = sys_task_info(&k);
    assert_eq!(info.status, TaskStatus::Running);
    assert_eq!(info.syscall_times[3], 2);
    assert_eq!(info.syscall_times[7], 1);
    assert_eq!(info.time, 8);
}

#[test]
fn handle_tables_grow_one_slot_at_a_time() {
    let mut k = boot();
    assert_eq!(sys_mutex_create(&mut k, true), 0);
    assert_eq!(sys_mutex_create(&mut k, false), 1);
    assert_eq!(sys_semaphore_create(&mut k, 3), 0);
    assert_eq!(sys_semaphore_create(&mut k, 0), 1);
    assert_eq!(sys_condvar_create(&mut k), 0);
    assert_eq!(sys_condvar_create(&mut k), 1);
    // a freed slot would be reused first: seed one and create again
    if let Some(p) = k.procs[0].as_mut() {
        p.mutex_slots[0] = None;
    }
    assert_eq!(sys_mutex_create(&mut k, true), 0);
}

#[test]
fn judge_vec_compares_entrywise_against_the_negation() {
    assert!(judge_vec_a_greater_equ_than_b(&vec![0, 5, 3], &vec![0, -4, -3]));
    assert!(!judge_vec_a_greater_equ_than_b(&vec![0, 2], &vec![0, -3]));
    // vectors of length at most one are accepted outright
    assert!(judge_vec_a_greater_equ_than_b(&vec![5], &vec![1, -9]));
    // a longer second vector must have no negative tail entries
    assert!(!judge_vec_a_greater_equ_than_b(&vec![0, 1], &vec![0, -1, -5]));
    assert!(judge_vec_a_greater_equ_than_b(&vec![0, 1], &vec![0, -1, 5]));
}
