//! Process control blocks: the tree of processes, their threads, and their
//! slot tables of synchronization-primitive handles.
use vstd::prelude::*;

use crate::mem::MemorySet;
use crate::task::Task;
use crate::MAX_TASKS_PER_PROC;

verus! {

/// Every filled slot of a handle table refers into an arena of `arena_len`
/// objects.
pub open spec fn slots_in_bounds(slots: Seq<Option<usize>>, arena_len: int) -> bool {
    forall|i: int|
        0 <= i < slots.len() && slots[i] is Some ==> #[trigger] slots[i].unwrap() < arena_len
}

/// One process control block.  The kernel owns it; children and tasks are
/// named by index, never by a strong cycle.
pub struct Process {
    /// Process id, equal to the process's slot in the kernel's table.
    pub pid: usize,
    /// The parent process, if it is still interested in this one.
    pub parent: Option<usize>,
    /// Pids of the live children, in creation order.
    pub children: Vec<usize>,
    /// Whether the process has exited and awaits reaping by its parent.
    pub zombie: bool,
    /// Exit code recorded by `exit`.
    pub exit_code: i32,
    /// Thread table: thread ids index it, freed slots are reused before the
    /// table grows.
    pub tasks: Vec<Option<Task>>,
    /// Handle tables: each filled slot names an object in the kernel's
    /// arena of that primitive.  A freed slot is reused by the next create
    /// call before the table grows.
    pub mutex_slots: Vec<Option<usize>>,
    pub sem_slots: Vec<Option<usize>>,
    pub condvar_slots: Vec<Option<usize>>,
    /// Whether the advisory deadlock detector runs for this process.
    pub deadlock_detect: bool,
    /// The process's address space.
    pub mem: MemorySet,
}

impl Process {
    /// Consistency of the block on its own: handle tables point into the
    /// arenas, tasks agree with their slots, children are distinct.
    pub open spec fn wf(self, n_mutexes: int, n_sems: int, n_condvars: int) -> bool {
        &&& slots_in_bounds(self.mutex_slots@, n_mutexes)
        &&& slots_in_bounds(self.sem_slots@, n_sems)
        &&& slots_in_bounds(self.condvar_slots@, n_condvars)
        &&& self.tasks@.len() <= MAX_TASKS_PER_PROC
        &&& (forall|t: int|
            0 <= t < self.tasks@.len() && self.tasks@[t] is Some
                ==> (#[trigger] self.tasks@[t].unwrap()).wf(
                t,
                self.sem_slots@.len() as int,
                n_mutexes,
            ))
        &&& (forall|i: int, j: int|
            0 <= i < j < self.children@.len() ==> self.children@[i] != self.children@[j])
        &&& self.mem.wf()
    }

    /// A fresh process with no threads, empty handle tables, and an empty
    /// address space whose heap starts at `heap_bottom`.
    pub fn new(pid: usize, parent: Option<usize>, heap_bottom: usize) -> (p: Process)
        ensures
            p.pid == pid,
            p.parent == parent,
            p.children@ == Seq::<usize>::empty(),
            !p.zombie,
            p.exit_code == 0,
            p.tasks@ == Seq::<Option<Task>>::empty(),
            p.mutex_slots@ == Seq::<Option<usize>>::empty(),
            p.sem_slots@ == Seq::<Option<usize>>::empty(),
            p.condvar_slots@ == Seq::<Option<usize>>::empty(),
            !p.deadlock_detect,
            p.mem.wf(),
            p.mem.pages@ == Seq::<crate::mem::MappedPage>::empty(),
            p.mem.heap_bottom == heap_bottom,
            p.mem.brk == heap_bottom,
    {
        Process {
            pid,
            parent,
            children: Vec::new(),
            zombie: false,
            exit_code: 0,
            tasks: Vec::new(),
            mutex_slots: Vec::new(),
            sem_slots: Vec::new(),
            condvar_slots: Vec::new(),
            deadlock_detect: false,
            mem: MemorySet::new(heap_bottom),
        }
    }
}

/// The handle a slot table holds at `id`, or nothing for an out-of-range or
/// freed slot.
pub open spec fn slot_of(table: Seq<Option<usize>>, id: int) -> Option<usize> {
    if 0 <= id < table.len() {
        table[id]
    } else {
        None
    }
}

/// How a create call turns slot table `t0` into `t1` when it records handle
/// `g`: the first empty slot is reused, and the table grows only when every
/// slot is filled; `id` is the chosen slot.
pub open spec fn slot_allocated(t0: Seq<Option<usize>>, t1: Seq<Option<usize>>, g: usize, id: int) -> bool {
    &&& 0 <= id < t1.len()
    &&& t1[id] == Some(g)
    &&& (forall|k: int| 0 <= k < id ==> t0[k] is Some)
    &&& id <= t0.len()
    &&& (id < t0.len() ==> t0[id] is None && t1 == t0.update(id, Some(g)))
    &&& (id == t0.len() ==> t1 == t0.push(Some(g)))
}

/// Filled slots stay within an arena that has only grown, after recording a
/// handle that the grown arena holds.
pub proof fn lemma_slots_in_bounds_alloc(
    t0: Seq<Option<usize>>,
    t1: Seq<Option<usize>>,
    g: usize,
    id: int,
    n: int,
)
    requires
        slots_in_bounds(t0, n),
        slot_allocated(t0, t1, g, id),
        g < n,
    ensures
        slots_in_bounds(t1, n),
{
    assert forall|i: int| 0 <= i < t1.len() && t1[i] is Some implies #[trigger] t1[i].unwrap()
        < n by {
        if i != id {
            assert(t1[i] == t0[i]);
        }
    }
}

/// Look a handle up in a slot table; an unknown or freed slot id yields
/// nothing.
pub fn lookup_slot(table: &Vec<Option<usize>>, id: usize) -> (r: Option<usize>)
    ensures
        r == slot_of(table@, id as int),
{
    if id < table.len() {
        table[id]
    } else {
        None
    }
}

/// Record `g` in the first empty slot of a handle table, growing the table
/// only when no slot is free, and return the slot id — the slot-reuse rule
/// shared by every create call.
pub fn alloc_slot(table: &mut Vec<Option<usize>>, g: usize) -> (id: usize)
    ensures
        slot_allocated(old(table)@, final(table)@, g, id as int),
{
    let n = table.len();
    let mut i: usize = 0;
    while i < n
        invariant
            i <= n,
            n == table@.len(),
            table@ == old(table)@,
            forall|k: int| 0 <= k < i ==> table@[k] is Some,
        decreases n - i,
    {
        if table[i].is_none() {
            table.set(i, Some(g));
            return i;
        }
        i = i + 1;
    }
    table.push(Some(g));
    n
}

/// Copy a vector whose elements are plain values.
pub fn copy_vec<T: Copy>(v: &Vec<T>) -> (r: Vec<T>)
    ensures
        r@ == v@,
{
    let mut r: Vec<T> = Vec::new();
    let n = v.len();
    let mut i: usize = 0;
    while i < n
        invariant
            i <= n,
            n == v@.len(),
            r@ =~= v@.subrange(0, i as int),
        decreases n - i,
    {
        r.push(v[i]);
        i = i + 1;
    }
    proof {
        assert(r@ =~= v@);
    }
    r
}

} // verus!
