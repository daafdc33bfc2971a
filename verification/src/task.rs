//! Task bookkeeping: the task table, the scheduler's choice of the next task, and the
//! `mmap` / `munmap` system calls on the current task's address space.
use vstd::prelude::*;
use std::collections::BTreeMap;
use crate::address::{VirtAddr, VPNRange, PAGE_SIZE, floor_page, ceil_page};
use crate::memory_set::{
    MemorySet, MapPermission, AreaView, OpView, MapType, map_ops, releases, is_first_area,
    lemma_first_area_unique, has_area, first_area, page_set, framed_area_added,
    area_removed, area_extended, area_shrunk, areas_combined, area_split, area_spans,
    lemma_first_area_exists, lemma_first_area_is, frames_in_place, frames_apart, lemma_split_keeps_frames_apart,
};
use crate::range_manager::{
    RangesChanged, insert_blocked, joins_left, joins_right, first_end_from, after_insert,
    remove_fits, after_remove, has_end_from, lemma_first_end_exists, ranges_wf, lemma_insert_then_remove,
    lemma_insert_twice_blocked, blocks,
    is_first_end_from, lemma_first_end_from, covered, page_span, lemma_insert_covers, lemma_remove_uncovers,
};

verus! {

broadcast use vstd::std_specs::btree::group_btree_axioms;

/// Number of distinct system calls whose use is counted.
pub const MAX_SYSCALL_NUM: usize = 500;

/// Where a task stands.
#[derive(Copy, Clone, PartialEq, Eq, Structural, Debug)]
pub enum TaskStatus {
    UnInit,
    Ready,
    Running,
    Exited,
}

/// What the scheduler and the system calls keep of a task.
pub struct TaskControlBlock {
    pub task_status: TaskStatus,
    /// When the task first ran, in milliseconds; `0` until then.
    pub begin_time_ms: usize,
    /// How often the task made each system call, by call number.
    pub syscall_times: BTreeMap<usize, u32>,
    pub memory_set: MemorySet,
}

struct TaskManagerInner {
    tasks: Vec<TaskControlBlock>,
    current_task: usize,
}

/// The task table and the task that runs now.
pub struct TaskManager {
    num_app: usize,
    inner: TaskManagerInner,
}

/// The `k`-th task after `cur` going round a table of `n` tasks.
pub open spec fn round(cur: int, n: int, k: int) -> int {
    (cur + k) % n
}

/// The first ready task going round a table of `n` from `cur` is `id`.
pub open spec fn next_ready(st: Seq<TaskStatus>, cur: int, n: int, id: int) -> bool {
    exists|k: int| #![trigger round(cur, n, k)] {
        &&& 1 <= k <= n
        &&& id == round(cur, n, k)
        &&& st[id] == TaskStatus::Ready
        &&& forall|j: int| 1 <= j < k ==> st[#[trigger] round(cur, n, j)] != TaskStatus::Ready
    }
}

/// No task of a table of `n` is ready.
pub open spec fn no_ready(st: Seq<TaskStatus>, cur: int, n: int) -> bool {
    forall|j: int| 1 <= j <= n ==> st[#[trigger] round(cur, n, j)] != TaskStatus::Ready
}

/// Viewing the tasks commutes with replacing one of them.
proof fn lemma_tasks_update(v: Seq<TaskControlBlock>, i: int, x: TaskControlBlock)
    requires
        0 <= i < v.len(),
    ensures
        v.update(i, x).map_values(|t: TaskControlBlock| t.task_status) == v.map_values(|t: TaskControlBlock| t.task_status).update(i, x.task_status),
        v.update(i, x).map_values(|t: TaskControlBlock| t.begin_time_ms) == v.map_values(|t: TaskControlBlock| t.begin_time_ms).update(i, x.begin_time_ms),
        v.update(i, x).map_values(|t: TaskControlBlock| t.syscall_times@) == v.map_values(|t: TaskControlBlock| t.syscall_times@).update(i, x.syscall_times@),
{
    assert(v.update(i, x).map_values(|t: TaskControlBlock| t.task_status) =~= v.map_values(|t: TaskControlBlock| t.task_status).update(i, x.task_status));
    assert(v.update(i, x).map_values(|t: TaskControlBlock| t.begin_time_ms) =~= v.map_values(|t: TaskControlBlock| t.begin_time_ms).update(i, x.begin_time_ms));
    assert(v.update(i, x).map_values(|t: TaskControlBlock| t.syscall_times@) =~= v.map_values(|t: TaskControlBlock| t.syscall_times@).update(i, x.syscall_times@));
}

impl TaskManager {
    /// The number of tasks.
    pub closed spec fn num_app(&self) -> nat {
        self.num_app as nat
    }

    /// The task that runs now.
    pub closed spec fn current(&self) -> int {
        self.inner.current_task as int
    }

    /// Where each task stands.
    pub closed spec fn statuses(&self) -> Seq<TaskStatus> {
        self.inner.tasks@.map_values(|t: TaskControlBlock| t.task_status)
    }

    /// When each task first ran, in milliseconds.
    pub closed spec fn begin_times(&self) -> Seq<usize> {
        self.inner.tasks@.map_values(|t: TaskControlBlock| t.begin_time_ms)
    }

    /// How often each task made each system call.
    pub closed spec fn syscall_counts(&self) -> Seq<Map<usize, u32>> {
        self.inner.tasks@.map_values(|t: TaskControlBlock| t.syscall_times@)
    }

    /// The address space of each task.
    pub closed spec fn memory_sets(&self) -> Seq<MemorySet> {
        self.inner.tasks@.map_values(|t: TaskControlBlock| t.memory_set)
    }

    /// The table's invariant: one entry per task, and the current task among them.
    pub closed spec fn wf(&self) -> bool {
        &&& self.inner.tasks@.len() == self.num_app
        &&& self.num_app > 0 ==> self.inner.current_task < self.num_app
    }

    /// What the invariant says of the views.
    pub proof fn lemma_wf(&self)
        requires
            self.wf(),
        ensures
            self.statuses().len() == self.num_app(),
            self.begin_times().len() == self.num_app(),
            self.syscall_counts().len() == self.num_app(),
            self.num_app() > 0 ==> 0 <= self.current() < self.num_app(),
    {
    }

    /// The table over `tasks`, with the first task as the current one.
    pub fn new(tasks: Vec<TaskControlBlock>) -> (tm: TaskManager)
        ensures
            tm.wf(),
            tm.num_app() == tasks@.len(),
            tm.current() == 0,
            tm.statuses() == tasks@.map_values(|t: TaskControlBlock| t.task_status),
            tm.begin_times() == tasks@.map_values(|t: TaskControlBlock| t.begin_time_ms),
            tm.syscall_counts() == tasks@.map_values(|t: TaskControlBlock| t.syscall_times@),
            tm.memory_sets() == tasks@.map_values(|t: TaskControlBlock| t.memory_set),
    {
        let num_app = tasks.len();
        TaskManager { num_app, inner: TaskManagerInner { tasks, current_task: 0 } }
    }

    /// The current task becomes ready to run again.
    pub fn mark_current_suspended(&mut self)
        requires
            old(self).wf(),
            old(self).num_app() > 0,
        ensures
            final(self).memory_sets() == old(self).memory_sets(),
            final(self).wf(),
            final(self).num_app() == old(self).num_app(),
            final(self).current() == old(self).current(),
            final(self).statuses() == old(self).statuses().update(old(self).current(), TaskStatus::Ready),
            final(self).begin_times() == old(self).begin_times(),
            final(self).syscall_counts() == old(self).syscall_counts(),
    {
        let current = self.inner.current_task;
        let ghost v0 = self.inner.tasks@;
        self.inner.tasks[current].task_status = TaskStatus::Ready;
        proof {
            lemma_tasks_update(v0, current as int, self.inner.tasks@[current as int]);
        }
    }

    /// The current task has ended.
    pub fn mark_current_exited(&mut self)
        requires
            old(self).wf(),
            old(self).num_app() > 0,
        ensures
            final(self).memory_sets() == old(self).memory_sets(),
            final(self).wf(),
            final(self).num_app() == old(self).num_app(),
            final(self).current() == old(self).current(),
            final(self).statuses() == old(self).statuses().update(old(self).current(), TaskStatus::Exited),
            final(self).begin_times() == old(self).begin_times(),
            final(self).syscall_counts() == old(self).syscall_counts(),
    {
        let current = self.inner.current_task;
        let ghost v0 = self.inner.tasks@;
        self.inner.tasks[current].task_status = TaskStatus::Exited;
        proof {
            lemma_tasks_update(v0, current as int, self.inner.tasks@[current as int]);
        }
    }

    /// The first ready task going round the table from the one after the current task.
    pub fn find_next_task(&self) -> (next: Option<usize>)
        requires
            self.wf(),
        ensures
            match next {
                Some(id) => next_ready(self.statuses(), self.current(), self.num_app() as int, id as int),
                None => no_ready(self.statuses(), self.current(), self.num_app() as int),
            },
    {
        let n = self.num_app;
        let current = self.inner.current_task;
        let mut k: usize = 0;
        while k < n
            invariant
                self.wf(),
                n == self.num_app(),
                current == self.current(),
                0 <= k <= n,
                forall|j: int| 1 <= j <= k ==> self.statuses()[round(current as int, n as int, j)] != TaskStatus::Ready,
            decreases n - k,
        {
            let step = k + 1;
            let offset = n - current;
            let id = if step < offset { current + step } else { step - offset };
            proof {
                assert(id == round(current as int, n as int, step as int)) by {
                    if step < offset {
                        assert((current + step) % (n as int) == current + step) by (nonlinear_arith)
                            requires 0 <= current + step < n;
                    } else {
                        assert((current + step) % (n as int) == step - offset) by (nonlinear_arith)
                            requires n <= current + step < 2 * n, offset == n - current;
                    }
                }
            }
            if self.inner.tasks[id].task_status == TaskStatus::Ready {
                return Some(id);
            }
            k = step;
        }
        None
    }

    /// The task that runs now.
    pub fn get_current_task(&self) -> (id: usize)
        ensures
            id == self.current(),
    {
        self.inner.current_task
    }

    /// Starts the first task: it becomes running, and when it has not run before, `now_us`
    /// (microseconds) becomes its start time in milliseconds.
    pub fn run_first_task(&mut self, now_us: usize)
        requires
            old(self).wf(),
            old(self).num_app() > 0,
        ensures
            final(self).memory_sets() == old(self).memory_sets(),
            final(self).wf(),
            final(self).num_app() == old(self).num_app(),
            final(self).current() == old(self).current(),
            final(self).statuses() == old(self).statuses().update(0, TaskStatus::Running),
            final(self).begin_times() == (if old(self).begin_times()[0] == 0 {
                old(self).begin_times().update(0, now_us / 1000)
            } else {
                old(self).begin_times()
            }),
            final(self).syscall_counts() == old(self).syscall_counts(),
    {
        let ghost v0 = self.inner.tasks@;
        self.inner.tasks[0].task_status = TaskStatus::Running;
        proof {
            lemma_tasks_update(v0, 0, self.inner.tasks@[0]);
        }
        if self.inner.tasks[0].begin_time_ms == 0 {
            let ghost v1 = self.inner.tasks@;
            self.inner.tasks[0].begin_time_ms = now_us / 1_000;
            proof {
                lemma_tasks_update(v1, 0, self.inner.tasks@[0]);
            }
        }
    }

    /// Switches to the next ready task, of which there must be one: it becomes running and
    /// current, and when it has not run before, `now_us` (microseconds) becomes its start
    /// time in milliseconds. Returns the task left and the task taken up.
    pub fn run_next_task(&mut self, now_us: usize) -> (switch: (usize, usize))
        requires
            old(self).wf(),
            !no_ready(old(self).statuses(), old(self).current(), old(self).num_app() as int),
        ensures
            final(self).memory_sets() == old(self).memory_sets(),
            final(self).wf(),
            final(self).num_app() == old(self).num_app(),
            final(self).syscall_counts() == old(self).syscall_counts(),
            ({
                let (cur, next) = switch;
                &&& cur == old(self).current()
                &&& next_ready(old(self).statuses(), old(self).current(), old(self).num_app() as int, next as int)
                &&& final(self).current() == next
                &&& final(self).statuses() == old(self).statuses().update(next as int, TaskStatus::Running)
                &&& final(self).begin_times() == (if old(self).begin_times()[next as int] == 0 {
                    old(self).begin_times().update(next as int, now_us / 1000)
                } else {
                    old(self).begin_times()
                })
            }),
    {
        let next = self.find_next_task().unwrap();
        let current = self.inner.current_task;
        let ghost v0 = self.inner.tasks@;
        self.inner.tasks[next].task_status = TaskStatus::Running;
        proof {
            lemma_tasks_update(v0, next as int, self.inner.tasks@[next as int]);
        }
        if self.inner.tasks[next].begin_time_ms == 0 {
            let ghost v1 = self.inner.tasks@;
            self.inner.tasks[next].begin_time_ms = now_us / 1_000;
            proof {
                lemma_tasks_update(v1, next as int, self.inner.tasks@[next as int]);
            }
        }
        self.inner.current_task = next;
        (current, next)
    }

    /// When the current task first ran, in milliseconds.
    pub fn get_current_begin_time_ms(&self) -> (t: usize)
        requires
            self.wf(),
            self.num_app() > 0,
        ensures
            t == self.begin_times()[self.current()],
    {
        let current = self.inner.current_task;
        self.inner.tasks[current].begin_time_ms
    }

    /// How often the current task made each system call, as a table by call number.
    pub fn get_current_syscall_times(&self) -> (times: [u32; 500])
        requires
            self.wf(),
            self.num_app() > 0,
            forall|id: usize| #[trigger] self.syscall_counts()[self.current()].contains_key(id) ==> id < MAX_SYSCALL_NUM,
        ensures
            forall|id: int| 0 <= id < MAX_SYSCALL_NUM ==> #[trigger] times[id] == (
                if self.syscall_counts()[self.current()].contains_key(id as usize) {
                    self.syscall_counts()[self.current()][id as usize]
                } else {
                    0
                }),
    {
        let current = self.inner.current_task;
        let mut syscall_times = [0u32; 500];
        let ghost counts = self.inner.tasks@[current as int].syscall_times@;
        assert(self.syscall_counts()[self.current()] == counts);
        let task = &self.inner.tasks[current];
        for kv in it: task.syscall_times.iter()
            invariant
                counts == task.syscall_times@,
                forall|id: usize| #[trigger] counts.contains_key(id) ==> id < MAX_SYSCALL_NUM,
                it.seq().len() == counts.dom().len(),
                forall|i: int| 0 <= i < it.seq().len() ==> #[trigger] counts.contains_key(*it.seq()[i].0)
                    && counts[*it.seq()[i].0] == *it.seq()[i].1,
                forall|k: usize| #[trigger] counts.contains_key(k) ==> it.seq().contains((&k, &counts[k])),
                it.seq().no_duplicates(),
                forall|id: int| 0 <= id < MAX_SYSCALL_NUM ==> #[trigger] syscall_times[id] == (
                    if exists|i: int| 0 <= i < it.index() && *it.seq()[i].0 == id {
                        counts[id as usize]
                    } else {
                        0
                    }),
        {
            let id = *kv.0;
            proof {
                assert(kv == it.seq()[it.index() as int]);
                assert(counts.contains_key(id));
            }
            syscall_times[id] = *kv.1;
        }
        syscall_times
    }

    /// How often the current task made system call `syscall_id`, if it made it at all.
    pub fn get_current_syscall_count(&self, syscall_id: usize) -> (c: Option<u32>)
        requires
            self.wf(),
            self.num_app() > 0,
        ensures
            c == (if self.syscall_counts()[self.current()].contains_key(syscall_id) {
                Some(self.syscall_counts()[self.current()][syscall_id])
            } else {
                None
            }),
    {
        let current = self.inner.current_task;
        assert(self.syscall_counts()[self.current()] == self.inner.tasks@[current as int].syscall_times@);
        match self.inner.tasks[current].syscall_times.get(&syscall_id) {
            Some(c) => Some(*c),
            None => None,
        }
    }

    /// Whether every system call the current task made has a number below
    /// `MAX_SYSCALL_NUM`, so that its count has a place in the table of counts.
    pub fn current_syscalls_fit(&self) -> (b: bool)
        requires
            self.wf(),
            self.num_app() > 0,
        ensures
            b == forall|id: usize| #[trigger] self.syscall_counts()[self.current()].contains_key(id)
                ==> id < MAX_SYSCALL_NUM,
    {
        let current = self.inner.current_task;
        let ghost counts = self.inner.tasks@[current as int].syscall_times@;
        assert(self.syscall_counts()[self.current()] == counts);
        let task = &self.inner.tasks[current];
        for kv in it: task.syscall_times.iter()
            invariant
                counts == task.syscall_times@,
                counts == self.syscall_counts()[self.current()],
                it.seq().len() == counts.dom().len(),
                forall|i: int| 0 <= i < it.seq().len() ==> #[trigger] counts.contains_key(*it.seq()[i].0),
                forall|k: usize| #[trigger] counts.contains_key(k) ==> it.seq().contains((&k, &counts[k])),
                forall|i: int| 0 <= i < it.index() ==> *(#[trigger] it.seq()[i]).0 < MAX_SYSCALL_NUM,
                it.index() == counts.dom().len() ==> forall|id: usize| #[trigger] counts.contains_key(id)
                    ==> id < MAX_SYSCALL_NUM,
        {
            if *kv.0 >= MAX_SYSCALL_NUM {
                proof {
                    assert(kv == it.seq()[it.index() as int]);
                    assert(counts.contains_key(*kv.0));
                }
                return false;
            }
            proof {
                assert(kv == it.seq()[it.index() as int]);
                if it.index() + 1 == counts.dom().len() {
                    assert forall|id: usize| #[trigger] counts.contains_key(id) implies id < MAX_SYSCALL_NUM by {
                        assert(it.seq().contains((&id, &counts[id])));
                        let i = choose|i: int| 0 <= i < it.seq().len() && it.seq()[i] == (&id, &counts[id]);
                        assert(*it.seq()[i].0 == id);
                        if i < it.index() {
                        } else {
                            assert(i == it.index());
                        }
                    }
                }
            }
        }
        true
    }

    /// Counts one more use of system call `syscall_id` by the current task.
    pub fn update_current_syscall_times(&mut self, syscall_id: usize)
        requires
            old(self).wf(),
            old(self).num_app() > 0,
            old(self).syscall_counts()[old(self).current()].contains_key(syscall_id)
                ==> old(self).syscall_counts()[old(self).current()][syscall_id] < u32::MAX,
        ensures
            final(self).memory_sets() == old(self).memory_sets(),
            final(self).wf(),
            final(self).num_app() == old(self).num_app(),
            final(self).current() == old(self).current(),
            final(self).statuses() == old(self).statuses(),
            final(self).begin_times() == old(self).begin_times(),
            ({
                let c = old(self).syscall_counts()[old(self).current()];
                let n = if c.contains_key(syscall_id) { c[syscall_id] + 1 } else { 1 };
                final(self).syscall_counts() == old(self).syscall_counts().update(
                    old(self).current(),
                    c.insert(syscall_id, n as u32),
                )
            }),
    {
        let current = self.inner.current_task;
        let count = match self.inner.tasks[current].syscall_times.get(&syscall_id) {
            Some(c) => *c,
            None => 0,
        };
        let ghost v0 = self.inner.tasks@;
        self.inner.tasks[current].syscall_times.insert(syscall_id, count + 1);
        proof {
            lemma_tasks_update(v0, current as int, self.inner.tasks@[current as int]);
        }
    }

    /// The address space of the current task.
    pub fn current_memory_set(&mut self) -> (ms: &mut MemorySet)
        requires
            old(self).wf(),
            old(self).num_app() > 0,
        ensures
            final(self).wf(),
            final(self).num_app() == old(self).num_app(),
            final(self).current() == old(self).current(),
            final(self).statuses() == old(self).statuses(),
            final(self).begin_times() == old(self).begin_times(),
            final(self).syscall_counts() == old(self).syscall_counts(),
            *ms == old(self).memory_sets()[old(self).current()],
            final(self).memory_sets() == old(self).memory_sets().update(old(self).current(), *final(ms)),
    {
        let current = self.inner.current_task;
        let ms = &mut self.inner.tasks[current].memory_set;
        ms
    }
}


/// `mmap` takes a page-aligned start and asks for some of read, write and execute, nothing else.
pub open spec fn mmap_args_ok(start: usize, port: usize) -> bool {
    &&& 0 < port < 8
    &&& start % PAGE_SIZE == 0
}

/// The rights `mmap` gives for `port`: user access, plus read, write and execute for
/// its bits 0, 1 and 2.
pub open spec fn port_perm(port: usize) -> u8 {
    (16 + (if port % 2 == 1 { 2int } else { 0 }) + (if (port / 2) % 2 == 1 { 4int } else { 0 })
        + (if (port / 4) % 2 == 1 { 8int } else { 0 })) as u8
}

/// The areas that adding `[lo, hi)` with rights `perm` will grow or join are there, and a
/// back area that will be joined owns a frame for each of its pages.
pub open spec fn mmap_areas_ready(areas: Seq<AreaView>, m: Map<usize, usize>, lo: usize, hi: usize, perm: u8) -> bool {
    let h = first_end_from(m, hi);
    !insert_blocked(m, lo, hi) ==> {
        &&& joins_left(m, lo, hi) ==> has_area(areas, m[lo], lo)
        &&& joins_right(m, hi) ==> has_area(areas, hi, h)
        &&& (joins_left(m, lo, hi) && joins_right(m, hi)
            && areas[first_area(areas, m[lo], lo)].perm == perm
            && areas[first_area(areas, hi, h)].perm == perm)
            ==> page_set(hi as int, h as int).subset_of(areas[first_area(areas, hi, h)].frames)
    }
}

/// The area that taking away `[lo, hi)` will shrink, drop or cut is there, and when it is
/// cut, it owns a frame for each page of the back part.
pub open spec fn munmap_areas_ready(areas: Seq<AreaView>, m: Map<usize, usize>, lo: usize, hi: usize) -> bool {
    let h = first_end_from(m, hi);
    let l = m[h];
    remove_fits(m, lo, hi) ==> {
        &&& has_area(areas, l, h)
        &&& (l < lo && hi < h) ==> page_set(hi as int, h as int).subset_of(areas[first_area(areas, l, h)].frames)
    }
}

/// Adding `[lo, hi)` joins a mapped range whose area has rights other than `perm`.
pub open spec fn rights_clash(areas: Seq<AreaView>, m: Map<usize, usize>, lo: usize, hi: usize, perm: u8) -> bool {
    let h = first_end_from(m, hi);
    ||| joins_left(m, lo, hi) && areas[first_area(areas, m[lo], lo)].perm != perm
    ||| joins_right(m, hi) && areas[first_area(areas, hi, h)].perm != perm
}

/// What `mmap` of `[start, start + len)` with rights `port` does to an address space with
/// mapped ranges `m0`, areas `a0` and pending page-table work `t0`, leaving `m1`, `a1`,
/// `t1` and returning `r`.
pub open spec fn mmap_spec(
    start: usize, len: usize, port: usize,
    m0: Map<usize, usize>, a0: Seq<AreaView>, t0: Seq<OpView>,
    m1: Map<usize, usize>, a1: Seq<AreaView>, t1: Seq<OpView>,
    r: isize,
) -> bool {
    let lo = floor_page(start as int) as usize;
    let hi = ceil_page(start + len) as usize;
    let h = first_end_from(m0, hi);
    let perm = port_perm(port);
    if !mmap_args_ok(start, port) || insert_blocked(m0, lo, hi) {
        &&& r == -1
        &&& m1 == m0
        &&& a1 == a0
        &&& t1 == t0
    } else {
        &&& r == 0
        &&& m1 == after_insert(m0, lo, hi)
        &&& if rights_clash(a0, m0, lo, hi, perm) {
            framed_area_added(a0, t0, a1, t1, lo as int, hi as int, perm)
        } else if joins_left(m0, lo, hi) && joins_right(m0, hi) {
            areas_combined(a0, t0, a1, t1, m0[lo], lo, hi, h, perm)
        } else if joins_left(m0, lo, hi) {
            area_extended(a0, t0, a1, t1, m0[lo], lo, m0[lo], hi, perm)
        } else if joins_right(m0, hi) {
            area_extended(a0, t0, a1, t1, hi, h, lo, h, perm)
        } else {
            framed_area_added(a0, t0, a1, t1, lo as int, hi as int, perm)
        }
    }
}

/// What `munmap` of `[start, start + len)` does to an address space with mapped ranges
/// `m0`, areas `a0` and pending page-table work `t0`, leaving `m1`, `a1`, `t1` and
/// returning `r`.
pub open spec fn munmap_spec(
    start: usize, len: usize,
    m0: Map<usize, usize>, a0: Seq<AreaView>, t0: Seq<OpView>,
    m1: Map<usize, usize>, a1: Seq<AreaView>, t1: Seq<OpView>,
    r: isize,
) -> bool {
    let lo = floor_page(start as int) as usize;
    let hi = ceil_page(start + len) as usize;
    let h = first_end_from(m0, hi);
    let l = m0[h];
    if start % PAGE_SIZE != 0 || (start + len) % (PAGE_SIZE as int) != 0 || !remove_fits(m0, lo, hi) {
        &&& r == -1
        &&& m1 == m0
        &&& a1 == a0
        &&& t1 == t0
    } else {
        &&& r == 0
        &&& m1 == after_remove(m0, lo, hi)
        &&& if l == lo && hi == h {
            area_removed(a0, t0, a1, t1, lo, hi)
        } else if hi == h {
            area_shrunk(a0, t0, a1, t1, l, h, l, lo)
        } else if l == lo {
            area_shrunk(a0, t0, a1, t1, l, h, hi, h)
        } else {
            area_split(a0, t0, a1, t1, l, lo, hi, h)
        }
    }
}

/// Some area runs over exactly the pages `[s, e)`, and the first such area is framed and
/// owns a frame for each of them.
pub open spec fn range_tracked(areas: Seq<AreaView>, s: usize, e: usize) -> bool {
    &&& has_area(areas, s, e)
    &&& areas[first_area(areas, s, e)].map_type == MapType::Framed
    &&& page_set(s as int, e as int).subset_of(areas[first_area(areas, s, e)].frames)
}

/// Every mapped range is tracked by an area.
pub open spec fn ranges_tracked(areas: Seq<AreaView>, m: Map<usize, usize>) -> bool {
    forall|e: usize| #[trigger] m.contains_key(e) ==> range_tracked(areas, m[e], e)
}

/// When every mapped range is tracked by an area, `mmap` and `munmap` find the areas they
/// work on, whatever range and rights they are given.
pub proof fn lemma_tracked_ranges_ready(areas: Seq<AreaView>, m: Map<usize, usize>, lo: usize, hi: usize, perm: u8)
    requires
        ranges_wf(m),
        ranges_tracked(areas, m),
        lo <= hi,
    ensures
        mmap_areas_ready(areas, m, lo, hi, perm),
        munmap_areas_ready(areas, m, lo, hi),
{
    if has_end_from(m, hi) {
        lemma_first_end_exists(m, hi);
        let h = first_end_from(m, hi);
        assert(m.contains_key(h));
        let f = areas[first_area(areas, m[h], h)].frames;
        if m[h] <= hi {
            assert forall|p: usize| page_set(hi as int, h as int).contains(p) implies f.contains(p) by {
                assert(page_set(m[h] as int, h as int).contains(p));
            }
        }
    }
}

/// No area before index `i` runs over the pages `[s, e)`.
pub open spec fn none_before(areas: Seq<AreaView>, s: usize, e: usize, i: int) -> bool {
    forall|j: int| 0 <= j < i ==> !area_spans(#[trigger] areas[j], s, e)
}

/// Replacing an area that does not run over `[s, e)` by another that does not either
/// leaves the first area over `[s, e)` where it was.
proof fn lemma_first_area_after_update(areas: Seq<AreaView>, i: int, x: AreaView, s: usize, e: usize)
    requires
        0 <= i < areas.len(),
        has_area(areas, s, e),
        !area_spans(areas[i], s, e),
        !area_spans(x, s, e),
    ensures
        has_area(areas.update(i, x), s, e),
        first_area(areas.update(i, x), s, e) == first_area(areas, s, e),
{
    lemma_first_area_exists(areas, s, e);
    let k = first_area(areas, s, e);
    let a1 = areas.update(i, x);
    assert forall|j: int| 0 <= j < k implies !area_spans(#[trigger] a1[j], s, e) by {
        if j != i {
            assert(!area_spans(areas[j], s, e));
        }
    }
    lemma_first_area_is(a1, s, e, k);
}

/// Dropping an area that does not run over `[s, e)` keeps the first area over `[s, e)`,
/// one place lower when it stood after the dropped one.
proof fn lemma_first_area_after_remove(areas: Seq<AreaView>, i: int, s: usize, e: usize)
    requires
        0 <= i < areas.len(),
        has_area(areas, s, e),
        !area_spans(areas[i], s, e),
    ensures
        has_area(areas.remove(i), s, e),
        first_area(areas.remove(i), s, e) == (if first_area(areas, s, e) < i {
            first_area(areas, s, e)
        } else {
            first_area(areas, s, e) - 1
        }),
{
    lemma_first_area_exists(areas, s, e);
    let k = first_area(areas, s, e);
    let a1 = areas.remove(i);
    let k1 = if k < i { k } else { k - 1 };
    assert forall|j: int| 0 <= j < k1 implies !area_spans(#[trigger] a1[j], s, e) by {
        if j < i {
            assert(!area_spans(areas[j], s, e));
        } else {
            assert(!area_spans(areas[j + 1], s, e));
        }
    }
    lemma_first_area_is(a1, s, e, k1);
}

/// Adding an area at the back keeps the first area over `[s, e)`.
proof fn lemma_first_area_after_push(areas: Seq<AreaView>, x: AreaView, s: usize, e: usize)
    requires
        has_area(areas, s, e),
    ensures
        has_area(areas.push(x), s, e),
        first_area(areas.push(x), s, e) == first_area(areas, s, e),
{
    lemma_first_area_exists(areas, s, e);
    let k = first_area(areas, s, e);
    let a1 = areas.push(x);
    assert forall|j: int| 0 <= j < k implies !area_spans(#[trigger] a1[j], s, e) by {
        assert(!area_spans(areas[j], s, e));
    }
    lemma_first_area_is(a1, s, e, k);
}

/// `mmap` of the pages `[lo, hi)` with rights `perm` leaves every mapped range tracked:
/// the areas it grows have the rights `perm`, and no area ahead of the one that will run
/// over a grown or new range already runs over that range.
pub open spec fn mmap_keeps_tracking(areas: Seq<AreaView>, m: Map<usize, usize>, lo: usize, hi: usize, perm: u8) -> bool {
    let h = first_end_from(m, hi);
    let fi = first_area(areas, m[lo], lo);
    let bi = first_area(areas, hi, h);
    !insert_blocked(m, lo, hi) ==> !rights_clash(areas, m, lo, hi, perm) && if joins_left(m, lo, hi) && joins_right(m, hi) {
        none_before(areas, m[lo], h, fi)
    } else if joins_left(m, lo, hi) {
        none_before(areas, m[lo], hi, fi)
    } else if joins_right(m, hi) {
        lo < hi ==> none_before(areas, lo, h, bi)
    } else {
        !has_area(areas, lo, hi)
    }
}

/// `munmap` of the pages `[lo, hi)` leaves every mapped range tracked: no area ahead of
/// the one that shrinks already runs over the part it keeps, and, when the range is cut in
/// two, no area runs over the back part that moves into an area of its own.
pub open spec fn munmap_keeps_tracking(areas: Seq<AreaView>, m: Map<usize, usize>, lo: usize, hi: usize) -> bool {
    let h = first_end_from(m, hi);
    let l = m[h];
    let i = first_area(areas, l, h);
    remove_fits(m, lo, hi) ==> {
        &&& l < lo ==> none_before(areas, l, lo, i)
        &&& hi < h ==> if l < lo {
            !has_area(areas, hi, h)
        } else {
            none_before(areas, hi, h, i)
        }
    }
}

/// Bit tests of `mmap`'s arguments, as arithmetic.
proof fn lemma_mmap_bits(start: usize, port: usize)
    ensures
        ((port & !0b111usize) != 0 || (port & 0b111usize) == 0 || (start & 4095usize) != 0)
            <==> !(0 < port < 8 && start % 4096 == 0),
        port < 8 ==> ((port & 0b001usize) != 0 <==> port % 2 == 1),
        port < 8 ==> ((port & 0b010usize) != 0 <==> (port / 2) % 2 == 1),
        port < 8 ==> ((port & 0b100usize) != 0 <==> (port / 4) % 2 == 1),
{
    assert((port & !0b111usize) != 0 <==> port >= 8) by (bit_vector);
    assert(port < 8 ==> ((port & 0b111usize) == 0 <==> port == 0)) by (bit_vector);
    assert((start & 4095usize) == start % 4096) by (bit_vector);
    assert(port < 8 ==> ((port & 0b001usize) != 0 <==> port % 2 == 1)) by (bit_vector);
    assert(port < 8 ==> ((port & 0b010usize) != 0 <==> (port / 2) % 2 == 1)) by (bit_vector);
    assert(port < 8 ==> ((port & 0b100usize) != 0 <==> (port / 4) % 2 == 1)) by (bit_vector);
}

/// The rights `mmap` gives for `port`.
fn perm_of_port(port: usize) -> (p: MapPermission)
    requires
        port < 8,
    ensures
        p.bits == port_perm(port),
{
    proof {
        lemma_mmap_bits(0, port);
    }
    let ghost rb: u8 = if port % 2 == 1 { 2u8 } else { 0u8 };
    let ghost wb: u8 = if (port / 2) % 2 == 1 { 4u8 } else { 0u8 };
    let ghost xb: u8 = if (port / 4) % 2 == 1 { 8u8 } else { 0u8 };
    proof {
        assert(forall|v: u8| #[trigger] (v | 0u8) == v) by (bit_vector);
    }
    let mut map_perm = MapPermission::u();
    if port & 0b001 != 0 {
        map_perm = map_perm.union(MapPermission::r());
    }
    assert(map_perm.bits == (16u8 | rb));
    if port & 0b010 != 0 {
        map_perm = map_perm.union(MapPermission::w());
    }
    assert(map_perm.bits == ((16u8 | rb) | wb));
    if port & 0b100 != 0 {
        map_perm = map_perm.union(MapPermission::x());
    }
    assert(map_perm.bits == (((16u8 | rb) | wb) | xb));
    proof {
        let b = map_perm.bits;
        assert(b == 16 + rb + wb + xb) by (bit_vector)
            requires
                b == (((16u8 | rb) | wb) | xb),
                rb == 0 || rb == 2,
                wb == 0 || wb == 4,
                xb == 0 || xb == 8,
        ;
    }
    map_perm
}

/// The work of [`task_memory_set_mmap`], as `mmap_spec` describes it.
fn mmap_pages(memory_set: &mut MemorySet, start: usize, len: usize, port: usize) -> (r: isize)
    requires
        old(memory_set).wf(),
        mmap_args_ok(start, port) ==> start + len <= usize::MAX,
        mmap_args_ok(start, port) ==> mmap_areas_ready(
            old(memory_set).areas(),
            old(memory_set).ranges(),
            floor_page(start as int) as usize,
            ceil_page(start + len) as usize,
            port_perm(port),
        ),
    ensures
        final(memory_set).wf(),
        mmap_spec(
            start,
            len,
            port,
            old(memory_set).ranges(),
            old(memory_set).areas(),
            old(memory_set).ops(),
            final(memory_set).ranges(),
            final(memory_set).areas(),
            final(memory_set).ops(),
            r,
        ),
{
    proof {
        lemma_mmap_bits(start, port);
    }
    if port & !0b111 != 0 || port & 0b111 == 0 || start & (PAGE_SIZE - 1) != 0 {
        return -1;
    }

    let map_perm = perm_of_port(port);

    let (start_va, end_va) = (VirtAddr(start), VirtAddr(start + len));
    let vpn_rng = VPNRange::new(start_va.floor(), end_va.ceil());

    let ghost areas = memory_set.areas();
    let mut probe = memory_set.range_manager().clone();
    let clash = match probe.insert(&vpn_rng) {
        Some(RangesChanged::Extended(prev_range, _)) => match memory_set.find_area_idx(prev_range) {
            Some(i) => {
                proof {
                    lemma_first_area_is(areas, prev_range.start(), prev_range.end(), i as int);
                }
                memory_set.area_perm(i) != map_perm.bits
            },
            None => false,
        },
        Some(RangesChanged::Combined(front, back)) => {
            match (memory_set.find_area_idx(front), memory_set.find_area_idx(back)) {
                (Some(fi), Some(bi)) => {
                    proof {
                        lemma_first_area_is(areas, front.start(), front.end(), fi as int);
                        lemma_first_area_is(areas, back.start(), back.end(), bi as int);
                    }
                    memory_set.area_perm(fi) != map_perm.bits || memory_set.area_perm(bi) != map_perm.bits
                },
                _ => false,
            }
        },
        _ => false,
    };
    let range_manager = memory_set.borrow_range_manager();
    let res = range_manager.insert(&vpn_rng);
    if clash {
        memory_set.insert_framed_area(start_va, end_va, map_perm);
        return 0;
    }
    match res {
        None => {
            return -1;
        },
        Some(RangesChanged::Inserted(_)) => {
            memory_set.insert_framed_area(start_va, end_va, map_perm);
            return 0;
        },
        Some(RangesChanged::Extended(prev_range, new_range)) => {
            memory_set.extend_framed_area(prev_range, new_range, map_perm);
            return 0;
        },
        Some(RangesChanged::Combined(front, back)) => {
            memory_set.combine_framed_area(front, back, map_perm);
            return 0;
        },
        _ => {},
    }
    -1
}

/// The work of [`task_memory_set_unmmap`], as `munmap_spec` describes it.
fn munmap_pages(memory_set: &mut MemorySet, start: usize, len: usize) -> (r: isize)
    requires
        old(memory_set).wf(),
        start + len <= usize::MAX,
        (start % PAGE_SIZE == 0 && (start + len) % (PAGE_SIZE as int) == 0) ==> munmap_areas_ready(
            old(memory_set).areas(),
            old(memory_set).ranges(),
            floor_page(start as int) as usize,
            ceil_page(start + len) as usize,
        ),
    ensures
        final(memory_set).wf(),
        munmap_spec(
            start,
            len,
            old(memory_set).ranges(),
            old(memory_set).areas(),
            old(memory_set).ops(),
            final(memory_set).ranges(),
            final(memory_set).areas(),
            final(memory_set).ops(),
            r,
        ),
{
    let (start_va, end_va) = (VirtAddr(start), VirtAddr(start + len));
    proof {
        assert((start & 4095usize) == start % 4096) by (bit_vector);
        let e = (start + len) as usize;
        assert((e & 4095usize) == e % 4096) by (bit_vector);
    }
    if start & (PAGE_SIZE - 1) != 0 || (start + len) & (PAGE_SIZE - 1) != 0 {
        return -1;
    }
    let vpn_rng = VPNRange::new(start_va.floor(), end_va.ceil());
    proof {
        let m = memory_set.ranges();
        if has_end_from(m, vpn_rng.end()) {
            lemma_first_end_exists(m, vpn_rng.end());
        }
    }

    let range_manager = memory_set.borrow_range_manager();
    let res = range_manager.remove(&vpn_rng);
    match res {
        None => {
            return -1;
        },
        Some(RangesChanged::Removed(_)) => {
            memory_set.remove_framed_area(vpn_rng);
            return 0;
        },
        Some(RangesChanged::Shrinked(prev_range, new_range)) => {
            memory_set.shrink_framed_area(prev_range, new_range);
            return 0;
        },
        Some(RangesChanged::Splitted(front, back)) => {
            memory_set.split_framed_area(front, back);
            return 0;
        },
        _ => {},
    }
    -1
}

/// Maps `[start, start + len)` into `memory_set` with the rights `port` asks for.
/// Returns `-1` for bad arguments or when a mapped range stands in the way; otherwise the
/// range is recorded, joined with touching ranges, its pages mapped with those rights, and
/// `0` returned. The area of a joined range grows over the new pages when it has the same
/// rights; when a joined range's area has other rights, the new pages get an area of their
/// own instead.
pub fn task_memory_set_mmap(memory_set: &mut MemorySet, start: usize, len: usize, port: usize) -> (r: isize)
    requires
        mmap_args_ok(start, port) ==> start + len <= usize::MAX,
        mmap_args_ok(start, port) ==> mmap_areas_ready(
            old(memory_set).areas(),
            old(memory_set).ranges(),
            floor_page(start as int) as usize,
            ceil_page(start + len) as usize,
            port_perm(port),
        ),
    ensures
        final(memory_set).wf(),
        mmap_spec(
            start,
            len,
            port,
            old(memory_set).ranges(),
            old(memory_set).areas(),
            old(memory_set).ops(),
            final(memory_set).ranges(),
            final(memory_set).areas(),
            final(memory_set).ops(),
            r,
        ),
        r == 0 ==> page_span(floor_page(start as int), ceil_page(start + len)).subset_of(
            pages_with(final(memory_set).areas(), port_perm(port)),
        ),
        ranges_covered(old(memory_set).areas(), old(memory_set).ranges()) ==> ranges_covered(
            final(memory_set).areas(),
            final(memory_set).ranges(),
        ),
{
    let ranges = memory_set.range_manager();
    proof {
        use_type_invariant(ranges);
    }
    let r = mmap_pages(memory_set, start, len, port);
    proof {
        lemma_mmap_covers(
            start,
            len,
            port,
            old(memory_set).ranges(),
            old(memory_set).areas(),
            old(memory_set).ops(),
            memory_set.ranges(),
            memory_set.areas(),
            memory_set.ops(),
            r,
        );
    }
    r
}

/// Unmaps `[start, start + len)` from `memory_set`. Returns `-1` when either end is not
/// page-aligned or the pages do not all lie in one mapped range; otherwise that range
/// loses them, the area over it is dropped, shrunk or cut to match, and `0` is returned.
/// The pages given up lose their frames; a dropped area or a cut middle gives its frames
/// back without removing the page-table entries.
pub fn task_memory_set_unmmap(memory_set: &mut MemorySet, start: usize, len: usize) -> (r: isize)
    requires
        start + len <= usize::MAX,
        (start % PAGE_SIZE == 0 && (start + len) % (PAGE_SIZE as int) == 0) ==> munmap_areas_ready(
            old(memory_set).areas(),
            old(memory_set).ranges(),
            floor_page(start as int) as usize,
            ceil_page(start + len) as usize,
        ),
    ensures
        final(memory_set).wf(),
        munmap_spec(
            start,
            len,
            old(memory_set).ranges(),
            old(memory_set).areas(),
            old(memory_set).ops(),
            final(memory_set).ranges(),
            final(memory_set).areas(),
            final(memory_set).ops(),
            r,
        ),
        ranges_covered(old(memory_set).areas(), old(memory_set).ranges()) ==> ranges_covered(
            final(memory_set).areas(),
            final(memory_set).ranges(),
        ),
{
    let ranges = memory_set.range_manager();
    proof {
        use_type_invariant(ranges);
    }
    let r = munmap_pages(memory_set, start, len);
    proof {
        lemma_munmap_covers(
            start,
            len,
            old(memory_set).ranges(),
            old(memory_set).areas(),
            old(memory_set).ops(),
            memory_set.ranges(),
            memory_set.areas(),
            memory_set.ops(),
            r,
        );
    }
    r
}

/// The pages that some area runs over.
pub open spec fn area_pages(areas: Seq<AreaView>) -> Set<int> {
    Set::new(|p: int| exists|i: int| 0 <= i < areas.len() && (#[trigger] areas[i]).start <= p < areas[i].end)
}

/// The pages that some area with rights `perm` runs over.
pub open spec fn pages_with(areas: Seq<AreaView>, perm: u8) -> Set<int> {
    Set::new(
        |p: int| exists|i: int|
            0 <= i < areas.len() && (#[trigger] areas[i]).start <= p < areas[i].end && areas[i].perm == perm,
    )
}

/// Every page of a mapped range lies in some area.
pub open spec fn ranges_covered(areas: Seq<AreaView>, m: Map<usize, usize>) -> bool {
    covered(m).subset_of(area_pages(areas))
}

/// A successful `mmap` leaves its pages in areas with the rights it asked for, and keeps
/// every page of a mapped range in some area.
proof fn lemma_mmap_covers(
    start: usize, len: usize, port: usize,
    m0: Map<usize, usize>, a0: Seq<AreaView>, t0: Seq<OpView>,
    m1: Map<usize, usize>, a1: Seq<AreaView>, t1: Seq<OpView>, r: isize,
)
    requires
        ranges_wf(m0),
        mmap_args_ok(start, port) ==> start + len <= usize::MAX,
        mmap_args_ok(start, port) ==> mmap_areas_ready(
            a0,
            m0,
            floor_page(start as int) as usize,
            ceil_page(start + len) as usize,
            port_perm(port),
        ),
        mmap_spec(start, len, port, m0, a0, t0, m1, a1, t1, r),
    ensures
        r == 0 ==> page_span(floor_page(start as int), ceil_page(start + len)).subset_of(pages_with(a1, port_perm(port))),
        ranges_covered(a0, m0) ==> ranges_covered(a1, m1),
{
    let lo = floor_page(start as int) as usize;
    let hi = ceil_page(start + len) as usize;
    let perm = port_perm(port);
    if !mmap_args_ok(start, port) || insert_blocked(m0, lo, hi) {
        return;
    }
    vstd::arithmetic::div_mod::lemma_div_is_ordered(start as int, start + len + 4095, 4096);
    assert(lo <= hi);
    lemma_insert_covers(m0, lo, hi);
    let h = first_end_from(m0, hi);
    if joins_right(m0, hi) {
        lemma_first_end_exists(m0, hi);
        assert(m0.contains_key(h));
    }
    let span = page_span(lo as int, hi as int);
    let mut k: int = 0;
    if rights_clash(a0, m0, lo, hi, perm) {
        let n = a0.len() as int;
        let x = a1[n];
        assert(a1 == a0.push(x));
        assert forall|p: int| area_pages(a0).contains(p) implies #[trigger] area_pages(a1).contains(p) by {
            let i = choose|i: int| 0 <= i < a0.len() && (#[trigger] a0[i]).start <= p < a0[i].end;
            assert(a1[i] == a0[i]);
        }
        k = n;
    } else if joins_left(m0, lo, hi) && joins_right(m0, hi) {
        let l = m0[lo];
        let fi = first_area(a0, l, lo);
        let bi = first_area(a0, hi, h);
        assert(m0.contains_key(lo));
        lemma_first_area_exists(a0, l, lo);
        lemma_first_area_exists(a0, hi, h);
        assert(fi != bi);
        let idx = if bi < fi { fi - 1 } else { fi };
        let a2 = a1[idx];
        let u = a0.update(fi, a2);
        assert(a1 == u.remove(bi));
        assert(a2.start == l && a2.end == h && a2.perm == perm);
        assert forall|p: int| area_pages(a0).contains(p) implies #[trigger] area_pages(a1).contains(p) by {
            let i = choose|i: int| 0 <= i < a0.len() && (#[trigger] a0[i]).start <= p < a0[i].end;
            if i == fi || i == bi {
                assert(a1[idx].start <= p < a1[idx].end);
            } else if i < bi {
                assert(a1[i] == a0[i]);
            } else {
                assert(a1[i - 1] == a0[i]);
            }
        }
        k = idx;
    } else if joins_left(m0, lo, hi) {
        let l = m0[lo];
        let fi = first_area(a0, l, lo);
        assert(m0.contains_key(lo));
        lemma_first_area_exists(a0, l, lo);
        let a2 = a1[fi];
        assert(a1 == a0.update(fi, a2));
        assert(a2.start == l && a2.end == hi && a2.perm == perm);
        assert forall|p: int| area_pages(a0).contains(p) implies #[trigger] area_pages(a1).contains(p) by {
            let i = choose|i: int| 0 <= i < a0.len() && (#[trigger] a0[i]).start <= p < a0[i].end;
            assert(a1[i].start <= p < a1[i].end);
        }
        k = fi;
    } else if joins_right(m0, hi) {
        let bi = first_area(a0, hi, h);
        lemma_first_area_exists(a0, hi, h);
        if lo == hi {
            assert(m1 =~= m0);
            assert(a1 == a0);
        } else {
            let a2 = a1[bi];
            assert(a1 == a0.update(bi, a2));
            assert(a2.start == lo && a2.end == h && a2.perm == perm);
            assert forall|p: int| area_pages(a0).contains(p) implies #[trigger] area_pages(a1).contains(p) by {
                let i = choose|i: int| 0 <= i < a0.len() && (#[trigger] a0[i]).start <= p < a0[i].end;
                assert(a1[i].start <= p < a1[i].end);
            }
        }
        k = bi;
    } else {
        let n = a0.len() as int;
        let x = a1[n];
        assert(a1 == a0.push(x));
        assert forall|p: int| area_pages(a0).contains(p) implies #[trigger] area_pages(a1).contains(p) by {
            let i = choose|i: int| 0 <= i < a0.len() && (#[trigger] a0[i]).start <= p < a0[i].end;
            assert(a1[i] == a0[i]);
        }
        k = n;
    }
    assert forall|p: int| span.contains(p) implies #[trigger] pages_with(a1, perm).contains(p) by {
        assert(a1[k].start <= p < a1[k].end && a1[k].perm == perm);
    }
    assert forall|p: int| pages_with(a1, perm).contains(p) implies #[trigger] area_pages(a1).contains(p) by {
        let i = choose|i: int| 0 <= i < a1.len() && (#[trigger] a1[i]).start <= p < a1[i].end && a1[i].perm == perm;
        assert(a1[i].start <= p < a1[i].end);
    }
}

/// A successful `munmap` keeps every page of a mapped range in some area.
proof fn lemma_munmap_covers(
    start: usize, len: usize,
    m0: Map<usize, usize>, a0: Seq<AreaView>, t0: Seq<OpView>,
    m1: Map<usize, usize>, a1: Seq<AreaView>, t1: Seq<OpView>, r: isize,
)
    requires
        ranges_wf(m0),
        start + len <= usize::MAX,
        (start % PAGE_SIZE == 0 && (start + len) % (PAGE_SIZE as int) == 0) ==> munmap_areas_ready(
            a0,
            m0,
            floor_page(start as int) as usize,
            ceil_page(start + len) as usize,
        ),
        munmap_spec(start, len, m0, a0, t0, m1, a1, t1, r),
    ensures
        ranges_covered(a0, m0) ==> ranges_covered(a1, m1),
{
    let lo = floor_page(start as int) as usize;
    let hi = ceil_page(start + len) as usize;
    if start % PAGE_SIZE != 0 || (start + len) % (PAGE_SIZE as int) != 0 || !remove_fits(m0, lo, hi) {
        return;
    }
    vstd::arithmetic::div_mod::lemma_div_is_ordered(start as int, start + len + 4095, 4096);
    assert(lo <= hi);
    lemma_remove_uncovers(m0, lo, hi);
    lemma_first_end_exists(m0, hi);
    let h = first_end_from(m0, hi);
    let l = m0[h];
    assert(m0.contains_key(h));
    let ix = first_area(a0, l, h);
    lemma_first_area_exists(a0, l, h);
    let span = page_span(lo as int, hi as int);
    if ranges_covered(a0, m0) {
        assert forall|p: int| covered(m1).contains(p) implies #[trigger] area_pages(a1).contains(p) by {
            assert(covered(m0).contains(p) && !span.contains(p));
            assert(area_pages(a0).contains(p));
            let i = choose|i: int| 0 <= i < a0.len() && (#[trigger] a0[i]).start <= p < a0[i].end;
            if l == lo && hi == h {
                assert(a1 == a0.remove(ix));
                if i < ix {
                    assert(a1[i] == a0[i]);
                } else {
                    assert(a1[i - 1] == a0[i]);
                }
            } else if hi == h {
                if lo == h {
                    assert(a1 == a0);
                } else {
                    assert(a1 == a0.update(ix, a1[ix]));
                    assert(a1[i].start <= p < a1[i].end);
                }
            } else if l == lo {
                if lo == hi {
                    assert(a1 == a0);
                } else {
                    assert(a1 == a0.update(ix, a1[ix]));
                    assert(a1[i].start <= p < a1[i].end);
                }
            } else {
                let n = a0.len() as int;
                assert(a1 == a0.update(ix, a1[ix]).push(a1[n]));
                if i == ix && p >= hi {
                    assert(a1[n].start <= p < a1[n].end);
                } else {
                    assert(a1[i].start <= p < a1[i].end);
                }
            }
        }
    }
}

/// Whether [`task_memory_set_mmap`] can run on `memory_set` with these arguments: they are
/// refused as bad, or the range they name fits in the address space and the areas the
/// mapping will grow or join are there.
pub fn mmap_can_run(memory_set: &MemorySet, start: usize, len: usize, port: usize) -> (ok: bool)
    ensures
        ok == (mmap_args_ok(start, port) ==> start + len <= usize::MAX && mmap_areas_ready(
            memory_set.areas(),
            memory_set.ranges(),
            floor_page(start as int) as usize,
            ceil_page(start + len) as usize,
            port_perm(port),
        )),
{
    proof {
        lemma_mmap_bits(start, port);
    }
    if port & !0b111 != 0 || port & 0b111 == 0 || start & (PAGE_SIZE - 1) != 0 {
        return true;
    }
    if start > usize::MAX - len {
        return false;
    }
    let perm = perm_of_port(port).bits;
    let vpn_rng = VPNRange::new(VirtAddr(start).floor(), VirtAddr(start + len).ceil());
    let ghost areas = memory_set.areas();
    let mut probe = memory_set.range_manager().clone();
    match probe.insert(&vpn_rng) {
        Some(RangesChanged::Extended(prev, _)) => memory_set.find_area_idx(prev).is_some(),
        Some(RangesChanged::Combined(front, back)) => {
            match (memory_set.find_area_idx(front), memory_set.find_area_idx(back)) {
                (Some(fi), Some(bi)) => {
                    proof {
                        lemma_first_area_is(areas, front.start(), front.end(), fi as int);
                        lemma_first_area_is(areas, back.start(), back.end(), bi as int);
                    }
                    memory_set.area_perm(fi) != perm || memory_set.area_perm(bi) != perm
                        || memory_set.area_owns_pages(bi, back.get_start().0, back.get_end().0)
                },
                _ => false,
            }
        },
        _ => true,
    }
}

/// Whether [`task_memory_set_unmmap`] can run on `memory_set` with these arguments: the
/// range they name fits in the address space, and, when they are accepted, the area that
/// will shrink, go or be cut is there, owning the pages that a cut moves out of it.
pub fn munmap_can_run(memory_set: &MemorySet, start: usize, len: usize) -> (ok: bool)
    ensures
        ok == (start + len <= usize::MAX && ((start % PAGE_SIZE == 0 && (start + len) % (PAGE_SIZE as int) == 0)
            ==> munmap_areas_ready(
            memory_set.areas(),
            memory_set.ranges(),
            floor_page(start as int) as usize,
            ceil_page(start + len) as usize,
        ))),
{
    let ranges = memory_set.range_manager();
    proof {
        use_type_invariant(ranges);
    }
    if start > usize::MAX - len {
        return false;
    }
    proof {
        assert((start & 4095usize) == start % 4096) by (bit_vector);
        let e = (start + len) as usize;
        assert((e & 4095usize) == e % 4096) by (bit_vector);
    }
    if start & (PAGE_SIZE - 1) != 0 || (start + len) & (PAGE_SIZE - 1) != 0 {
        return true;
    }
    let vpn_rng = VPNRange::new(VirtAddr(start).floor(), VirtAddr(start + len).ceil());
    let ghost m = memory_set.ranges();
    let ghost areas = memory_set.areas();
    proof {
        if has_end_from(m, vpn_rng.end()) {
            lemma_first_end_exists(m, vpn_rng.end());
        }
    }
    let mut probe = memory_set.range_manager().clone();
    match probe.remove(&vpn_rng) {
        Some(RangesChanged::Removed(r)) => memory_set.find_area_idx(r).is_some(),
        Some(RangesChanged::Shrinked(prev, _)) => memory_set.find_area_idx(prev).is_some(),
        Some(RangesChanged::Splitted(front, back)) => {
            let whole = VPNRange::new(front.get_start(), back.get_end());
            match memory_set.find_area_idx(whole) {
                Some(i) => {
                    proof {
                        lemma_first_area_is(areas, whole.start(), whole.end(), i as int);
                    }
                    memory_set.area_owns_pages(i, back.get_start().0, back.get_end().0)
                },
                None => false,
            }
        },
        _ => true,
    }
}

/// Unmapping a range right after mapping it with success, when the mapping joined no
/// other mapped range and no area ran over exactly that range before, gives back the same
/// mapped ranges and areas; the page-table work maps each page with a fresh frame, and then
/// gives each of those frames back.
pub proof fn lemma_mmap_then_munmap(
    start: usize, len: usize, port: usize,
    m0: Map<usize, usize>, a0: Seq<AreaView>, t0: Seq<OpView>,
    m1: Map<usize, usize>, a1: Seq<AreaView>, t1: Seq<OpView>, r1: isize,
    m2: Map<usize, usize>, a2: Seq<AreaView>, t2: Seq<OpView>, r2: isize,
)
    requires
        ranges_wf(m0),
        start + len <= usize::MAX,
        len > 0,
        len % PAGE_SIZE == 0,
        !joins_left(m0, (start / PAGE_SIZE) as usize, ((start + len) / (PAGE_SIZE as int)) as usize),
        !joins_right(m0, ((start + len) / (PAGE_SIZE as int)) as usize),
        !has_area(a0, (start / PAGE_SIZE) as usize, ((start + len) / (PAGE_SIZE as int)) as usize),
        mmap_spec(start, len, port, m0, a0, t0, m1, a1, t1, r1),
        r1 == 0,
        munmap_spec(start, len, m1, a1, t1, m2, a2, t2, r2),
    ensures
        r2 == 0,
        m2 == m0,
        a2 == a0,
        t1 == t0 + map_ops(
            MapType::Framed,
            port_perm(port),
            (start / PAGE_SIZE) as int,
            (start + len) / (PAGE_SIZE as int),
        ),
        t2.len() >= t1.len(),
        t2.subrange(0, t1.len() as int) == t1,
        releases(
            t2.subrange(t1.len() as int, t2.len() as int),
            page_set((start / PAGE_SIZE) as int, (start + len) / (PAGE_SIZE as int)),
        ),
{
    let lo = (start / PAGE_SIZE) as usize;
    let hi = ((start + len) / (PAGE_SIZE as int)) as usize;
    assert(floor_page(start as int) == lo);
    assert(ceil_page(start + len) == hi);
    assert(lo < hi);
    assert(mmap_args_ok(start, port) && !insert_blocked(m0, lo, hi));
    lemma_insert_then_remove(m0, lo, hi);
    assert(m1 == m0.insert(hi, lo));
    assert(is_first_end_from(m1, hi, hi));
    lemma_first_end_from(m1, hi, hi);
    let n = a0.len() as int;
    assert(is_first_area(a1, lo, hi, n));
    lemma_first_area_unique(a1, lo, hi, n, first_area(a1, lo, hi));
    assert(a1.remove(n) =~= a0);
}

/// Mapping a range keeps every mapped range tracked by a framed area that owns its pages,
/// when the areas the mapping grows have the rights it asks for and no other area ahead of
/// the ones it grows or adds already runs over the range they come to cover.
pub proof fn lemma_mmap_keeps_ranges_tracked(
    start: usize, len: usize, port: usize,
    m0: Map<usize, usize>, a0: Seq<AreaView>, t0: Seq<OpView>,
    m1: Map<usize, usize>, a1: Seq<AreaView>, t1: Seq<OpView>, r: isize,
)
    requires
        ranges_wf(m0),
        ranges_tracked(a0, m0),
        mmap_args_ok(start, port) ==> start + len <= usize::MAX,
        mmap_args_ok(start, port) ==> mmap_keeps_tracking(
            a0,
            m0,
            floor_page(start as int) as usize,
            ceil_page(start + len) as usize,
            port_perm(port),
        ),
        mmap_spec(start, len, port, m0, a0, t0, m1, a1, t1, r),
    ensures
        ranges_tracked(a1, m1),
{
    let lo = floor_page(start as int) as usize;
    let hi = ceil_page(start + len) as usize;
    let perm = port_perm(port);
    if !mmap_args_ok(start, port) || insert_blocked(m0, lo, hi) || rights_clash(a0, m0, lo, hi, perm) {
        return;
    }
    vstd::arithmetic::div_mod::lemma_div_is_ordered(start as int, start + len + 4095, 4096);
    assert(lo <= hi);
    let h = first_end_from(m0, hi);
    if joins_right(m0, hi) {
        lemma_first_end_exists(m0, hi);
    }
    if joins_left(m0, lo, hi) && joins_right(m0, hi) {
        let l = m0[lo];
        let fi = first_area(a0, l, lo);
        let bi = first_area(a0, hi, h);
        assert(m0.contains_key(lo) && m0.contains_key(h));
        assert(range_tracked(a0, m0[lo], lo) && range_tracked(a0, m0[h], h));
        lemma_first_area_exists(a0, l, lo);
        lemma_first_area_exists(a0, hi, h);
        assert(fi != bi);
        let idx = if bi < fi { fi - 1 } else { fi };
        let a2 = a1[idx];
        let u = a0.update(fi, a2);
        assert(a1 == u.remove(bi));
        assert forall|j: int| 0 <= j < idx implies !area_spans(#[trigger] a1[j], l, h) by {
            if j < bi {
                assert(a1[j] == a0[j]);
            } else {
                assert(a1[j] == a0[j + 1]);
            }
        }
        lemma_first_area_is(a1, l, h, idx);
        assert forall|p: usize| page_set(l as int, h as int).contains(p) implies a2.frames.contains(p) by {
            if p < lo {
                assert(page_set(l as int, lo as int).contains(p));
            } else if p < hi {
                assert(page_set(lo as int, hi as int).contains(p));
            } else {
                assert(page_set(hi as int, h as int).contains(p));
            }
        }
        assert forall|e: usize| #[trigger] m1.contains_key(e) implies range_tracked(a1, m1[e], e) by {
            if e != h {
                assert(m0.contains_key(e) && e != lo && m1[e] == m0[e]);
                assert(range_tracked(a0, m0[e], e));
                lemma_first_area_exists(a0, m0[e], e);
                lemma_first_area_after_update(a0, fi, a2, m0[e], e);
                lemma_first_area_after_remove(u, bi, m0[e], e);
            }
        }
    } else if joins_left(m0, lo, hi) {
        let l = m0[lo];
        let fi = first_area(a0, l, lo);
        assert(m0.contains_key(lo));
        assert(range_tracked(a0, m0[lo], lo));
        lemma_first_area_exists(a0, l, lo);
        let a2 = a1[fi];
        assert(a1 == a0.update(fi, a2));
        assert forall|j: int| 0 <= j < fi implies !area_spans(#[trigger] a1[j], l, hi) by {
            assert(a1[j] == a0[j]);
        }
        lemma_first_area_is(a1, l, hi, fi);
        assert forall|p: usize| page_set(l as int, hi as int).contains(p) implies a2.frames.contains(p) by {
            if p < lo {
                assert(page_set(l as int, lo as int).contains(p));
            } else {
                assert(page_set(lo as int, hi as int).contains(p));
            }
        }
        assert forall|e: usize| #[trigger] m1.contains_key(e) implies range_tracked(a1, m1[e], e) by {
            if e != hi {
                assert(m0.contains_key(e) && e != lo && m1[e] == m0[e]);
                assert(range_tracked(a0, m0[e], e));
                lemma_first_area_exists(a0, m0[e], e);
                lemma_first_area_after_update(a0, fi, a2, m0[e], e);
            }
        }
    } else if joins_right(m0, hi) {
        let bi = first_area(a0, hi, h);
        assert(m0.contains_key(h));
        assert(range_tracked(a0, m0[h], h));
        lemma_first_area_exists(a0, hi, h);
        if lo == hi {
            assert(m1 =~= m0);
            assert(a1 == a0);
        } else {
            let a2 = a1[bi];
            assert(a1 == a0.update(bi, a2));
            assert forall|j: int| 0 <= j < bi implies !area_spans(#[trigger] a1[j], lo, h) by {
                assert(a1[j] == a0[j]);
            }
            lemma_first_area_is(a1, lo, h, bi);
            assert forall|p: usize| page_set(lo as int, h as int).contains(p) implies a2.frames.contains(p) by {
                if p >= hi {
                    assert(page_set(hi as int, h as int).contains(p));
                } else {
                    assert(page_set(lo as int, hi as int).contains(p));
                }
            }
            assert forall|e: usize| #[trigger] m1.contains_key(e) implies range_tracked(a1, m1[e], e) by {
                if e != h {
                    assert(m0.contains_key(e) && m1[e] == m0[e]);
                    assert(range_tracked(a0, m0[e], e));
                    lemma_first_area_exists(a0, m0[e], e);
                    lemma_first_area_after_update(a0, bi, a2, m0[e], e);
                }
            }
        }
    } else {
        let n = a0.len() as int;
        let x = a1[n];
        assert(a1 == a0.push(x));
        assert forall|j: int| 0 <= j < n implies !area_spans(#[trigger] a1[j], lo, hi) by {
            assert(a1[j] == a0[j]);
        }
        lemma_first_area_is(a1, lo, hi, n);
        assert forall|e: usize| #[trigger] m1.contains_key(e) implies range_tracked(a1, m1[e], e) by {
            if e != hi {
                assert(m0.contains_key(e) && m1[e] == m0[e]);
                assert(range_tracked(a0, m0[e], e));
                lemma_first_area_exists(a0, m0[e], e);
                lemma_first_area_after_push(a0, x, m0[e], e);
            }
        }
    }
}

/// Unmapping a range keeps every mapped range tracked by a framed area that owns its
/// pages, when no other area ahead of the one that shrinks already runs over the part it
/// keeps, and none runs over the back part that a cut moves into an area of its own.
pub proof fn lemma_munmap_keeps_ranges_tracked(
    start: usize, len: usize,
    m0: Map<usize, usize>, a0: Seq<AreaView>, t0: Seq<OpView>,
    m1: Map<usize, usize>, a1: Seq<AreaView>, t1: Seq<OpView>, r: isize,
)
    requires
        ranges_wf(m0),
        ranges_tracked(a0, m0),
        start + len <= usize::MAX,
        (start % PAGE_SIZE == 0 && (start + len) % (PAGE_SIZE as int) == 0) ==> munmap_keeps_tracking(
            a0,
            m0,
            floor_page(start as int) as usize,
            ceil_page(start + len) as usize,
        ),
        munmap_spec(start, len, m0, a0, t0, m1, a1, t1, r),
    ensures
        ranges_tracked(a1, m1),
{
    let lo = floor_page(start as int) as usize;
    let hi = ceil_page(start + len) as usize;
    if start % PAGE_SIZE != 0 || (start + len) % (PAGE_SIZE as int) != 0 || !remove_fits(m0, lo, hi) {
        return;
    }
    vstd::arithmetic::div_mod::lemma_div_is_ordered(start as int, start + len + 4095, 4096);
    assert(lo <= hi);
    lemma_first_end_exists(m0, hi);
    let h = first_end_from(m0, hi);
    let l = m0[h];
    let i = first_area(a0, l, h);
    assert(m0.contains_key(h));
    assert(range_tracked(a0, m0[h], h));
    lemma_first_area_exists(a0, l, h);
    if l == lo && hi == h {
        assert(a1 == a0.remove(i));
        assert forall|e: usize| #[trigger] m1.contains_key(e) implies range_tracked(a1, m1[e], e) by {
            assert(m0.contains_key(e) && e != h && m1[e] == m0[e]);
            assert(range_tracked(a0, m0[e], e));
            lemma_first_area_exists(a0, m0[e], e);
            lemma_first_area_after_remove(a0, i, m0[e], e);
        }
    } else if hi == h {
        if lo == h {
            assert(m1 =~= m0);
            assert(a1 == a0);
        } else {
            let x = a1[i];
            assert(a1 == a0.update(i, x));
            assert forall|j: int| 0 <= j < i implies !area_spans(#[trigger] a1[j], l, lo) by {
                assert(a1[j] == a0[j]);
            }
            lemma_first_area_is(a1, l, lo, i);
            assert forall|p: usize| page_set(l as int, lo as int).contains(p) implies x.frames.contains(p) by {
                assert(page_set(l as int, h as int).contains(p));
            }
            assert forall|e: usize| #[trigger] m1.contains_key(e) implies range_tracked(a1, m1[e], e) by {
                if e != lo {
                    assert(m0.contains_key(e) && e != h && m1[e] == m0[e]);
                    assert(range_tracked(a0, m0[e], e));
                    lemma_first_area_exists(a0, m0[e], e);
                    lemma_first_area_after_update(a0, i, x, m0[e], e);
                }
            }
        }
    } else if l == lo {
        if lo == hi {
            assert(m1 =~= m0);
            assert(a1 == a0);
        } else {
            let x = a1[i];
            assert(a1 == a0.update(i, x));
            assert forall|j: int| 0 <= j < i implies !area_spans(#[trigger] a1[j], hi, h) by {
                assert(a1[j] == a0[j]);
            }
            lemma_first_area_is(a1, hi, h, i);
            assert forall|p: usize| page_set(hi as int, h as int).contains(p) implies x.frames.contains(p) by {
                assert(page_set(l as int, h as int).contains(p));
            }
            assert forall|e: usize| #[trigger] m1.contains_key(e) implies range_tracked(a1, m1[e], e) by {
                if e != h {
                    assert(m0.contains_key(e) && m1[e] == m0[e]);
                    assert(range_tracked(a0, m0[e], e));
                    lemma_first_area_exists(a0, m0[e], e);
                    lemma_first_area_after_update(a0, i, x, m0[e], e);
                }
            }
        }
    } else {
        let n = a0.len() as int;
        let x = a1[i];
        let y = a1[n];
        let u = a0.update(i, x);
        assert(a1 == u.push(y));
        assert forall|j: int| 0 <= j < i implies !area_spans(#[trigger] a1[j], l, lo) by {
            assert(a1[j] == a0[j]);
        }
        lemma_first_area_is(a1, l, lo, i);
        assert forall|j: int| 0 <= j < n implies !area_spans(#[trigger] a1[j], hi, h) by {
            if j != i {
                assert(a1[j] == a0[j]);
            }
        }
        lemma_first_area_is(a1, hi, h, n);
        assert forall|p: usize| page_set(l as int, lo as int).contains(p) implies x.frames.contains(p) by {
            assert(page_set(l as int, h as int).contains(p));
        }
        assert forall|e: usize| #[trigger] m1.contains_key(e) implies range_tracked(a1, m1[e], e) by {
            if e != h && e != lo {
                assert(m0.contains_key(e) && m1[e] == m0[e]);
                assert(range_tracked(a0, m0[e], e));
                lemma_first_area_exists(a0, m0[e], e);
                lemma_first_area_after_update(a0, i, x, m0[e], e);
                lemma_first_area_after_push(u, y, m0[e], e);
            }
        }
    }
}

/// Mapping the same non-empty range a second time, right after it was mapped, fails and
/// changes nothing.
pub proof fn lemma_mmap_twice_fails(
    start: usize, len: usize, port: usize,
    m0: Map<usize, usize>, a0: Seq<AreaView>, t0: Seq<OpView>,
    m1: Map<usize, usize>, a1: Seq<AreaView>, t1: Seq<OpView>, r1: isize,
    m2: Map<usize, usize>, a2: Seq<AreaView>, t2: Seq<OpView>, r2: isize,
)
    requires
        ranges_wf(m0),
        len > 0,
        start + len <= usize::MAX,
        mmap_spec(start, len, port, m0, a0, t0, m1, a1, t1, r1),
        r1 == 0,
        mmap_spec(start, len, port, m1, a1, t1, m2, a2, t2, r2),
    ensures
        r2 == -1,
        m2 == m1,
        a2 == a1,
        t2 == t1,
{
    let lo = floor_page(start as int) as usize;
    let hi = ceil_page(start + len) as usize;
    assert(lo < hi) by (nonlinear_arith)
        requires
            lo == start / 4096,
            hi == (start + len + 4095) / 4096,
            start % 4096 == 0,
            len > 0,
    ;
    lemma_insert_twice_blocked(m0, lo, hi);
}

/// The shapes of the areas: the pages each runs over, and its rights.
pub open spec fn area_shapes(areas: Seq<AreaView>) -> Set<(usize, usize, u8)> {
    Set::new(
        |t: (usize, usize, u8)| exists|i: int|
            0 <= i < areas.len() && (#[trigger] areas[i]).start == t.0 && areas[i].end == t.1 && areas[i].perm == t.2,
    )
}

/// Every mapped range has pages.
pub open spec fn ranges_nonempty(m: Map<usize, usize>) -> bool {
    forall|e: usize| #[trigger] m.contains_key(e) ==> m[e] < e
}

/// Areas that agree in their pages and rights, place by place, have the same shapes.
proof fn lemma_same_shapes(a: Seq<AreaView>, b: Seq<AreaView>)
    requires
        a.len() == b.len(),
        forall|i: int| 0 <= i < a.len() ==> a[i].start == b[i].start && a[i].end == b[i].end && a[i].perm == b[i].perm,
    ensures
        area_shapes(a) == area_shapes(b),
{
    assert forall|t: (usize, usize, u8)| area_shapes(a).contains(t) implies area_shapes(b).contains(t) by {
        let i = choose|i: int| 0 <= i < a.len() && (#[trigger] a[i]).start == t.0 && a[i].end == t.1 && a[i].perm == t.2;
        assert(b[i].start == t.0 && b[i].end == t.1 && b[i].perm == t.2);
    }
    assert forall|t: (usize, usize, u8)| area_shapes(b).contains(t) implies area_shapes(a).contains(t) by {
        let i = choose|i: int| 0 <= i < b.len() && (#[trigger] b[i]).start == t.0 && b[i].end == t.1 && b[i].perm == t.2;
        assert(a[i].start == t.0 && a[i].end == t.1 && a[i].perm == t.2);
    }
    assert(area_shapes(a) =~= area_shapes(b));
}

/// Unmapping a range right after mapping it with success gives back the same mapped
/// ranges and areas of the same shapes, also when the mapping joined touching ranges, as
/// long as no mapped range was empty, the joined ranges' areas had the rights asked for,
/// and no other area ahead of the ones the mapping grew or added already ran over the range
/// they came to cover.
pub proof fn lemma_mmap_then_munmap_joined(
    start: usize, len: usize, port: usize,
    m0: Map<usize, usize>, a0: Seq<AreaView>, t0: Seq<OpView>,
    m1: Map<usize, usize>, a1: Seq<AreaView>, t1: Seq<OpView>, r1: isize,
    m2: Map<usize, usize>, a2: Seq<AreaView>, t2: Seq<OpView>, r2: isize,
)
    requires
        ranges_wf(m0),
        ranges_nonempty(m0),
        ranges_tracked(a0, m0),
        start + len <= usize::MAX,
        len > 0,
        len % PAGE_SIZE == 0,
        mmap_keeps_tracking(a0, m0, floor_page(start as int) as usize, ceil_page(start + len) as usize, port_perm(port)),
        mmap_spec(start, len, port, m0, a0, t0, m1, a1, t1, r1),
        r1 == 0,
        munmap_spec(start, len, m1, a1, t1, m2, a2, t2, r2),
    ensures
        r2 == 0,
        m2 == m0,
        area_shapes(a2) == area_shapes(a0),
{
    let lo = floor_page(start as int) as usize;
    let hi = ceil_page(start + len) as usize;
    let perm = port_perm(port);
    assert(lo == start / 4096 && hi == (start + len) / 4096);
    assert(lo < hi);
    lemma_insert_then_remove(m0, lo, hi);
    let h = first_end_from(m0, hi);
    if joins_right(m0, hi) {
        lemma_first_end_exists(m0, hi);
        assert(m0.contains_key(h) && m0[h] == hi && hi < h);
    }
    if m0.contains_key(hi) {
        assert(insert_blocked(m0, lo, hi) || m0[hi] == hi) by {
            assert(m0.contains_key(hi) ==> blocks(m0[hi], hi, lo, hi) || m0[hi] >= hi);
        }
        assert(false);
    }
    if joins_left(m0, lo, hi) && joins_right(m0, hi) {
        let l = m0[lo];
        assert(m0.contains_key(lo) && l < lo);
        assert(range_tracked(a0, m0[lo], lo) && range_tracked(a0, m0[h], h));
        let fi = first_area(a0, l, lo);
        let bi = first_area(a0, hi, h);
        lemma_first_area_exists(a0, l, lo);
        lemma_first_area_exists(a0, hi, h);
        assert(fi != bi);
        let idx = if bi < fi { fi - 1 } else { fi };
        let g = a1[idx];
        let u = a0.update(fi, g);
        assert(a1 == u.remove(bi));
        assert forall|j: int| 0 <= j < idx implies !area_spans(#[trigger] a1[j], l, h) by {
            if j < bi {
                assert(a1[j] == a0[j]);
            } else {
                assert(a1[j] == a0[j + 1]);
            }
        }
        lemma_first_area_is(a1, l, h, idx);
        assert(is_first_end_from(m1, hi, h));
        lemma_first_end_from(m1, hi, h);
        assert(m2 =~= m0);
        let n = a1.len() as int;
        assert(a2 == a1.update(idx, a2[idx]).push(a2[n]));
        assert forall|t: (usize, usize, u8)| area_shapes(a2).contains(t) implies area_shapes(a0).contains(t) by {
            let i = choose|i: int| 0 <= i < a2.len() && (#[trigger] a2[i]).start == t.0 && a2[i].end == t.1 && a2[i].perm == t.2;
            if i == n {
                assert(a0[bi].start == t.0 && a0[bi].end == t.1 && a0[bi].perm == t.2);
            } else if i == idx {
                assert(a0[fi].start == t.0 && a0[fi].end == t.1 && a0[fi].perm == t.2);
            } else if i < bi {
                assert(a0[i] == a2[i]);
            } else {
                assert(a0[i + 1] == a2[i]);
            }
        }
        assert forall|t: (usize, usize, u8)| area_shapes(a0).contains(t) implies area_shapes(a2).contains(t) by {
            let i = choose|i: int| 0 <= i < a0.len() && (#[trigger] a0[i]).start == t.0 && a0[i].end == t.1 && a0[i].perm == t.2;
            if i == bi {
                assert(a2[n].start == t.0 && a2[n].end == t.1 && a2[n].perm == t.2);
            } else if i == fi {
                assert(a2[idx].start == t.0 && a2[idx].end == t.1 && a2[idx].perm == t.2);
            } else if i < bi {
                assert(a2[i] == a0[i]);
            } else {
                assert(a2[i - 1] == a0[i]);
            }
        }
        assert(area_shapes(a2) =~= area_shapes(a0));
    } else if joins_left(m0, lo, hi) {
        let l = m0[lo];
        assert(m0.contains_key(lo) && l < lo);
        assert(range_tracked(a0, m0[lo], lo));
        let fi = first_area(a0, l, lo);
        lemma_first_area_exists(a0, l, lo);
        assert(a1 == a0.update(fi, a1[fi]));
        assert forall|j: int| 0 <= j < fi implies !area_spans(#[trigger] a1[j], l, hi) by {
            assert(a1[j] == a0[j]);
        }
        lemma_first_area_is(a1, l, hi, fi);
        assert(is_first_end_from(m1, hi, hi));
        lemma_first_end_from(m1, hi, hi);
        assert(m2 =~= m0);
        assert(a2 == a1.update(fi, a2[fi]));
        lemma_same_shapes(a2, a0);
    } else if joins_right(m0, hi) {
        assert(range_tracked(a0, m0[h], h));
        let bi = first_area(a0, hi, h);
        lemma_first_area_exists(a0, hi, h);
        assert(a1 == a0.update(bi, a1[bi]));
        assert forall|j: int| 0 <= j < bi implies !area_spans(#[trigger] a1[j], lo, h) by {
            assert(a1[j] == a0[j]);
        }
        lemma_first_area_is(a1, lo, h, bi);
        assert(is_first_end_from(m1, hi, h));
        lemma_first_end_from(m1, hi, h);
        assert(m2 =~= m0);
        assert(a2 == a1.update(bi, a2[bi]));
        lemma_same_shapes(a2, a0);
    } else {
        let n = a0.len() as int;
        assert(is_first_area(a1, lo, hi, n));
        lemma_first_area_is(a1, lo, hi, n);
        assert(a1.remove(n) =~= a0);
        assert(is_first_end_from(m1, hi, hi));
        lemma_first_end_from(m1, hi, hi);
        assert(m2 =~= m0);
    }
}

/// The rights `mmap` gives for `port` below 8, as bits: user access, plus bit 0 of `port`
/// (read) moved to bit 1, bit 1 (write) to bit 2, and bit 2 (execute) to bit 3.
proof fn lemma_port_perm_bits(port: usize)
    requires
        port < 8,
    ensures
        port_perm(port) == (16usize | ((port & 1) << 1) | ((port & 2) << 1) | ((port & 4) << 1)) as u8,
{
    let r: u8 = if port % 2 == 1 { 2 } else { 0 };
    let w: u8 = if (port / 2) % 2 == 1 { 4 } else { 0 };
    let x: u8 = if (port / 4) % 2 == 1 { 8 } else { 0 };
    assert(port_perm(port) == 16 + r + w + x);
    assert((16 + r + w + x) as u8 == (16usize | ((port & 1) << 1) | ((port & 2) << 1) | ((port & 4) << 1)) as u8)
        by (bit_vector)
        requires
            port < 8,
            r == (if port % 2 == 1 { 2u8 } else { 0u8 }),
            w == (if (port / 2) % 2 == 1 { 4u8 } else { 0u8 }),
            x == (if (port / 4) % 2 == 1 { 8u8 } else { 0u8 }),
    ;
}

/// A successful `mmap` asked for some of read, write and execute, and maps every page of
/// its range in an area whose rights are user access plus read exactly when bit 0 of
/// `port` is set, write exactly when bit 1 is, and execute exactly when bit 2 is.
pub proof fn lemma_mmap_rights(
    start: usize, len: usize, port: usize,
    m0: Map<usize, usize>, a0: Seq<AreaView>, t0: Seq<OpView>,
    m1: Map<usize, usize>, a1: Seq<AreaView>, t1: Seq<OpView>, r: isize,
)
    requires
        ranges_wf(m0),
        mmap_args_ok(start, port) ==> start + len <= usize::MAX,
        mmap_args_ok(start, port) ==> mmap_areas_ready(
            a0,
            m0,
            floor_page(start as int) as usize,
            ceil_page(start + len) as usize,
            port_perm(port),
        ),
        mmap_spec(start, len, port, m0, a0, t0, m1, a1, t1, r),
        r == 0,
    ensures
        0 < port < 8,
        page_span(floor_page(start as int), ceil_page(start + len)).subset_of(
            pages_with(a1, (16usize | ((port & 1) << 1) | ((port & 2) << 1) | ((port & 4) << 1)) as u8),
        ),
{
    lemma_mmap_covers(start, len, port, m0, a0, t0, m1, a1, t1, r);
    lemma_port_perm_bits(port);
}

/// Unmapping keeps each area owning frames only for its own pages, and no two areas owning
/// a frame for the same page, when that held before.
pub proof fn lemma_munmap_keeps_frames_apart(
    start: usize, len: usize,
    m0: Map<usize, usize>, a0: Seq<AreaView>, t0: Seq<OpView>,
    m1: Map<usize, usize>, a1: Seq<AreaView>, t1: Seq<OpView>, r: isize,
)
    requires
        ranges_wf(m0),
        frames_in_place(a0),
        frames_apart(a0),
        start + len <= usize::MAX,
        (start % PAGE_SIZE == 0 && (start + len) % (PAGE_SIZE as int) == 0) ==> munmap_areas_ready(
            a0,
            m0,
            floor_page(start as int) as usize,
            ceil_page(start + len) as usize,
        ),
        munmap_spec(start, len, m0, a0, t0, m1, a1, t1, r),
    ensures
        frames_in_place(a1),
        frames_apart(a1),
{
    let lo = floor_page(start as int) as usize;
    let hi = ceil_page(start + len) as usize;
    if start % PAGE_SIZE != 0 || (start + len) % (PAGE_SIZE as int) != 0 || !remove_fits(m0, lo, hi) {
        return;
    }
    vstd::arithmetic::div_mod::lemma_div_is_ordered(start as int, start + len + 4095, 4096);
    lemma_first_end_exists(m0, hi);
    let h = first_end_from(m0, hi);
    let l = m0[h];
    assert(m0.contains_key(h));
    let ix = first_area(a0, l, h);
    lemma_first_area_exists(a0, l, h);
    let n = a0.len() as int;
    if l < lo && hi < h {
        lemma_split_keeps_frames_apart(a0, t0, a1, t1, l, lo, hi, h);
    } else if l == lo && hi == h {
        assert(a1 == a0.remove(ix));
        assert forall|k: int| 0 <= k < a1.len() implies {
            &&& (#[trigger] a1[k]).frames.subset_of(page_set(a1[k].start as int, a1[k].end as int))
            &&& a1[k].map_type == MapType::Identical ==> a1[k].frames.is_empty()
        } by {
            if k < ix {
                assert(a1[k] == a0[k]);
            } else {
                assert(a1[k] == a0[k + 1]);
            }
        }
        assert forall|x: int, y: int| #![trigger a1[x], a1[y]] 0 <= x < y < a1.len() implies a1[x].frames.disjoint(a1[y].frames) by {
            let x0 = if x < ix { x } else { x + 1 };
            let y0 = if y < ix { y } else { y + 1 };
            assert(a1[x] == a0[x0] && a1[y] == a0[y0]);
            assert(a0[x0].frames.disjoint(a0[y0].frames));
        }
    } else if (hi == h && lo == h) || (l == lo && lo == hi) {
        assert(a1 == a0);
    } else {
        assert(a1 == a0.update(ix, a1[ix]));
        assert forall|k: int| 0 <= k < a1.len() implies {
            &&& (#[trigger] a1[k]).frames.subset_of(page_set(a1[k].start as int, a1[k].end as int))
            &&& a1[k].map_type == MapType::Identical ==> a1[k].frames.is_empty()
        } by {
            if k == ix {
                if a0[ix].map_type == MapType::Identical {
                    assert(a1[k].frames == a0[ix].frames);
                    assert(a1[k].frames =~= Set::<usize>::empty());
                } else {
                    assert forall|p: usize| a1[k].frames.contains(p) implies page_set(a1[k].start as int, a1[k].end as int).contains(p) by {
                        assert(a0[ix].frames.contains(p));
                        assert(page_set(l as int, h as int).contains(p));
                    }
                }
            } else {
                assert(a1[k] == a0[k]);
            }
        }
        assert forall|x: int, y: int| #![trigger a1[x], a1[y]] 0 <= x < y < a1.len() implies a1[x].frames.disjoint(a1[y].frames) by {
            assert(a0[x].frames.disjoint(a0[y].frames));
            if x != ix && y != ix {
                assert(a1[x] == a0[x] && a1[y] == a0[y]);
            } else if x == ix {
                assert(a1[y] == a0[y]);
            } else {
                assert(a1[x] == a0[x]);
            }
        }
    }
}

/// The flags an operation maps a page with, if it maps one.
pub open spec fn map_flags(op: OpView) -> Option<u8> {
    match op {
        OpView::MapFramed(_, f) => Some(f),
        OpView::MapIdentical(_, f) => Some(f),
        OpView::MapTo(_, _, f) => Some(f),
        _ => None,
    }
}

/// A successful `mmap` only adds page-table work after what was pending, and each page it
/// maps gets user access plus read exactly when bit 0 of `port` is set, write exactly when
/// bit 1 is, and execute exactly when bit 2 is.
pub proof fn lemma_mmap_flags(
    start: usize, len: usize, port: usize,
    m0: Map<usize, usize>, a0: Seq<AreaView>, t0: Seq<OpView>,
    m1: Map<usize, usize>, a1: Seq<AreaView>, t1: Seq<OpView>, r: isize,
)
    requires
        mmap_spec(start, len, port, m0, a0, t0, m1, a1, t1, r),
        r == 0,
    ensures
        0 < port < 8,
        t1.len() >= t0.len(),
        t1.subrange(0, t0.len() as int) == t0,
        forall|k: int| t0.len() <= k < t1.len() && (#[trigger] map_flags(t1[k])) is Some
            ==> map_flags(t1[k]) == Some((16usize | ((port & 1) << 1) | ((port & 2) << 1) | ((port & 4) << 1)) as u8),
{
    let lo = floor_page(start as int) as usize;
    let hi = ceil_page(start + len) as usize;
    let perm = port_perm(port);
    lemma_port_perm_bits(port);
    let h = first_end_from(m0, hi);
    let n0 = t0.len() as int;
    if rights_clash(a0, m0, lo, hi, perm) || !(joins_left(m0, lo, hi) || joins_right(m0, hi)) {
        assert(t1 == t0 + map_ops(MapType::Framed, perm, lo as int, hi as int));
        assert(t1.subrange(0, n0) =~= t0);
        assert forall|k: int| t0.len() <= k < t1.len() && (#[trigger] map_flags(t1[k])) is Some implies map_flags(t1[k]) == Some(perm) by {
            assert(t1[k] == map_ops(MapType::Framed, perm, lo as int, hi as int)[k - n0]);
        }
    } else if joins_left(m0, lo, hi) && joins_right(m0, hi) {
        let a = a0[first_area(a0, m0[lo], lo)];
        let extra = map_ops(a.map_type, a.perm, lo as int, hi as int);
        let n = n0 + (hi - lo);
        assert(t1.subrange(0, n) == t0 + extra);
        assert(t1.subrange(0, n0) =~= (t0 + extra).subrange(0, n0));
        assert forall|k: int| t0.len() <= k < t1.len() && (#[trigger] map_flags(t1[k])) is Some implies map_flags(t1[k]) == Some(perm) by {
            if k < n {
                assert(t1[k] == t1.subrange(0, n)[k]);
                assert(t1[k] == extra[k - n0]);
                if a.map_type == MapType::Framed {
                } else {
                }
            } else {
                let tail = t1.subrange(n, t1.len() as int);
                assert(t1[k] == tail[k - n]);
            }
        }
    } else if joins_left(m0, lo, hi) {
        let a = a0[first_area(a0, m0[lo], lo)];
        assert(t1 == t0 + map_ops(a.map_type, a.perm, lo as int, hi as int));
        assert(t1.subrange(0, n0) =~= t0);
        assert forall|k: int| t0.len() <= k < t1.len() && (#[trigger] map_flags(t1[k])) is Some implies map_flags(t1[k]) == Some(perm) by {
            assert(t1[k] == map_ops(a.map_type, a.perm, lo as int, hi as int)[k - n0]);
        }
    } else {
        let a = a0[first_area(a0, hi, h)];
        if lo < hi {
            assert(t1 == t0 + map_ops(a.map_type, a.perm, lo as int, hi as int));
            assert(t1.subrange(0, n0) =~= t0);
            assert forall|k: int| t0.len() <= k < t1.len() && (#[trigger] map_flags(t1[k])) is Some implies map_flags(t1[k]) == Some(perm) by {
                assert(t1[k] == map_ops(a.map_type, a.perm, lo as int, hi as int)[k - n0]);
            }
        } else {
            assert(t1 == t0);
            assert(t1.subrange(0, n0) =~= t0);
        }
    }
}

} // verus!
