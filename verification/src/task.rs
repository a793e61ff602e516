//! Task management: the task control blocks, the round-robin choice of the
//! next task, and the per-task services behind the process system calls
//! (program break, system call counts, memory mapping, user memory access).
//!
//! The switch of CPU contexts between two tasks is left to the caller: the
//! scheduling functions here update the task states and answer with the
//! [`Switch`] to perform.
use vstd::prelude::*;
use crate::config::{MAX_SYSCALL_NUM, PAGE_SIZE};
use crate::mm::{
    MemorySet, lemma_mapped_range_overlaps, lemma_find_exact_props, lemma_insert_then_remove, find_area, MemoryView, AreaView, PERM_R, PERM_W, PERM_X, PERM_U, page_floor, page_ceil,
    overlaps, find_exact, user_accessible, byte_at, with_byte, lemma_read_after_write,
};
use crate::seq_util::{first_false, lemma_first_false, lemma_first_false_at_least, lemma_first_false_props};

verus! {

/// The state of a task.
#[derive(Clone, Copy, PartialEq, Eq, Debug, Structural)]
pub enum TaskStatus {
    UnInit,
    Ready,
    Running,
    Exited,
}

/// A switch of the CPU from task `from` to task `to`.
#[derive(Clone, Copy, PartialEq, Eq, Debug, Structural)]
pub struct Switch {
    pub from: usize,
    pub to: usize,
}

/// A task: its state, address space, system call counts and heap.
pub struct TaskControlBlock {
    pub task_status: TaskStatus,
    pub memory_set: MemorySet,
    /// How often the task has made each system call, by id.
    pub syscall_count: Vec<usize>,
    /// Lowest address of the heap.
    pub heap_bottom: usize,
    /// Current end of the heap.
    pub program_brk: usize,
}

/// The contents of a [`TaskControlBlock`].
#[verifier::ext_equal]
pub struct TaskView {
    pub status: TaskStatus,
    pub memory: MemoryView,
    pub syscall_count: Seq<usize>,
    pub heap_bottom: usize,
    pub program_brk: usize,
}

impl View for TaskControlBlock {
    type V = TaskView;

    open spec fn view(&self) -> TaskView {
        TaskView {
            status: self.task_status,
            memory: self.memory_set@,
            syscall_count: self.syscall_count@,
            heap_bottom: self.heap_bottom,
            program_brk: self.program_brk,
        }
    }
}

impl TaskView {
    /// One counter per system call id, and a heap that starts at or below
    /// its end, which fits in an `isize`.
    pub open spec fn wf(self) -> bool {
        &&& self.syscall_count.len() == MAX_SYSCALL_NUM
        &&& self.heap_bottom <= self.program_brk <= isize::MAX
    }
}

impl TaskControlBlock {
    /// A ready task with the given address space and an empty heap at `heap_bottom`.
    pub fn new(memory_set: MemorySet, heap_bottom: usize) -> (t: Self)
        requires
            heap_bottom <= isize::MAX,
        ensures
            t@.wf(),
            t@.status == TaskStatus::Ready,
            t@.memory == memory_set@,
            t@.syscall_count == Seq::new(MAX_SYSCALL_NUM as nat, |i: int| 0usize),
            t@.heap_bottom == heap_bottom,
            t@.program_brk == heap_bottom,
    {
        let mut syscall_count: Vec<usize> = Vec::new();
        let mut i: usize = 0;
        while i < MAX_SYSCALL_NUM
            invariant
                0 <= i <= MAX_SYSCALL_NUM,
                syscall_count@ == Seq::new(i as nat, |k: int| 0usize),
            decreases MAX_SYSCALL_NUM - i,
        {
            syscall_count.push(0);
            assert(syscall_count@ =~= Seq::new((i + 1) as nat, |k: int| 0usize));
            i += 1;
        }
        TaskControlBlock {
            task_status: TaskStatus::Ready,
            memory_set,
            syscall_count,
            heap_bottom,
            program_brk: heap_bottom,
        }
    }

    /// A stand-in that holds a slot while the real task is worked on.
    fn placeholder() -> (t: Self)
        ensures
            t@ == (TaskView {
                status: TaskStatus::UnInit,
                memory: MemoryView { token: 0, areas: Seq::empty() },
                syscall_count: Seq::empty(),
                heap_bottom: 0,
                program_brk: 0,
            }),
    {
        TaskControlBlock {
            task_status: TaskStatus::UnInit,
            memory_set: MemorySet::new_bare(0),
            syscall_count: Vec::new(),
            heap_bottom: 0,
            program_brk: 0,
        }
    }

    /// Moves the end of the heap by `size` bytes and returns the old end;
    /// `None`, changing nothing, when the heap would end below its bottom.
    pub fn change_program_brk(&mut self, size: i32) -> (r: Option<usize>)
        requires
            old(self)@.wf(),
            old(self).program_brk + size <= isize::MAX,
        ensures
            final(self)@.wf(),
            r == brk_result(old(self)@, size),
            final(self)@ == after_brk(old(self)@, size),
    {
        let old_break = self.program_brk;
        let new_brk = self.program_brk as isize + size as isize;
        if new_brk < self.heap_bottom as isize {
            return None;
        }
        self.program_brk = new_brk as usize;
        Some(old_break)
    }
}

/// The answer to moving the heap end by `size`.
pub open spec fn brk_result(t: TaskView, size: i32) -> Option<usize> {
    if t.program_brk + size < t.heap_bottom {
        None
    } else {
        Some(t.program_brk)
    }
}

/// The task after moving its heap end by `size`.
pub open spec fn after_brk(t: TaskView, size: i32) -> TaskView {
    if t.program_brk + size < t.heap_bottom {
        t
    } else {
        TaskView { program_brk: (t.program_brk + size) as usize, ..t }
    }
}

/// All tasks of the system and which of them is current.
pub struct TaskManager {
    /// Number of tasks.
    pub num_app: usize,
    pub tasks: Vec<TaskControlBlock>,
    /// Index of the current task.
    pub current_task: usize,
}

/// The contents of a [`TaskManager`].
#[verifier::ext_equal]
pub struct ManagerView {
    pub current: usize,
    pub tasks: Seq<TaskView>,
}

impl View for TaskManager {
    type V = ManagerView;

    open spec fn view(&self) -> ManagerView {
        ManagerView {
            current: self.current_task,
            tasks: self.tasks@.map_values(|t: TaskControlBlock| t@),
        }
    }
}

impl ManagerView {
    /// The current task exists (when any does), every task is well formed,
    /// and twice the number of tasks fits in a word.
    pub open spec fn wf(self) -> bool {
        &&& self.tasks.len() < usize::MAX / 2
        &&& (self.current < self.tasks.len() || self.current == 0)
        &&& forall|i: int| 0 <= i < self.tasks.len() ==> (#[trigger] self.tasks[i]).wf()
    }

    /// The current task.
    pub open spec fn cur(self) -> TaskView {
        self.tasks[self.current as int]
    }

    /// The manager with the current task replaced by `t`.
    pub open spec fn with_cur(self, t: TaskView) -> ManagerView {
        ManagerView { tasks: self.tasks.update(self.current as int, t), ..self }
    }

    /// The manager with task `i` in state `st`.
    pub open spec fn with_status(self, i: int, st: TaskStatus) -> ManagerView {
        ManagerView { tasks: self.tasks.update(i, TaskView { status: st, ..self.tasks[i] }), ..self }
    }

    /// No task but the current one is running.
    pub open spec fn only_current_running(self) -> bool {
        forall|i: int|
            0 <= i < self.tasks.len() && i != self.current ==> (#[trigger] self.tasks[i]).status
                != TaskStatus::Running
    }
}

/// The first ready task among the `d`-th, `d+1`-th, ... `n`-th tasks after
/// the current one, counting cyclically.
pub open spec fn ready_from(v: ManagerView, d: int) -> Option<usize>
    decreases v.tasks.len() + 1 - d,
{
    if 1 <= d <= v.tasks.len() {
        let id = (v.current + d) % (v.tasks.len() as int);
        if v.tasks[id].status == TaskStatus::Ready {
            Some(id as usize)
        } else {
            ready_from(v, d + 1)
        }
    } else {
        None
    }
}

/// The task to run next: the first ready task after the current one,
/// counting cyclically and ending with the current one itself.
pub open spec fn next_ready(v: ManagerView) -> Option<usize> {
    ready_from(v, 1)
}

/// The manager after switching to the next ready task, if there is one.
pub open spec fn after_run_next(v: ManagerView) -> ManagerView {
    match next_ready(v) {
        Some(next) => ManagerView { current: next, ..v.with_status(next as int, TaskStatus::Running) },
        None => v,
    }
}

/// The switch that choosing the next task asks for.
pub open spec fn run_next_switch(v: ManagerView) -> Option<Switch> {
    match next_ready(v) {
        Some(next) => Some(Switch { from: v.current, to: next }),
        None => None,
    }
}

proof fn lemma_ready_from_found(v: ManagerView, d: int)
    requires
        v.tasks.len() > 0,
        v.current < v.tasks.len(),
        1 <= d <= v.tasks.len(),
        v.tasks[v.current as int].status == TaskStatus::Ready,
    ensures
        ready_from(v, d) is Some,
    decreases v.tasks.len() + 1 - d,
{
    let n = v.tasks.len() as int;
    if d < n {
        lemma_ready_from_found(v, d + 1);
    } else {
        assert((v.current + n) % n == v.current) by {
            vstd::arithmetic::div_mod::lemma_mod_add_multiples_vanish(v.current as int, n);
            vstd::arithmetic::div_mod::lemma_small_mod(v.current as nat, n as nat);
        }
    }
}

proof fn lemma_ready_from_none(v: ManagerView, d: int)
    requires
        v.tasks.len() > 0,
        1 <= d,
        ready_from(v, d) is None,
    ensures
        forall|e: int|
            d <= e <= v.tasks.len() ==> v.tasks[#[trigger] ((v.current + e) % (v.tasks.len() as int))].status
                != TaskStatus::Ready,
    decreases v.tasks.len() + 1 - d,
{
    if d <= v.tasks.len() {
        lemma_ready_from_none(v, d + 1);
    }
}

proof fn lemma_ready_from_some(v: ManagerView, d: int) -> (e: int)
    requires
        v.tasks.len() > 0,
        1 <= d,
        ready_from(v, d) is Some,
    ensures
        d <= e <= v.tasks.len(),
        ready_from(v, d) == Some(((v.current + e) % (v.tasks.len() as int)) as usize),
        v.tasks[(v.current + e) % (v.tasks.len() as int)].status == TaskStatus::Ready,
        forall|f: int|
            d <= f < e ==> v.tasks[#[trigger] ((v.current + f) % (v.tasks.len() as int))].status
                != TaskStatus::Ready,
    decreases v.tasks.len() + 1 - d,
{
    let n = v.tasks.len() as int;
    if v.tasks[(v.current + d) % n].status == TaskStatus::Ready {
        d
    } else {
        lemma_ready_from_some(v, d + 1)
    }
}

/// Round robin: the next task is the first ready one after the current
/// task, counting cyclically through all tasks and ending with the current
/// one; there is none exactly when no task is ready.
pub proof fn lemma_next_ready_round_robin(v: ManagerView)
    requires
        v.tasks.len() > 0,
        v.current < v.tasks.len(),
    ensures
        next_ready(v) is None ==> forall|i: int|
            0 <= i < v.tasks.len() ==> (#[trigger] v.tasks[i]).status != TaskStatus::Ready,
        next_ready(v) is Some ==> exists|e: int|
            1 <= e <= v.tasks.len() && next_ready(v) == Some(
                #[trigger] ((v.current + e) % (v.tasks.len() as int)) as usize,
            ) && v.tasks[(v.current + e) % (v.tasks.len() as int)].status == TaskStatus::Ready
                && forall|f: int|
                1 <= f < e ==> v.tasks[#[trigger] ((v.current + f) % (v.tasks.len() as int))].status
                    != TaskStatus::Ready,
{
    let n = v.tasks.len() as int;
    if next_ready(v) is None {
        lemma_ready_from_none(v, 1);
        assert forall|i: int| 0 <= i < n implies (#[trigger] v.tasks[i]).status != TaskStatus::Ready by {
            let e = if i > v.current { i - v.current } else { i - v.current + n };
            assert((v.current + e) % n == i) by {
                if i > v.current {
                    vstd::arithmetic::div_mod::lemma_small_mod(i as nat, n as nat);
                } else {
                    vstd::arithmetic::div_mod::lemma_mod_add_multiples_vanish(i, n);
                    vstd::arithmetic::div_mod::lemma_small_mod(i as nat, n as nat);
                }
            }
            assert(v.tasks[(v.current + e) % n].status != TaskStatus::Ready);
        }
    } else {
        let e = lemma_ready_from_some(v, 1);
        assert(next_ready(v) == Some(((v.current + e) % n) as usize));
    }
}

impl TaskManager {
    pub open spec fn wf(&self) -> bool {
        &&& self.num_app == self.tasks.len()
        &&& self@.wf()
    }

    /// A manager of the given tasks, with the first one current.
    pub fn new(tasks: Vec<TaskControlBlock>) -> (tm: Self)
        requires
            tasks.len() < usize::MAX / 2,
            forall|i: int| 0 <= i < tasks.len() ==> (#[trigger] tasks[i])@.wf(),
        ensures
            tm.wf(),
            tm@ == (ManagerView { current: 0, tasks: tasks@.map_values(|t: TaskControlBlock| t@) }),
    {
        let num_app = tasks.len();
        TaskManager { num_app, tasks, current_task: 0 }
    }

    /// Sets the state of task `i`.
    fn set_status(&mut self, i: usize, st: TaskStatus)
        requires
            old(self).wf(),
            i < old(self).tasks.len(),
        ensures
            final(self).wf(),
            final(self)@ == old(self)@.with_status(i as int, st),
    {
        let mut t = TaskControlBlock::placeholder();
        self.tasks.set_and_swap(i, &mut t);
        t.task_status = st;
        self.tasks.set_and_swap(i, &mut t);
        assert(self@ =~= old(self)@.with_status(i as int, st));
    }

    /// Takes the current task out of the manager, leaving a stand-in.
    fn take_current(&mut self) -> (t: TaskControlBlock)
        requires
            old(self).wf(),
            old(self).num_app > 0,
        ensures
            t@ == old(self)@.cur(),
            final(self).num_app == old(self).num_app,
            final(self).current_task == old(self).current_task,
            final(self).tasks.len() == old(self).tasks.len(),
            forall|i: int| 0 <= i < old(self).tasks.len() && i != old(self).current_task ==>
                (#[trigger] final(self)@.tasks[i]) == old(self)@.tasks[i],
    {
        let mut t = TaskControlBlock::placeholder();
        self.tasks.set_and_swap(self.current_task, &mut t);
        t
    }

    /// Puts the current task back after `take_current`.
    fn put_current(&mut self, t: TaskControlBlock, Ghost(orig): Ghost<ManagerView>)
        requires
            old(self).num_app == old(self).tasks.len(),
            old(self).current_task < old(self).tasks.len(),
            orig.wf(),
            orig.tasks.len() == old(self).tasks.len(),
            orig.current == old(self).current_task,
            forall|i: int| 0 <= i < orig.tasks.len() && i != orig.current ==>
                (#[trigger] old(self)@.tasks[i]) == orig.tasks[i],
            t@.wf(),
        ensures
            final(self).wf(),
            final(self)@ == orig.with_cur(t@),
    {
        let ghost tv = t@;
        let ghost before = self@;
        let mut t = t;
        self.tasks.set_and_swap(self.current_task, &mut t);
        assert(self@.tasks =~= before.tasks.update(orig.current as int, tv));
        assert forall|i: int| 0 <= i < orig.tasks.len() implies #[trigger] self@.tasks[i]
            == orig.with_cur(tv).tasks[i] by {
            if i != orig.current {
                assert(before.tasks[i] == orig.tasks[i]);
            }
        }
        assert(self@ =~= orig.with_cur(tv));
    }

    /// Marks task 0 as running, to be switched to first.
    pub fn run_first_task(&mut self)
        requires
            old(self).wf(),
            old(self).num_app > 0,
        ensures
            final(self).wf(),
            final(self)@ == old(self)@.with_status(0, TaskStatus::Running),
            old(self)@.current == 0 && old(self)@.only_current_running() ==> final(self)@.only_current_running(),
    {
        self.set_status(0, TaskStatus::Running);
    }

    /// The current task becomes ready again.
    fn mark_current_suspended(&mut self)
        requires
            old(self).wf(),
            old(self).num_app > 0,
        ensures
            final(self).wf(),
            final(self)@ == old(self)@.with_status(old(self)@.current as int, TaskStatus::Ready),
    {
        let cur = self.current_task;
        self.set_status(cur, TaskStatus::Ready);
    }

    /// The current task has exited.
    fn mark_current_exited(&mut self)
        requires
            old(self).wf(),
            old(self).num_app > 0,
        ensures
            final(self).wf(),
            final(self)@ == old(self)@.with_status(old(self)@.current as int, TaskStatus::Exited),
    {
        let cur = self.current_task;
        self.set_status(cur, TaskStatus::Exited);
    }

    /// The task to run next, see [`next_ready`].
    pub fn find_next_task(&self) -> (r: Option<usize>)
        requires
            self.wf(),
        ensures
            r == next_ready(self@),
    {
        let n = self.num_app;
        let current = self.current_task;
        let ghost v = self@;
        let mut id = current + 1;
        while id < current + n + 1
            invariant
                self.wf(),
                v == self@,
                n == self.num_app,
                current == self.current_task,
                n > 0 ==> current < n,
                current + 1 <= id <= current + n + 1,
                current + n + 1 <= usize::MAX,
                next_ready(v) == ready_from(v, id - current),
            decreases current + n + 1 - id,
        {
            let idx = id % n;
            assert(self.tasks@[idx as int]@ == v.tasks[idx as int]);
            if self.tasks[idx].task_status == TaskStatus::Ready {
                return Some(idx);
            }
            id += 1;
        }
        None
    }

    /// Switches to the next ready task, if any: it becomes running and current.
    pub fn run_next_task(&mut self) -> (r: Switch)
        requires
            old(self).wf(),
            !no_task_ready(old(self)@),
        ensures
            final(self).wf(),
            Some(r) == run_next_switch(old(self)@),
            final(self)@ == after_run_next(old(self)@),
            exited_stay_exited(old(self)@, final(self)@),
    {
        proof {
            lemma_run_next_facts(old(self)@);
            lemma_ready_from_range(self@, 1);
        }
        let next = self.find_next_task().unwrap();
        let current = self.current_task;
        self.set_status(next, TaskStatus::Running);
        self.current_task = next;
        assert(self@ =~= after_run_next(old(self)@));
        Switch { from: current, to: next }
    }

    /// Suspends the current task and switches to the next ready one, which
    /// always exists: at worst it is the task just suspended.
    pub fn suspend_current_and_run_next(&mut self) -> (s: Switch)
        requires
            old(self).wf(),
            old(self).num_app > 0,
            old(self)@.cur().status == TaskStatus::Running,
        ensures
            final(self).wf(),
            Some(s) == run_next_switch(old(self)@.with_status(old(self)@.current as int, TaskStatus::Ready)),
            final(self)@ == after_run_next(old(self)@.with_status(old(self)@.current as int, TaskStatus::Ready)),
            old(self)@.only_current_running() ==> final(self)@.only_current_running(),
            exited_stay_exited(old(self)@, final(self)@),
    {
        self.mark_current_suspended();
        proof {
            lemma_ready_from_found(self@, 1);
            lemma_run_next_facts(self@);
            if old(self)@.only_current_running() {
                lemma_run_next_keeps_only_current_running(old(self)@, TaskStatus::Ready);
            }
        }
        self.run_next_task()
    }

    /// Marks the current task exited and switches to the next ready one,
    /// which must exist: when none does, all tasks have completed.
    pub fn exit_current_and_run_next(&mut self) -> (r: Switch)
        requires
            old(self).wf(),
            old(self).num_app > 0,
            old(self)@.cur().status == TaskStatus::Running,
            !no_task_ready(old(self)@.with_status(old(self)@.current as int, TaskStatus::Exited)),
        ensures
            final(self).wf(),
            Some(r) == run_next_switch(old(self)@.with_status(old(self)@.current as int, TaskStatus::Exited)),
            final(self)@ == after_run_next(old(self)@.with_status(old(self)@.current as int, TaskStatus::Exited)),
            old(self)@.only_current_running() ==> final(self)@.only_current_running(),
            final(self)@.tasks[old(self)@.current as int].status == TaskStatus::Exited,
            exited_stay_exited(old(self)@, final(self)@),
    {
        self.mark_current_exited();
        proof {
            lemma_run_next_facts(self@);
            if old(self)@.only_current_running() {
                lemma_run_next_keeps_only_current_running(old(self)@, TaskStatus::Exited);
            }
        }
        self.run_next_task()
    }

    /// The page table token of the current task.
    pub fn get_current_token(&self) -> (t: usize)
        requires
            self.wf(),
            self.num_app > 0,
        ensures
            t == self@.cur().memory.token,
    {
        self.tasks[self.current_task].memory_set.token()
    }

    /// Moves the heap end of the current task, see
    /// [`TaskControlBlock::change_program_brk`].
    pub fn change_current_program_brk(&mut self, size: i32) -> (r: Option<usize>)
        requires
            old(self).wf(),
            old(self).num_app > 0,
            old(self)@.cur().program_brk + size <= isize::MAX,
        ensures
            final(self).wf(),
            r == brk_result(old(self)@.cur(), size),
            final(self)@ == old(self)@.with_cur(after_brk(old(self)@.cur(), size)),
    {
        let ghost orig = self@;
        let mut t = self.take_current();
        let r = t.change_program_brk(size);
        self.put_current(t, Ghost(orig));
        r
    }

    /// Counts one more use of system call `syscall_id` by the current task.
    pub fn add_syscall_count(&mut self, syscall_id: usize)
        requires
            old(self).wf(),
            old(self).num_app > 0,
            syscall_id < MAX_SYSCALL_NUM,
            old(self)@.cur().syscall_count[syscall_id as int] < usize::MAX,
        ensures
            final(self).wf(),
            final(self)@ == after_add_count(old(self)@, syscall_id as int),
    {
        let ghost orig = self@;
        let mut t = self.take_current();
        let c = t.syscall_count[syscall_id];
        t.syscall_count.set(syscall_id, c + 1);
        self.put_current(t, Ghost(orig));
        assert(self@ =~= after_add_count(orig, syscall_id as int));
    }

    /// How often the current task has made system call `syscall_id`.
    pub fn get_syscall_count(&self, syscall_id: usize) -> (c: usize)
        requires
            self.wf(),
            self.num_app > 0,
            syscall_id < MAX_SYSCALL_NUM,
        ensures
            c == syscall_count_of(self@, syscall_id as int),
    {
        assert(self.tasks@[self.current_task as int]@ == self@.cur());
        self.tasks[self.current_task].syscall_count[syscall_id]
    }
}

/// No task is ready to run.
pub open spec fn no_task_ready(v: ManagerView) -> bool {
    forall|i: int| 0 <= i < v.tasks.len() ==> (#[trigger] v.tasks[i]).status != TaskStatus::Ready
}

/// Every task that had exited in `before` has still exited in `after`.
pub open spec fn exited_stay_exited(before: ManagerView, after: ManagerView) -> bool {
    &&& after.tasks.len() == before.tasks.len()
    &&& forall|i: int|
        0 <= i < before.tasks.len() && (#[trigger] before.tasks[i]).status == TaskStatus::Exited
            ==> after.tasks[i].status == TaskStatus::Exited
}

/// Choosing the next task finds none exactly when no task is ready, and a
/// task that has exited is never the one chosen.
pub proof fn lemma_run_next_facts(v: ManagerView)
    requires
        v.wf(),
    ensures
        next_ready(v) is None <==> no_task_ready(v),
        exited_stay_exited(v, after_run_next(v)),
{
    if v.tasks.len() > 0 {
        lemma_next_ready_round_robin(v);
        lemma_ready_from_range(v, 1);
        if next_ready(v) is Some {
            let next = next_ready(v).unwrap();
            let e = choose|e: int|
                1 <= e <= v.tasks.len() && next_ready(v) == Some(
                    #[trigger] ((v.current + e) % (v.tasks.len() as int)) as usize,
                ) && v.tasks[(v.current + e) % (v.tasks.len() as int)].status == TaskStatus::Ready
                    && forall|f: int|
                    1 <= f < e ==> v.tasks[#[trigger] ((v.current + f) % (v.tasks.len() as int))].status
                        != TaskStatus::Ready;
            vstd::arithmetic::div_mod::lemma_mod_bound((v.current + e) as int, v.tasks.len() as int);
            assert(v.tasks[next as int].status == TaskStatus::Ready);
            assert(!no_task_ready(v));
        }
    } else {
        assert(next_ready(v) is None);
    }
}

proof fn lemma_ready_from_range(v: ManagerView, d: int)
    requires
        v.tasks.len() > 0,
        1 <= d,
    ensures
        ready_from(v, d) matches Some(id) ==> id < v.tasks.len(),
    decreases v.tasks.len() + 1 - d,
{
    if 1 <= d <= v.tasks.len() {
        vstd::arithmetic::div_mod::lemma_mod_bound((v.current + d) as int, v.tasks.len() as int);
        lemma_ready_from_range(v, d + 1);
    }
}

/// Taking the current task off the CPU and switching to the next ready task
/// keeps at most the current task running.
pub proof fn lemma_run_next_keeps_only_current_running(v: ManagerView, st: TaskStatus)
    requires
        v.wf(),
        v.tasks.len() > 0,
        st != TaskStatus::Running,
        v.only_current_running(),
    ensures
        after_run_next(v.with_status(v.current as int, st)).only_current_running(),
{
    let w = v.with_status(v.current as int, st);
    lemma_ready_from_range(w, 1);
    assert forall|i: int| 0 <= i < w.tasks.len() implies (#[trigger] w.tasks[i]).status != TaskStatus::Running by {
        if i == v.current {
        } else {
            assert(w.tasks[i] == v.tasks[i]);
        }
    }
}

/// How often the current task has made system call `id`.
pub open spec fn syscall_count_of(v: ManagerView, id: int) -> usize {
    v.cur().syscall_count[id]
}

/// The manager after counting one more use of system call `id` by the current task.
pub open spec fn after_add_count(v: ManagerView, id: int) -> ManagerView {
    v.with_cur(
        TaskView {
            syscall_count: v.cur().syscall_count.update(id, (v.cur().syscall_count[id] + 1) as usize),
            ..v.cur()
        },
    )
}

/// Counting a use of system call `id` adds one to its count and leaves the
/// count of every other system call as it was.
pub proof fn lemma_count_after_add(v: ManagerView, id: int, other: int)
    requires
        v.wf(),
        v.tasks.len() > 0,
        0 <= id < MAX_SYSCALL_NUM,
        0 <= other < MAX_SYSCALL_NUM,
        v.cur().syscall_count[id] < usize::MAX,
    ensures
        syscall_count_of(after_add_count(v, id), id) == syscall_count_of(v, id) + 1,
        other != id ==> syscall_count_of(after_add_count(v, id), other) == syscall_count_of(v, other),
{
}

// ---------------------------------------------------------------------------
// Memory services of the current task

/// The arguments of a mapping request are acceptable: a non-empty length, a
/// page-aligned start, and a protection that is a non-empty subset of
/// read (1), write (2) and execute (4).
pub open spec fn mmap_args_valid(start: usize, len: usize, prot: usize) -> bool {
    &&& len != 0
    &&& start % PAGE_SIZE == 0
    &&& 1 <= prot <= 7
}

/// The permission bits of a user mapping with protection `prot`: user
/// access plus read, write and execute as `prot` asks.
pub open spec fn mmap_permission(prot: usize) -> u8 {
    (PERM_U + 2 * prot) as u8
}

/// The area that mapping `start..start + len` with protection `prot` adds.
pub open spec fn mmap_area(start: usize, len: usize, prot: usize) -> AreaView {
    AreaView {
        start_vpn: page_floor(start),
        end_vpn: page_ceil((start + len) as usize),
        perm: mmap_permission(prot),
        data: Map::empty(),
    }
}

/// The answer to a mapping request and the areas after it: refused with -1
/// when the arguments are not acceptable or the range shares a page with a
/// mapped area, else 0 with the new zero-filled area added.
pub open spec fn mmap_outcome(areas: Seq<AreaView>, start: usize, len: usize, prot: usize) -> (isize, Seq<AreaView>) {
    if !mmap_args_valid(start, len, prot) {
        (-1isize, areas)
    } else if overlaps(areas, page_floor(start) as int, page_ceil((start + len) as usize) as int) {
        (-1isize, areas)
    } else {
        (0isize, areas.push(mmap_area(start, len, prot)))
    }
}

/// The answer to an unmapping request and the areas after it: refused with
/// -1 when the length is zero, the start is not page-aligned, or no area is
/// exactly the range; else 0 with that area removed.
pub open spec fn munmap_outcome(areas: Seq<AreaView>, start: usize, len: usize) -> (isize, Seq<AreaView>) {
    if len == 0 || start % PAGE_SIZE != 0 {
        (-1isize, areas)
    } else {
        let f = find_exact(areas, page_floor(start) as int, page_ceil((start + len) as usize) as int);
        if f >= 0 {
            (0isize, areas.remove(f))
        } else {
            (-1isize, areas)
        }
    }
}

/// The answer to reading the byte at `va` for tracing: the byte, or -1 when
/// user code may not read it.
pub open spec fn read_trace_result(areas: Seq<AreaView>, va: usize) -> isize {
    if user_accessible(areas, va, false) {
        byte_at(areas, va).unwrap() as isize
    } else {
        -1isize
    }
}

/// The areas after the first `k` bytes of `bytes` are written from `ptr` on.
pub open spec fn written_from(areas: Seq<AreaView>, ptr: usize, bytes: Seq<u8>, k: nat) -> Seq<AreaView>
    decreases k,
{
    if k == 0 {
        areas
    } else {
        with_byte(written_from(areas, ptr, bytes, (k - 1) as nat), (ptr + k - 1) as usize, bytes[k - 1])
    }
}

/// How many bytes from `ptr` on user code may write, up to `len`.
pub open spec fn writable_prefix(areas: Seq<AreaView>, ptr: usize, len: nat) -> nat {
    first_false(Seq::new(len, |i: int| user_accessible(areas, (ptr + i) as usize, true)))
}

/// Writing `len` bytes from `ptr` on, out of `bytes_len` given, stays within
/// the machine: up to and including the first byte user code may not write
/// (or the last byte, when it may write them all), every address `ptr + i`
/// fits in a word, and every byte written is among those given.
pub open spec fn buffer_write_defined(areas: Seq<AreaView>, ptr: usize, len: nat, bytes_len: nat) -> bool {
    let k = writable_prefix(areas, ptr, len);
    &&& k <= bytes_len
    &&& k < len ==> ptr + k <= usize::MAX
    &&& k == len && len > 0 ==> ptr + (len - 1) <= usize::MAX
}

proof fn lemma_written_from_access(areas: Seq<AreaView>, ptr: usize, bytes: Seq<u8>, k: nat, va: usize, w: bool)
    ensures
        user_accessible(written_from(areas, ptr, bytes, k), va, w) == user_accessible(areas, va, w),
    decreases k,
{
    if k > 0 {
        let prev = written_from(areas, ptr, bytes, (k - 1) as nat);
        lemma_written_from_access(areas, ptr, bytes, (k - 1) as nat, va, w);
        let at = (ptr + k - 1) as usize;
        if find_area(prev, page_floor(at) as int) >= 0 {
            lemma_read_after_write(prev, at, bytes[k - 1]);
        }
    }
}

/// Protection bits outside read, write and execute, or none of them.
proof fn lemma_prot_bits(prot: usize)
    ensures
        (prot & !0x7usize != 0 || prot & 0x7usize == 0) <==> !(1 <= prot <= 7),
{
    assert(prot & !0x7usize != 0 <==> prot > 7) by (bit_vector);
    assert(prot <= 7 ==> (prot & 0x7usize == 0 <==> prot == 0)) by (bit_vector);
}

/// The permission bits for protection `prot`, built flag by flag.
fn permission_for(prot: usize) -> (perm: u8)
    requires
        1 <= prot <= 7,
    ensures
        perm == mmap_permission(prot),
{
    let mut map_perm: u8 = PERM_U;
    if prot & 0x1 != 0 {
        map_perm = map_perm | PERM_R;
    }
    let ghost m1 = map_perm;
    if prot & 0x2 != 0 {
        map_perm = map_perm | PERM_W;
    }
    let ghost m2 = map_perm;
    if prot & 0x4 != 0 {
        map_perm = map_perm | PERM_X;
    }
    let m3 = map_perm;
    assert(m3 == 16 + 2 * prot) by (bit_vector)
        requires
            1 <= prot <= 7,
            m1 == (if prot & 0x1 != 0 { 16u8 | 2u8 } else { 16u8 }),
            m2 == (if prot & 0x2 != 0 { m1 | 4u8 } else { m1 }),
            m3 == (if prot & 0x4 != 0 { m2 | 8u8 } else { m2 }),
    ;
    map_perm
}

impl TaskManager {
    /// Maps `start..start + len` into the current task with protection `prot`,
    /// see [`mmap_outcome`].
    pub fn sys_mmap(&mut self, start: usize, len: usize, prot: usize) -> (r: isize)
        requires
            old(self).wf(),
            mmap_args_valid(start, len, prot) ==> old(self).num_app > 0,
            mmap_args_valid(start, len, prot) ==> start + len <= usize::MAX,
        ensures
            final(self).wf(),
            r == mmap_outcome(old(self)@.cur().memory.areas, start, len, prot).0,
            !mmap_args_valid(start, len, prot) ==> final(self)@ == old(self)@,
            mmap_args_valid(start, len, prot) ==> final(self)@ == with_areas(old(self)@, mmap_outcome(old(self)@.cur().memory.areas, start, len, prot).1),
    {
        proof {
            lemma_prot_bits(prot);
        }
        if len == 0 || start % PAGE_SIZE != 0 || prot & !0x7 != 0 || prot & 0x7 == 0 {
            return -1;
        }
        let start_va = start;
        let end_va = start + len;
        let ghost orig = self@;
        let mut t = self.take_current();
        if t.memory_set.is_overlap(start_va, end_va) {
            self.put_current(t, Ghost(orig));
            assert(orig.cur() =~= TaskView {
                memory: MemoryView { areas: orig.cur().memory.areas, ..orig.cur().memory },
                ..orig.cur()
            });
            return -1;
        }
        let map_perm = permission_for(prot);
        t.memory_set.insert_framed_area(start_va, end_va, map_perm);
        self.put_current(t, Ghost(orig));
        0
    }

    /// Unmaps the area of the current task that is exactly
    /// `start..start + len`, see [`munmap_outcome`].
    pub fn sys_munmap(&mut self, start: usize, len: usize) -> (r: isize)
        requires
            old(self).wf(),
            len != 0 && start % PAGE_SIZE == 0 ==> old(self).num_app > 0,
            len != 0 && start % PAGE_SIZE == 0 ==> start + len <= usize::MAX,
        ensures
            final(self).wf(),
            r == munmap_outcome(old(self)@.cur().memory.areas, start, len).0,
            !(len != 0 && start % PAGE_SIZE == 0) ==> final(self)@ == old(self)@,
            len != 0 && start % PAGE_SIZE == 0 ==> final(self)@ == with_areas(old(self)@, munmap_outcome(old(self)@.cur().memory.areas, start, len).1),
    {
        if len == 0 || start % PAGE_SIZE != 0 {
            return -1;
        }
        let start_va = start;
        let end_va = start + len;
        let ghost orig = self@;
        let mut t = self.take_current();
        let removed = t.memory_set.remove_area(start_va, end_va);
        self.put_current(t, Ghost(orig));
        if removed {
            0
        } else {
            assert(orig.cur() =~= TaskView {
                memory: MemoryView { areas: orig.cur().memory.areas, ..orig.cur().memory },
                ..orig.cur()
            });
            -1
        }
    }

    /// Reads the byte at user address `id` of the current task, see
    /// [`read_trace_result`].
    pub fn read_trace(&self, id: usize) -> (r: isize)
        requires
            self.wf(),
            self.num_app > 0,
        ensures
            r == read_trace_result(self@.cur().memory.areas, id),
    {
        let memory_set = &self.tasks[self.current_task].memory_set;
        assert(memory_set@ == self@.cur().memory);
        let va = id;
        if !memory_set.is_user_accessible(va, false) {
            return -1;
        }
        match memory_set.get_byte_from_user_space(va) {
            Some(value) => value as isize,
            None => -1,
        }
    }

    /// Writes the low byte of `data` at user address `id` of the current
    /// task: 0, or -1 changing nothing when user code may not write there.
    pub fn write_trace(&mut self, id: usize, data: usize) -> (r: isize)
        requires
            old(self).wf(),
            old(self).num_app > 0,
        ensures
            final(self).wf(),
            r == (if user_accessible(old(self)@.cur().memory.areas, id, true) { 0isize } else { -1isize }),
            final(self)@ == (if user_accessible(old(self)@.cur().memory.areas, id, true) {
                with_areas(old(self)@, with_byte(old(self)@.cur().memory.areas, id, data as u8))
            } else {
                old(self)@
            }),
    {
        let va = id;
        let ghost orig = self@;
        let mut t = self.take_current();
        if !t.memory_set.is_user_accessible(va, true) {
            self.put_current(t, Ghost(orig));
            assert(orig.with_cur(orig.cur()) =~= orig);
            return -1;
        }
        let ok = t.memory_set.write_byte_to_user_space(va, data as u8);
        self.put_current(t, Ghost(orig));
        if ok {
            0
        } else {
            -1
        }
    }

    /// Writes `bytes[..len]` to user memory of the current task from `ptr`
    /// on, byte by byte; stops with -1 at the first byte user code may not
    /// write, keeping the bytes written before it.
    pub fn write_bytes_buffer(&mut self, ptr: usize, len: usize, bytes: &[u8]) -> (r: isize)
        requires
            old(self).wf(),
            old(self).num_app > 0,
            buffer_write_defined(old(self)@.cur().memory.areas, ptr, len as nat, bytes@.len()),
        ensures
            final(self).wf(),
            r == (if writable_prefix(old(self)@.cur().memory.areas, ptr, len as nat) == len {
                0isize
            } else {
                -1isize
            }),
            final(self)@ == with_areas(old(self)@, written_from(
                            old(self)@.cur().memory.areas,
                            ptr,
                            bytes@,
                            writable_prefix(old(self)@.cur().memory.areas, ptr, len as nat),
                        )),
    {
        let ghost orig = self@;
        let ghost areas0 = orig.cur().memory.areas;
        let ghost flags = Seq::new(len as nat, |i: int| user_accessible(areas0, (ptr + i) as usize, true));
        let mut t = self.take_current();
        let mut i: usize = 0;
        while i < len
            invariant
                0 <= i <= len,
                buffer_write_defined(areas0, ptr, len as nat, bytes@.len()),
                t@.wf(),
                t@ == (TaskView {
                    memory: MemoryView { areas: written_from(areas0, ptr, bytes@, i as nat), ..orig.cur().memory },
                    ..orig.cur()
                }),
                flags == Seq::new(len as nat, |i: int| user_accessible(areas0, (ptr + i) as usize, true)),
                forall|k: int| 0 <= k < i ==> #[trigger] flags[k],
                orig == old(self)@,
                orig.wf(),
                orig.tasks.len() > 0,
                areas0 == orig.cur().memory.areas,
                self.num_app == self.tasks.len(),
                self.current_task == orig.current,
                self.tasks.len() == orig.tasks.len(),
                orig.current < orig.tasks.len(),
                forall|j: int| 0 <= j < orig.tasks.len() && j != orig.current ==>
                    (#[trigger] self@.tasks[j]) == orig.tasks[j],
            decreases len - i,
        {
            proof {
                lemma_first_false_at_least(flags, i as int);
            }
            let va = ptr + i;
            proof {
                lemma_written_from_access(areas0, ptr, bytes@, i as nat, va, true);
            }
            if !t.memory_set.is_user_accessible(va, true) {
                proof {
                    lemma_first_false(flags, i as int);
                }
                self.put_current(t, Ghost(orig));
                return -1;
            }
            proof {
                assert(flags[i as int]);
                lemma_first_false_at_least(flags, i + 1);
            }
            let ok = t.memory_set.write_byte_to_user_space(va, bytes[i]);
            if !ok {
                proof {
                    lemma_first_false(flags, i as int);
                }
                self.put_current(t, Ghost(orig));
                return -1;
            }
            i += 1;
        }
        proof {
            lemma_first_false(flags, len as int);
        }
        self.put_current(t, Ghost(orig));
        0
    }
}

impl TaskManager {
    /// Whether writing `len` bytes from `ptr` on, out of `bytes_len` given,
    /// stays within the machine, see [`buffer_write_defined`]. A caller that
    /// gets `false` must not make the write.
    pub fn write_bytes_defined(&self, ptr: usize, len: usize, bytes_len: usize) -> (ok: bool)
        requires
            self.wf(),
            self.num_app > 0,
        ensures
            ok == buffer_write_defined(self@.cur().memory.areas, ptr, len as nat, bytes_len as nat),
    {
        let ghost areas = self@.cur().memory.areas;
        let ghost flags = Seq::new(len as nat, |i: int| user_accessible(areas, (ptr + i) as usize, true));
        let ms = &self.tasks[self.current_task].memory_set;
        assert(ms@.areas == areas);
        let mut i: usize = 0;
        while i < len
            invariant
                0 <= i <= len,
                i <= bytes_len,
                i > 0 ==> ptr + (i - 1) <= usize::MAX,
                ms@.areas == areas,
                areas == self@.cur().memory.areas,
                writable_prefix(areas, ptr, len as nat) == first_false(flags),
                flags == Seq::new(len as nat, |i: int| user_accessible(areas, (ptr + i) as usize, true)),
                forall|k: int| 0 <= k < i ==> #[trigger] flags[k],
            decreases len - i,
        {
            proof {
                lemma_first_false_at_least(flags, i as int);
            }
            if i > usize::MAX - ptr {
                return false;
            }
            let va = ptr + i;
            if !ms.is_user_accessible(va, true) {
                proof {
                    lemma_first_false(flags, i as int);
                }
                return i <= bytes_len;
            }
            proof {
                assert(flags[i as int]);
                lemma_first_false_at_least(flags, i + 1);
            }
            if i >= bytes_len {
                return false;
            }
            i += 1;
        }
        proof {
            lemma_first_false(flags, len as int);
        }
        true
    }
}

/// A range mapped by a successful request is what unmapping the same range
/// takes away, which gives back the areas as they were before the mapping.
pub proof fn lemma_mmap_then_munmap(areas: Seq<AreaView>, start: usize, len: usize, prot: usize)
    requires
        mmap_args_valid(start, len, prot),
        start + len <= usize::MAX,
        mmap_outcome(areas, start, len, prot).0 == 0,
    ensures
        munmap_outcome(mmap_outcome(areas, start, len, prot).1, start, len) == (0isize, areas),
{
    let a = mmap_area(start, len, prot);
    lemma_mapped_range_nonempty(start, len);
    lemma_insert_then_remove(areas, a);
}

/// A range that a successful request has mapped cannot be mapped again.
pub proof fn lemma_mmap_twice_refused(areas: Seq<AreaView>, start: usize, len: usize, prot: usize, prot2: usize)
    requires
        mmap_args_valid(start, len, prot),
        start + len <= usize::MAX,
        mmap_outcome(areas, start, len, prot).0 == 0,
    ensures
        mmap_outcome(mmap_outcome(areas, start, len, prot).1, start, len, prot2).0 == -1,
{
    let a = mmap_area(start, len, prot);
    lemma_mapped_range_nonempty(start, len);
    lemma_mapped_range_overlaps(areas, a, page_floor(start) as int, page_ceil((start + len) as usize) as int);
}

/// A byte written for tracing at an address user code may read and write
/// reads back.
pub proof fn lemma_read_trace_after_write(areas: Seq<AreaView>, va: usize, data: usize)
    requires
        user_accessible(areas, va, true),
        user_accessible(areas, va, false),
    ensures
        read_trace_result(with_byte(areas, va, data as u8), va) == (data as u8) as isize,
{
    lemma_read_after_write(areas, va, data as u8);
}

proof fn lemma_mapped_range_nonempty(start: usize, len: usize)
    requires
        len != 0,
        start % PAGE_SIZE == 0,
        start + len <= usize::MAX,
    ensures
        page_floor(start) < page_ceil((start + len) as usize),
{
    let e = (start + len) as usize;
    assert(start == PAGE_SIZE * (start / PAGE_SIZE)) by {
        vstd::arithmetic::div_mod::lemma_fundamental_div_mod(start as int, PAGE_SIZE as int);
    }
    if e % PAGE_SIZE == 0 {
        assert(e / PAGE_SIZE > start / PAGE_SIZE) by {
            vstd::arithmetic::div_mod::lemma_fundamental_div_mod(e as int, PAGE_SIZE as int);
            assert(e == PAGE_SIZE * (e / PAGE_SIZE));
            assert(PAGE_SIZE * (e / PAGE_SIZE) > PAGE_SIZE * (start / PAGE_SIZE));
            vstd::arithmetic::mul::lemma_mul_strict_inequality_converse(
                (start / PAGE_SIZE) as int, (e / PAGE_SIZE) as int, PAGE_SIZE as int);
        }
    } else {
        assert(e / PAGE_SIZE >= start / PAGE_SIZE) by {
            vstd::arithmetic::div_mod::lemma_div_is_ordered(start as int, e as int, PAGE_SIZE as int);
        }
    }
}

/// Moving the heap end by `size` and then back by `-size` returns the heap
/// to where it was, the second move answering with the end after the first.
pub proof fn lemma_brk_round_trip(t: TaskView, size: i32)
    requires
        t.wf(),
        size != i32::MIN,
        t.program_brk + size <= isize::MAX,
        brk_result(t, size) is Some,
    ensures
        brk_result(after_brk(t, size), (-size) as i32) == Some((t.program_brk + size) as usize),
        after_brk(after_brk(t, size), (-size) as i32) == t,
{
}

/// The manager after counting `k` uses of system call `id` by the current task.
pub open spec fn after_add_count_times(v: ManagerView, id: int, k: nat) -> ManagerView
    decreases k,
{
    if k == 0 {
        v
    } else {
        after_add_count(after_add_count_times(v, id, (k - 1) as nat), id)
    }
}

/// Counting `k` uses of system call `id` adds `k` to its count; the count of
/// every other system call, and every other task, stay as they were.
pub proof fn lemma_count_after_adds(v: ManagerView, id: int, k: nat)
    requires
        v.wf(),
        v.tasks.len() > 0,
        0 <= id < MAX_SYSCALL_NUM,
        v.cur().syscall_count[id] + k <= usize::MAX,
    ensures
        after_add_count_times(v, id, k).wf(),
        after_add_count_times(v, id, k).current == v.current,
        after_add_count_times(v, id, k).tasks.len() == v.tasks.len(),
        syscall_count_of(after_add_count_times(v, id, k), id) == syscall_count_of(v, id) + k,
        forall|other: int| 0 <= other < MAX_SYSCALL_NUM && other != id ==>
            #[trigger] syscall_count_of(after_add_count_times(v, id, k), other) == syscall_count_of(v, other),
        forall|t: int| 0 <= t < v.tasks.len() && t != v.current ==>
            #[trigger] after_add_count_times(v, id, k).tasks[t] == v.tasks[t],
    decreases k,
{
    if k > 0 {
        let w = after_add_count_times(v, id, (k - 1) as nat);
        lemma_count_after_adds(v, id, (k - 1) as nat);
        let u = after_add_count(w, id);
        assert forall|i: int| 0 <= i < u.tasks.len() implies (#[trigger] u.tasks[i]).wf() by {
            if i != w.current {
                assert(u.tasks[i] == w.tasks[i]);
            }
        }
        assert forall|other: int| 0 <= other < MAX_SYSCALL_NUM && other != id implies
            #[trigger] syscall_count_of(u, other) == syscall_count_of(v, other) by {
            assert(syscall_count_of(u, other) == syscall_count_of(w, other));
        }
        assert forall|t: int| 0 <= t < v.tasks.len() && t != v.current implies #[trigger] u.tasks[t] == v.tasks[t] by {
            assert(u.tasks[t] == w.tasks[t]);
        }
    }
}

/// The manager with the current task's mapped areas replaced by `areas`.
pub open spec fn with_areas(v: ManagerView, areas: Seq<AreaView>) -> ManagerView {
    v.with_cur(TaskView { memory: MemoryView { areas, ..v.cur().memory }, ..v.cur() })
}

/// Mapping a range into the current task and then unmapping the same range
/// both answer 0 and give back the manager exactly as it was.
pub proof fn lemma_task_mmap_then_munmap(v: ManagerView, start: usize, len: usize, prot: usize)
    requires
        v.wf(),
        v.tasks.len() > 0,
        mmap_args_valid(start, len, prot),
        start + len <= usize::MAX,
        mmap_outcome(v.cur().memory.areas, start, len, prot).0 == 0,
    ensures
        ({
            let w = with_areas(v, mmap_outcome(v.cur().memory.areas, start, len, prot).1);
            &&& munmap_outcome(w.cur().memory.areas, start, len) == (0isize, v.cur().memory.areas)
            &&& with_areas(w, munmap_outcome(w.cur().memory.areas, start, len).1) == v
        }),
{
    let areas = v.cur().memory.areas;
    let w = with_areas(v, mmap_outcome(areas, start, len, prot).1);
    assert(w.cur().memory.areas == mmap_outcome(areas, start, len, prot).1);
    lemma_mmap_then_munmap(areas, start, len, prot);
    let back = with_areas(w, areas);
    assert(back.tasks =~= v.tasks) by {
        assert forall|i: int| 0 <= i < v.tasks.len() implies back.tasks[i] == v.tasks[i] by {
            if i == v.current {
                assert(back.tasks[i] =~= v.tasks[i]);
            }
        }
    }
    assert(back =~= v);
}

// ---------------------------------------------------------------------------
// Laws of the memory services

proof fn lemma_written_from_effect(areas: Seq<AreaView>, ptr: usize, bytes: Seq<u8>, k: nat)
    requires
        k <= bytes.len(),
        k == 0 || ptr + (k - 1) <= usize::MAX,
        forall|i: int| 0 <= i < k ==> #[trigger] user_accessible(areas, (ptr + i) as usize, true),
    ensures
        forall|i: int| 0 <= i < k ==> #[trigger] byte_at(written_from(areas, ptr, bytes, k), (ptr + i) as usize)
            == Some(bytes[i]),
        forall|x: usize|
            (forall|i: int| 0 <= i < k ==> x != #[trigger] ((ptr + i) as usize)) ==> #[trigger] byte_at(
                written_from(areas, ptr, bytes, k),
                x,
            ) == byte_at(areas, x),
    decreases k,
{
    if k > 0 {
        let k1 = (k - 1) as nat;
        let prev = written_from(areas, ptr, bytes, k1);
        let at = (ptr + k - 1) as usize;
        assert(user_accessible(areas, (ptr + k1) as usize, true));
        lemma_written_from_effect(areas, ptr, bytes, k1);
        lemma_written_from_access(areas, ptr, bytes, k1, at, true);
        assert(user_accessible(prev, at, true));
        lemma_read_after_write(prev, at, bytes[k - 1]);
        let after = written_from(areas, ptr, bytes, k);
        assert(after == with_byte(prev, at, bytes[k - 1]));
        assert forall|i: int| 0 <= i < k implies #[trigger] byte_at(after, (ptr + i) as usize) == Some(bytes[i]) by {
            if i < k - 1 {
                assert((ptr + i) as usize != at);
                assert(byte_at(prev, (ptr + i) as usize) == Some(bytes[i]));
            }
        }
        assert forall|x: usize| (forall|i: int| 0 <= i < k ==> x != #[trigger] ((ptr + i) as usize)) implies
            #[trigger] byte_at(after, x) == byte_at(areas, x) by {
            assert(x != ((ptr + k1) as usize));
            assert forall|i: int| 0 <= i < k1 implies x != #[trigger] ((ptr + i) as usize) by {}
            assert(byte_at(prev, x) == byte_at(areas, x));
        }
    }
}

/// Writing a buffer of `len` bytes to user memory from `ptr` on, as
/// `write_bytes_buffer` and `sys_get_time` do: the leading bytes whose
/// addresses user code may write are written, up to the first address it may
/// not write; each byte written reads back at its address, on whatever page it
/// lies; every other byte, in particular every byte user code may not write,
/// and every permission stay as they were; and the write succeeds exactly
/// when user code may write every address of the buffer.
pub proof fn lemma_buffer_write(areas: Seq<AreaView>, ptr: usize, bytes: Seq<u8>, len: nat)
    requires
        buffer_write_defined(areas, ptr, len, bytes.len()),
    ensures
        ({
            let k = writable_prefix(areas, ptr, len);
            let after = written_from(areas, ptr, bytes, k);
            &&& k <= len
            &&& forall|i: int| 0 <= i < k ==> #[trigger] user_accessible(areas, (ptr + i) as usize, true)
            &&& k < len ==> !user_accessible(areas, (ptr + k) as usize, true)
            &&& (k == len <==> forall|i: int|
                0 <= i < len ==> #[trigger] user_accessible(areas, (ptr + i) as usize, true))
            &&& forall|i: int| 0 <= i < k ==> #[trigger] byte_at(after, (ptr + i) as usize) == Some(bytes[i])
            &&& forall|x: usize| !user_accessible(areas, x, true) ==> #[trigger] byte_at(after, x) == byte_at(areas, x)
            &&& forall|x: usize|
                (forall|i: int| 0 <= i < k ==> x != #[trigger] ((ptr + i) as usize)) ==> #[trigger] byte_at(after, x)
                    == byte_at(areas, x)
            &&& forall|x: usize, w: bool| #[trigger] user_accessible(after, x, w) == user_accessible(areas, x, w)
        }),
{
    let flags = Seq::new(len, |i: int| user_accessible(areas, (ptr + i) as usize, true));
    let k = writable_prefix(areas, ptr, len);
    lemma_first_false_props(flags);
    assert(k == first_false(flags));
    assert forall|i: int| 0 <= i < k implies #[trigger] user_accessible(areas, (ptr + i) as usize, true) by {
        assert(flags[i]);
    }
    if k < len {
        assert(!flags[k as int]);
    }
    if k == len {
        assert forall|i: int| 0 <= i < len implies #[trigger] user_accessible(areas, (ptr + i) as usize, true) by {
            assert(flags[i]);
        }
    }
    lemma_written_from_effect(areas, ptr, bytes, k);
    let after = written_from(areas, ptr, bytes, k);
    assert forall|x: usize| !user_accessible(areas, x, true) implies #[trigger] byte_at(after, x) == byte_at(areas, x) by {
        assert forall|i: int| 0 <= i < k implies x != #[trigger] ((ptr + i) as usize) by {
            assert(user_accessible(areas, (ptr + i) as usize, true));
        }
    }
    assert forall|x: usize, w: bool| #[trigger] user_accessible(after, x, w) == user_accessible(areas, x, w) by {
        lemma_written_from_access(areas, ptr, bytes, k, x, w);
    }
}

/// The permission bits that a mapping with protection `prot` gets.
proof fn lemma_permission_bits(prot: usize)
    requires
        1 <= prot <= 7,
    ensures
        mmap_permission(prot) & PERM_U != 0,
        (mmap_permission(prot) & PERM_R != 0) == (prot & 1 != 0),
        (mmap_permission(prot) & PERM_W != 0) == (prot & 2 != 0),
        (mmap_permission(prot) & PERM_X != 0) == (prot & 4 != 0),
        mmap_permission(prot) & !(PERM_U | PERM_R | PERM_W | PERM_X) == 0,
{
    let p = mmap_permission(prot);
    assert(p == (16 + 2 * prot) as u8);
    assert(p & 16u8 != 0) by (bit_vector) requires p == (16 + 2 * prot) as u8, 1 <= prot <= 7;
    assert((p & 2u8 != 0) == (prot & 1 != 0)) by (bit_vector) requires p == (16 + 2 * prot) as u8, 1 <= prot <= 7;
    assert((p & 4u8 != 0) == (prot & 2 != 0)) by (bit_vector) requires p == (16 + 2 * prot) as u8, 1 <= prot <= 7;
    assert((p & 8u8 != 0) == (prot & 4 != 0)) by (bit_vector) requires p == (16 + 2 * prot) as u8, 1 <= prot <= 7;
    assert(p & !(16u8 | 2u8 | 4u8 | 8u8) == 0) by (bit_vector) requires p == (16 + 2 * prot) as u8, 1 <= prot <= 7;
}

/// A mapping request succeeds exactly when the length is not zero, the start
/// is page-aligned, the protection asks for some of read (1), write (2) and
/// execute (4) and nothing else, and no mapped area shares a page with the
/// range. On success exactly one area is added, after the others: the pages of
/// the range, zero-filled, accessible from user mode and readable, writable
/// and executable exactly as the protection asks. On failure nothing changes.
pub proof fn lemma_mmap_law(areas: Seq<AreaView>, start: usize, len: usize, prot: usize)
    requires
        mmap_args_valid(start, len, prot) ==> start + len <= usize::MAX,
    ensures
        ({
            let (r, after) = mmap_outcome(areas, start, len, prot);
            let s = page_floor(start);
            let e = page_ceil((start + len) as usize);
            &&& r == 0 || r == -1
            &&& (r == 0 <==> (len != 0 && start % PAGE_SIZE == 0 && 1 <= prot <= 7 && forall|k: int|
                0 <= k < areas.len() ==> !(areas[k].start_vpn < e && s < #[trigger] areas[k].end_vpn)))
            &&& r != 0 ==> after == areas
            &&& r == 0 ==> {
                &&& after.len() == areas.len() + 1
                &&& after.drop_last() == areas
                &&& after.last().start_vpn == s
                &&& after.last().end_vpn == e
                &&& after.last().data == Map::<usize, u8>::empty()
                &&& after.last().perm & PERM_U != 0
                &&& (after.last().perm & PERM_R != 0) == (prot & 1 != 0)
                &&& (after.last().perm & PERM_W != 0) == (prot & 2 != 0)
                &&& (after.last().perm & PERM_X != 0) == (prot & 4 != 0)
                &&& after.last().perm & !(PERM_U | PERM_R | PERM_W | PERM_X) == 0
            }
        }),
{
    let (r, after) = mmap_outcome(areas, start, len, prot);
    if r == 0 {
        lemma_permission_bits(prot);
        assert(after.drop_last() =~= areas);
    }
}

/// An unmapping request succeeds exactly when the length is not zero, the
/// start is page-aligned, and some mapped area is exactly the pages of the
/// range; it then removes that area, the first such, and nothing else. On
/// failure nothing changes, however the range overlaps the mapped areas.
pub proof fn lemma_munmap_law(areas: Seq<AreaView>, start: usize, len: usize)
    ensures
        ({
            let (r, after) = munmap_outcome(areas, start, len);
            let s = page_floor(start);
            let e = page_ceil((start + len) as usize);
            &&& r == 0 || r == -1
            &&& (r == 0 <==> (len != 0 && start % PAGE_SIZE == 0 && exists|i: int|
                0 <= i < areas.len() && #[trigger] areas[i].start_vpn == s && areas[i].end_vpn == e))
            &&& r != 0 ==> after == areas
            &&& r == 0 ==> exists|i: int|
                0 <= i < areas.len() && #[trigger] areas[i].start_vpn == s && areas[i].end_vpn == e
                    && (forall|k: int| 0 <= k < i ==> !(#[trigger] areas[k].start_vpn == s && areas[k].end_vpn == e))
                    && after == areas.remove(i)
        }),
{
    let s = page_floor(start);
    let e = page_ceil((start + len) as usize);
    lemma_find_exact_props(areas, s as int, e as int);
    let f = find_exact(areas, s as int, e as int);
    if f >= 0 {
        assert(areas[f].start_vpn == s && areas[f].end_vpn == e);
    }
}

} // verus!
