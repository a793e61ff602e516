//! Process management system calls, made on behalf of the current task.
use vstd::prelude::*;
use crate::config::MAX_SYSCALL_NUM;
use crate::mm::{AreaView, MemoryView, byte_at, user_accessible, with_byte};
use crate::task::{
    TaskManager, TaskStatus, TaskView, Switch, ManagerView, after_run_next, run_next_switch,
    brk_result, after_brk, mmap_args_valid, mmap_outcome, munmap_outcome, read_trace_result,
    syscall_count_of, with_areas, written_from, writable_prefix, buffer_write_defined, exited_stay_exited, no_task_ready,
    after_add_count, lemma_buffer_write, lemma_count_after_add, lemma_read_trace_after_write,
};

verus! {

/// A time as seconds and microseconds, laid out as two machine words.
#[derive(Clone, Copy, PartialEq, Eq, Debug, Structural)]
pub struct TimeVal {
    pub sec: usize,
    pub usec: usize,
}

/// Bytes in a machine word.
pub open spec fn word_bytes() -> nat {
    (usize::BITS / 8) as nat
}

/// The `n` low bytes of `x`, least significant first.
pub open spec fn le_bytes(x: nat, n: nat) -> Seq<u8>
    decreases n,
{
    if n == 0 {
        Seq::empty()
    } else {
        seq![(x % 256) as u8] + le_bytes(x / 256, (n - 1) as nat)
    }
}

/// The bytes of a [`TimeVal`] as the user program reads it.
pub open spec fn time_val_bytes(tv: TimeVal) -> Seq<u8> {
    le_bytes(tv.sec as nat, word_bytes()) + le_bytes(tv.usec as nat, word_bytes())
}

/// The time `us` microseconds after boot as seconds and microseconds.
pub open spec fn time_val_of(us: usize) -> TimeVal {
    TimeVal { sec: (us / 1_000_000) as usize, usec: (us % 1_000_000) as usize }
}

/// Appends the bytes of machine word `x` to `out`, least significant first.
fn push_word(out: &mut Vec<u8>, x: usize)
    ensures
        final(out)@ == old(out)@ + le_bytes(x as nat, word_bytes()),
{
    let width: usize = (usize::BITS / 8) as usize;
    let mut v: usize = x;
    let mut k: usize = 0;
    while k < width
        invariant
            0 <= k <= width,
            width == word_bytes(),
            out@ + le_bytes(v as nat, (width - k) as nat) == old(out)@ + le_bytes(x as nat, word_bytes()),
        decreases width - k,
    {
        let ghost before = out@;
        let ghost m = (width - k) as nat;
        out.push((v % 256) as u8);
        assert(le_bytes(v as nat, m) == seq![(v % 256) as u8] + le_bytes((v / 256) as nat, (m - 1) as nat));
        assert(out@ + le_bytes((v / 256) as nat, (m - 1) as nat) =~= before + le_bytes(v as nat, m));
        v = v / 256;
        k += 1;
    }
    assert(le_bytes(v as nat, 0) =~= Seq::<u8>::empty());
    assert(out@ =~= out@ + le_bytes(v as nat, 0));
}

impl TimeVal {
    /// The time `us` microseconds after boot.
    pub fn from_us(us: usize) -> (tv: TimeVal)
        ensures
            tv == time_val_of(us),
    {
        TimeVal { sec: us / 1_000_000, usec: us % 1_000_000 }
    }

    /// The bytes of this value as the user program reads it.
    pub fn to_bytes(&self) -> (bytes: Vec<u8>)
        ensures
            bytes@ == time_val_bytes(*self),
    {
        let mut bytes: Vec<u8> = Vec::new();
        push_word(&mut bytes, self.sec);
        push_word(&mut bytes, self.usec);
        assert(bytes@ =~= time_val_bytes(*self));
        bytes
    }
}

/// The current task exits with `_exit_code`; the answer is the switch to the
/// next ready task, which must exist: when none does, all tasks have completed.
pub fn sys_exit(tm: &mut TaskManager, _exit_code: i32) -> (r: Switch)
    requires
        old(tm).wf(),
        old(tm).num_app > 0,
        old(tm)@.cur().status == TaskStatus::Running,
        !no_task_ready(old(tm)@.with_status(old(tm)@.current as int, TaskStatus::Exited)),
    ensures
        final(tm).wf(),
        Some(r) == run_next_switch(old(tm)@.with_status(old(tm)@.current as int, TaskStatus::Exited)),
        final(tm)@ == after_run_next(old(tm)@.with_status(old(tm)@.current as int, TaskStatus::Exited)),
        final(tm)@.tasks[old(tm)@.current as int].status == TaskStatus::Exited,
        exited_stay_exited(old(tm)@, final(tm)@),
{
    tm.exit_current_and_run_next()
}

/// The current task gives up the CPU to the next ready task; returns 0.
pub fn sys_yield(tm: &mut TaskManager) -> (r: (isize, Switch))
    requires
        old(tm).wf(),
        old(tm).num_app > 0,
        old(tm)@.cur().status == TaskStatus::Running,
    ensures
        final(tm).wf(),
        r.0 == 0,
        exited_stay_exited(old(tm)@, final(tm)@),
        Some(r.1) == run_next_switch(old(tm)@.with_status(old(tm)@.current as int, TaskStatus::Ready)),
        final(tm)@ == after_run_next(old(tm)@.with_status(old(tm)@.current as int, TaskStatus::Ready)),
{
    let s = tm.suspend_current_and_run_next();
    (0, s)
}

/// The manager after a trace request that writes the low byte of `data` at `id`.
pub open spec fn after_write_trace(v: ManagerView, id: usize, data: usize) -> ManagerView {
    if user_accessible(v.cur().memory.areas, id, true) {
        v.with_cur(
            TaskView {
                memory: MemoryView { areas: with_byte(v.cur().memory.areas, id, data as u8), ..v.cur().memory },
                ..v.cur()
            },
        )
    } else {
        v
    }
}

/// The answer to a trace request: 0 reads the byte at user address `id`,
/// 1 writes the low byte of `data` there, 2 tells how often the current task
/// has made system call `id`; anything else is refused with -1.
pub open spec fn trace_result(v: ManagerView, trace_request: usize, id: usize, data: usize) -> isize {
    if trace_request == 0 {
        read_trace_result(v.cur().memory.areas, id)
    } else if trace_request == 1 {
        if user_accessible(v.cur().memory.areas, id, true) {
            0isize
        } else {
            -1isize
        }
    } else if trace_request == 2 {
        syscall_count_of(v, id as int) as isize
    } else {
        -1isize
    }
}

/// Reads or writes a byte of user memory, or reports a system call count,
/// as [`trace_result`] describes.
pub fn sys_trace(tm: &mut TaskManager, trace_request: usize, id: usize, data: usize) -> (r: isize)
    requires
        old(tm).wf(),
        old(tm).num_app > 0,
        trace_request == 2 ==> id < MAX_SYSCALL_NUM,
    ensures
        final(tm).wf(),
        r == trace_result(old(tm)@, trace_request, id, data),
        final(tm)@ == (if trace_request == 1 {
            after_write_trace(old(tm)@, id, data)
        } else {
            old(tm)@
        }),
{
    match trace_request {
        0 => tm.read_trace(id),
        1 => tm.write_trace(id, data),
        2 => tm.get_syscall_count(id) as isize,
        _ => -1,
    }
}

/// Maps `start..start + len` into the current task, see [`mmap_outcome`].
pub fn sys_mmap(tm: &mut TaskManager, start: usize, len: usize, prot: usize) -> (r: isize)
    requires
        old(tm).wf(),
        mmap_args_valid(start, len, prot) ==> old(tm).num_app > 0,
        mmap_args_valid(start, len, prot) ==> start + len <= usize::MAX,
    ensures
        final(tm).wf(),
        r == mmap_outcome(old(tm)@.cur().memory.areas, start, len, prot).0,
        !mmap_args_valid(start, len, prot) ==> final(tm)@ == old(tm)@,
        mmap_args_valid(start, len, prot) ==> final(tm)@ == with_areas(old(tm)@, mmap_outcome(old(tm)@.cur().memory.areas, start, len, prot).1),
{
    tm.sys_mmap(start, len, prot)
}

/// Unmaps `start..start + len` from the current task, see [`munmap_outcome`].
pub fn sys_munmap(tm: &mut TaskManager, start: usize, len: usize) -> (r: isize)
    requires
        old(tm).wf(),
        len != 0 && start % crate::config::PAGE_SIZE == 0 ==> old(tm).num_app > 0,
        len != 0 && start % crate::config::PAGE_SIZE == 0 ==> start + len <= usize::MAX,
    ensures
        final(tm).wf(),
        r == munmap_outcome(old(tm)@.cur().memory.areas, start, len).0,
        !(len != 0 && start % crate::config::PAGE_SIZE == 0) ==> final(tm)@ == old(tm)@,
        len != 0 && start % crate::config::PAGE_SIZE == 0 ==> final(tm)@ == with_areas(old(tm)@, munmap_outcome(old(tm)@.cur().memory.areas, start, len).1),
{
    tm.sys_munmap(start, len)
}

/// Moves the heap end of the current task by `size` bytes and returns the
/// old end, or -1 when the heap would end below its bottom.
pub fn sys_sbrk(tm: &mut TaskManager, size: i32) -> (r: isize)
    requires
        old(tm).wf(),
        old(tm).num_app > 0,
        old(tm)@.cur().program_brk + size <= isize::MAX,
    ensures
        final(tm).wf(),
        r == (match brk_result(old(tm)@.cur(), size) {
            Some(old_brk) => old_brk as isize,
            None => -1isize,
        }),
        final(tm)@ == old(tm)@.with_cur(after_brk(old(tm)@.cur(), size)),
{
    if let Some(old_brk) = tm.change_current_program_brk(size) {
        old_brk as isize
    } else {
        -1
    }
}

/// Writes the time `now_us` microseconds after boot, as a [`TimeVal`], to
/// user address `ts` of the current task: 0, or -1 at the first byte user
/// code may not write, keeping the bytes written before it.
pub fn sys_get_time(tm: &mut TaskManager, ts: usize, now_us: usize) -> (r: isize)
    requires
        old(tm).wf(),
        old(tm).num_app > 0,
        buffer_write_defined(old(tm)@.cur().memory.areas, ts, 2 * word_bytes(), 2 * word_bytes()),
    ensures
        final(tm).wf(),
        r == (if writable_prefix(old(tm)@.cur().memory.areas, ts, 2 * word_bytes()) == 2 * word_bytes() {
            0isize
        } else {
            -1isize
        }),
        final(tm)@ == with_areas(old(tm)@, written_from(
                        old(tm)@.cur().memory.areas,
                        ts,
                        time_val_bytes(time_val_of(now_us)),
                        writable_prefix(old(tm)@.cur().memory.areas, ts, 2 * word_bytes()),
                    )),
{
    let timeval = TimeVal::from_us(now_us);
    let bytes = timeval.to_bytes();
    proof {
        lemma_le_bytes_len(timeval.sec as nat, word_bytes());
        lemma_le_bytes_len(timeval.usec as nat, word_bytes());
    }
    let len = bytes.len();
    tm.write_bytes_buffer(ts, len, bytes.as_slice())
}

proof fn lemma_le_bytes_len(x: nat, n: nat)
    ensures
        le_bytes(x, n).len() == n,
    decreases n,
{
    if n > 0 {
        lemma_le_bytes_len(x / 256, (n - 1) as nat);
    }
}

/// A trace request is answered from the calling task's own memory: reading
/// gives the byte at `id` when user code may read it (-1 otherwise), a byte
/// written where user code may read and write reads back as the low byte of
/// `data`, and every system call the task makes adds one to its count.
pub proof fn lemma_trace_law(v: ManagerView, id: usize, data: usize, other: usize)
    requires
        v.wf(),
        v.tasks.len() > 0,
    ensures
        trace_result(v, 0, id, other) == (if user_accessible(v.cur().memory.areas, id, false) {
            byte_at(v.cur().memory.areas, id).unwrap() as isize
        } else {
            -1isize
        }),
        trace_result(v, 1, id, data) == 0 <==> user_accessible(v.cur().memory.areas, id, true),
        user_accessible(v.cur().memory.areas, id, true) && user_accessible(v.cur().memory.areas, id, false)
            ==> trace_result(after_write_trace(v, id, data), 0, id, other) == (data as u8) as isize,
        !user_accessible(v.cur().memory.areas, id, true) ==> after_write_trace(v, id, data) == v,
        id < MAX_SYSCALL_NUM && v.cur().syscall_count[id as int] < isize::MAX ==> trace_result(
            after_add_count(v, id as int),
            2,
            id,
            other,
        ) == trace_result(v, 2, id, other) + 1,
{
    let areas = v.cur().memory.areas;
    if user_accessible(areas, id, true) && user_accessible(areas, id, false) {
        lemma_read_trace_after_write(areas, id, data);
        let w = after_write_trace(v, id, data);
        assert(w.cur().memory.areas == with_byte(areas, id, data as u8));
    }
    if id < MAX_SYSCALL_NUM && v.cur().syscall_count[id as int] < isize::MAX {
        lemma_count_after_add(v, id as int, id as int);
    }
}

/// Getting the time writes the seconds word and then the microseconds word
/// of the time `now_us` microseconds after boot at user address `ts`, least
/// significant byte first: it succeeds exactly when every one of those
/// addresses is user-writable, each byte written reads back, and no byte
/// user code may not write changes.
pub proof fn lemma_get_time_law(areas: Seq<AreaView>, ts: usize, now_us: usize)
    requires
        buffer_write_defined(areas, ts, 2 * word_bytes(), 2 * word_bytes()),
    ensures
        ({
            let n = 2 * word_bytes();
            let bytes = time_val_bytes(time_val_of(now_us));
            let k = writable_prefix(areas, ts, n);
            let after = written_from(areas, ts, bytes, k);
            &&& bytes.len() == n
            &&& (k == n <==> forall|i: int| 0 <= i < n ==> #[trigger] user_accessible(areas, (ts + i) as usize, true))
            &&& forall|i: int| 0 <= i < k ==> #[trigger] byte_at(after, (ts + i) as usize) == Some(bytes[i])
            &&& k == n ==> byte_at(after, ts) == Some(((now_us / 1_000_000) % 256) as u8)
            &&& k == n ==> byte_at(after, (ts + word_bytes()) as usize) == Some(((now_us % 1_000_000) % 256) as u8)
            &&& forall|x: usize| !user_accessible(areas, x, true) ==> #[trigger] byte_at(after, x) == byte_at(areas, x)
        }),
{
    let n = 2 * word_bytes();
    let tv = time_val_of(now_us);
    let bytes = time_val_bytes(tv);
    lemma_le_bytes_len(tv.sec as nat, word_bytes());
    lemma_le_bytes_len(tv.usec as nat, word_bytes());
    assert(bytes.len() == n);
    lemma_buffer_write(areas, ts, bytes, n);
    let k = writable_prefix(areas, ts, n);
    let after = written_from(areas, ts, bytes, k);
    assert(word_bytes() > 0) by {
        assert(usize::BITS == 32 || usize::BITS == 64);
    }
    if k == n {
        assert(byte_at(after, (ts + 0) as usize) == Some(bytes[0]));
        assert(bytes[0] == le_bytes(tv.sec as nat, word_bytes())[0]);
        assert(byte_at(after, (ts + word_bytes()) as usize) == Some(bytes[word_bytes() as int]));
        assert(bytes[word_bytes() as int] == le_bytes(tv.usec as nat, word_bytes())[0]);
    }
}

} // verus!
