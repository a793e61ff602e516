//! Synchronisation system calls of a process: creation and use of mutexes,
//! semaphores and condition variables, sleeping, and the optional deadlock
//! detection that refuses a lock or a semaphore down that would leave no safe
//! sequence.
//!
//! The calls here make the decisions and keep the bookkeeping. Blocking,
//! waking and timers belong to the scheduler that runs them: each call
//! answers with the value the system call returns and the [`SyncAction`]
//! that the scheduler then performs.
use vstd::prelude::*;
use crate::seq_util::{first_false, lemma_first_false, lemma_first_false_at_least};
use crate::banker::{
    entry,
    ResourceUsage, UsageView, need_of, allocation_of, needs_of, allocations_of, usage_views,
    safe_state, chains_fit, is_safe_state, detector_sums_fit,
};

verus! {

/// The two kinds of mutex a process can create.
#[derive(Clone, Copy, PartialEq, Eq, Debug, Structural)]
pub enum MutexKind {
    /// Spins (yielding) until the lock is free.
    Spin,
    /// Puts the waiting thread to sleep until the lock is handed over.
    Blocking,
}

/// What the scheduler does once a synchronisation call has returned.
#[derive(Clone, Copy, PartialEq, Eq, Debug, Structural)]
pub enum SyncAction {
    /// Nothing more.
    Nothing,
    /// Add a timer for the calling thread and block it until `expire_ms`.
    Sleep { expire_ms: usize },
    /// Lock the mutex.
    LockMutex { mutex_id: usize },
    /// Unlock the mutex.
    UnlockMutex { mutex_id: usize },
    /// Raise the semaphore.
    SemaphoreUp { sem_id: usize },
    /// Lower the semaphore, waiting if it has no unit left.
    SemaphoreDown { sem_id: usize },
    /// Wake one waiter of the condition variable.
    SignalCondvar { condvar_id: usize },
    /// Release the mutex, wait on the condition variable, take the mutex again.
    WaitCondvar { condvar_id: usize, mutex_id: usize },
}

/// The synchronisation state of one process.
///
/// Slot `i` of each list is the object with id `i`; `None` (for condition
/// variables, `false`) marks a free slot. `m_available[i]` and
/// `s_available[i]` count the units of mutex or semaphore `i` that the
/// deadlock detector regards as available; `tasks[tid]` is the bookkeeping
/// of the thread with id `tid`, `None` where no thread has that id.
pub struct ProcessSync {
    pub mutex_list: Vec<Option<MutexKind>>,
    pub semaphore_list: Vec<Option<usize>>,
    pub condvar_list: Vec<bool>,
    pub m_available: Vec<usize>,
    pub s_available: Vec<usize>,
    pub deadlock_detect_enabled: bool,
    pub tasks: Vec<Option<ResourceUsage>>,
}

/// The contents of a [`ProcessSync`].
#[verifier::ext_equal]
pub struct ProcessSyncView {
    pub mutexes: Seq<Option<MutexKind>>,
    pub semaphores: Seq<Option<usize>>,
    pub condvars: Seq<bool>,
    pub m_available: Seq<usize>,
    pub s_available: Seq<usize>,
    pub deadlock_detect: bool,
    pub tasks: Seq<Option<UsageView>>,
}

pub open spec fn usage_opt_view(o: Option<ResourceUsage>) -> Option<UsageView> {
    match o {
        Some(u) => Some(u@),
        None => None,
    }
}

impl View for ProcessSync {
    type V = ProcessSyncView;

    open spec fn view(&self) -> ProcessSyncView {
        ProcessSyncView {
            mutexes: self.mutex_list@,
            semaphores: self.semaphore_list@,
            condvars: self.condvar_list@,
            m_available: self.m_available@,
            s_available: self.s_available@,
            deadlock_detect: self.deadlock_detect_enabled,
            tasks: self.tasks@.map_values(|o: Option<ResourceUsage>| usage_opt_view(o)),
        }
    }
}

impl ProcessSyncView {
    /// Each mutex and each semaphore has its count of available units.
    pub open spec fn wf(self) -> bool {
        &&& self.m_available.len() == self.mutexes.len()
        &&& self.s_available.len() == self.semaphores.len()
    }
}

impl ProcessSync {
    pub open spec fn wf(&self) -> bool {
        self@.wf()
    }

    /// A process with no synchronisation objects, no threads and deadlock
    /// detection off.
    pub fn new() -> (p: Self)
        ensures
            p.wf(),
            p@ == (ProcessSyncView {
                mutexes: Seq::empty(),
                semaphores: Seq::empty(),
                condvars: Seq::empty(),
                m_available: Seq::empty(),
                s_available: Seq::empty(),
                deadlock_detect: false,
                tasks: Seq::empty(),
            }),
    {
        let p = ProcessSync {
            mutex_list: Vec::new(),
            semaphore_list: Vec::new(),
            condvar_list: Vec::new(),
            m_available: Vec::new(),
            s_available: Vec::new(),
            deadlock_detect_enabled: false,
            tasks: Vec::new(),
        };
        assert(p@.tasks =~= Seq::empty());
        p
    }

    /// Registers a new thread, which needs and holds nothing, and returns its id.
    pub fn add_thread(&mut self) -> (tid: usize)
        requires
            old(self).tasks.len() < usize::MAX,
        ensures
            tid == old(self).tasks.len(),
            final(self)@ == (ProcessSyncView {
                tasks: old(self)@.tasks.push(Some(ResourceUsage::new_view())),
                ..old(self)@
            }),
    {
        let tid = self.tasks.len();
        self.tasks.push(Some(ResourceUsage::new()));
        assert(self@.tasks =~= old(self)@.tasks.push(Some(ResourceUsage::new_view())));
        tid
    }
}

impl ResourceUsage {
    pub open spec fn new_view() -> UsageView {
        UsageView {
            m_need: Seq::empty(),
            m_allocation: Seq::empty(),
            s_need: Seq::empty(),
            s_allocation: Seq::empty(),
        }
    }
}

// ---------------------------------------------------------------------------
// Slots

/// Which slots of a list are taken.
pub open spec fn taken_options<A>(s: Seq<Option<A>>) -> Seq<bool> {
    s.map_values(|o: Option<A>| o is Some)
}

/// The position of the first `None` in `list`, or its length when there is none.
fn find_free_option<A>(list: &Vec<Option<A>>) -> (id: usize)
    ensures
        id == first_false(taken_options(list@)),
        id <= list.len(),
{
    let mut i: usize = 0;
    while i < list.len()
        invariant
            0 <= i <= list.len(),
            forall|k: int| 0 <= k < i ==> #[trigger] list@[k] is Some,
        ensures
            0 <= i <= list.len(),
            forall|k: int| 0 <= k < i ==> #[trigger] list@[k] is Some,
            i < list.len() ==> list@[i as int] is None,
        decreases list.len() - i,
    {
        if list[i].is_none() {
            break;
        }
        i += 1;
    }
    proof {
        lemma_first_false(taken_options(list@), i as int);
    }
    i
}

/// The position of the first `false` in `list`, or its length when there is none.
fn find_free_flag(list: &Vec<bool>) -> (id: usize)
    ensures
        id == first_false(list@),
        id <= list.len(),
{
    let mut i: usize = 0;
    while i < list.len()
        invariant
            0 <= i <= list.len(),
            forall|k: int| 0 <= k < i ==> #[trigger] list@[k],
        ensures
            0 <= i <= list.len(),
            forall|k: int| 0 <= k < i ==> #[trigger] list@[k],
            i < list.len() ==> !list@[i as int],
        decreases list.len() - i,
    {
        if !list[i] {
            break;
        }
        i += 1;
    }
    proof {
        lemma_first_false(list@, i as int);
    }
    i
}

// ---------------------------------------------------------------------------
// Creation

pub open spec fn kind_for(blocking: bool) -> MutexKind {
    if blocking {
        MutexKind::Blocking
    } else {
        MutexKind::Spin
    }
}

/// The state after creating a mutex: it takes the first free slot, with one
/// available unit.
pub open spec fn after_mutex_create(s: ProcessSyncView, blocking: bool) -> ProcessSyncView {
    let id = first_false(taken_options(s.mutexes));
    if id < s.mutexes.len() {
        ProcessSyncView {
            mutexes: s.mutexes.update(id as int, Some(kind_for(blocking))),
            m_available: s.m_available.update(id as int, 1),
            ..s
        }
    } else {
        ProcessSyncView {
            mutexes: s.mutexes.push(Some(kind_for(blocking))),
            m_available: s.m_available.push(1),
            ..s
        }
    }
}

/// The state after creating a semaphore with `res_count` units.
pub open spec fn after_semaphore_create(s: ProcessSyncView, res_count: usize) -> ProcessSyncView {
    let id = first_false(taken_options(s.semaphores));
    if id < s.semaphores.len() {
        ProcessSyncView {
            semaphores: s.semaphores.update(id as int, Some(res_count)),
            s_available: s.s_available.update(id as int, res_count),
            ..s
        }
    } else {
        ProcessSyncView {
            semaphores: s.semaphores.push(Some(res_count)),
            s_available: s.s_available.push(res_count),
            ..s
        }
    }
}

/// The state after creating a condition variable.
pub open spec fn after_condvar_create(s: ProcessSyncView) -> ProcessSyncView {
    let id = first_false(s.condvars);
    if id < s.condvars.len() {
        ProcessSyncView { condvars: s.condvars.update(id as int, true), ..s }
    } else {
        ProcessSyncView { condvars: s.condvars.push(true), ..s }
    }
}

/// Creates a mutex, blocking or spinning, in the first free slot and returns its id.
pub fn sys_mutex_create(process: &mut ProcessSync, blocking: bool) -> (id: isize)
    requires
        old(process).wf(),
        old(process).mutex_list.len() < isize::MAX,
    ensures
        final(process).wf(),
        id == first_false(taken_options(old(process)@.mutexes)),
        final(process)@ == after_mutex_create(old(process)@, blocking),
        0 <= id < final(process).mutex_list.len(),
        final(process).mutex_list@[id as int] == Some(kind_for(blocking)),
        final(process).m_available@[id as int] == 1,
        final(process).semaphore_list@ == old(process).semaphore_list@,
        final(process).s_available@ == old(process).s_available@,
        final(process).condvar_list@ == old(process).condvar_list@,
        final(process).deadlock_detect_enabled == old(process).deadlock_detect_enabled,
{
    proof {
        lemma_first_false_at_least(taken_options(old(process)@.mutexes), 0);
    }
    let mutex = if !blocking {
        Some(MutexKind::Spin)
    } else {
        Some(MutexKind::Blocking)
    };
    let free = find_free_option(&process.mutex_list);
    if free < process.mutex_list.len() {
        process.mutex_list.set(free, mutex);
        process.m_available.set(free, 1);
        assert(process@ =~= after_mutex_create(old(process)@, blocking));
        free as isize
    } else {
        process.mutex_list.push(mutex);
        process.m_available.push(1);
        assert(process@ =~= after_mutex_create(old(process)@, blocking));
        process.mutex_list.len() as isize - 1
    }
}

/// Creates a semaphore with `res_count` units in the first free slot and returns its id.
pub fn sys_semaphore_create(process: &mut ProcessSync, res_count: usize) -> (id: isize)
    requires
        old(process).wf(),
        old(process).semaphore_list.len() < isize::MAX,
    ensures
        final(process).wf(),
        id == first_false(taken_options(old(process)@.semaphores)),
        final(process)@ == after_semaphore_create(old(process)@, res_count),
        0 <= id < final(process).semaphore_list.len(),
        final(process).semaphore_list@[id as int] == Some(res_count),
        final(process).s_available@[id as int] == res_count,
        final(process).mutex_list@ == old(process).mutex_list@,
        final(process).m_available@ == old(process).m_available@,
        final(process).condvar_list@ == old(process).condvar_list@,
        final(process).deadlock_detect_enabled == old(process).deadlock_detect_enabled,
{
    proof {
        lemma_first_false_at_least(taken_options(old(process)@.semaphores), 0);
    }
    let free = find_free_option(&process.semaphore_list);
    let id = if free < process.semaphore_list.len() {
        process.semaphore_list.set(free, Some(res_count));
        process.s_available.set(free, res_count);
        free
    } else {
        process.semaphore_list.push(Some(res_count));
        process.s_available.push(res_count);
        process.semaphore_list.len() - 1
    };
    assert(process@ =~= after_semaphore_create(old(process)@, res_count));
    id as isize
}

/// Creates a condition variable in the first free slot and returns its id.
pub fn sys_condvar_create(process: &mut ProcessSync) -> (id: isize)
    requires
        old(process).wf(),
        old(process).condvar_list.len() < isize::MAX,
    ensures
        final(process).wf(),
        id == first_false(old(process)@.condvars),
        final(process)@ == after_condvar_create(old(process)@),
        0 <= id < final(process).condvar_list.len(),
        final(process).condvar_list@[id as int],
        final(process).mutex_list@ == old(process).mutex_list@,
        final(process).m_available@ == old(process).m_available@,
        final(process).semaphore_list@ == old(process).semaphore_list@,
        final(process).s_available@ == old(process).s_available@,
        final(process).deadlock_detect_enabled == old(process).deadlock_detect_enabled,
{
    proof {
        lemma_first_false_at_least(old(process)@.condvars, 0);
    }
    let free = find_free_flag(&process.condvar_list);
    let id = if free < process.condvar_list.len() {
        process.condvar_list.set(free, true);
        free
    } else {
        process.condvar_list.push(true);
        process.condvar_list.len() - 1
    };
    assert(process@ =~= after_condvar_create(old(process)@));
    id as isize
}

// ---------------------------------------------------------------------------
// Deadlock-checked requests

/// `v` grown with zeros to at least `len` entries.
pub open spec fn extend_to(v: Seq<usize>, len: nat) -> Seq<usize> {
    if v.len() >= len {
        v
    } else {
        v + Seq::new((len - v.len()) as nat, |j: int| 0usize)
    }
}

/// Grows `vec` with zeros so that `index` is a valid position.
pub fn ensure_vec_len(vec: &mut Vec<usize>, index: usize)
    requires
        index < usize::MAX,
    ensures
        final(vec)@ == extend_to(old(vec)@, (index + 1) as nat),
{
    if vec.len() <= index {
        vec.resize(index + 1, 0);
        assert(vec@ =~= extend_to(old(vec)@, (index + 1) as nat));
    }
}

pub open spec fn set_need(u: UsageView, use_mutex: bool, v: Seq<usize>) -> UsageView {
    if use_mutex {
        UsageView { m_need: v, ..u }
    } else {
        UsageView { s_need: v, ..u }
    }
}

pub open spec fn set_allocation(u: UsageView, use_mutex: bool, v: Seq<usize>) -> UsageView {
    if use_mutex {
        UsageView { m_allocation: v, ..u }
    } else {
        UsageView { s_allocation: v, ..u }
    }
}

/// The thread's need and allocation of the chosen kind grown to cover `id`.
pub open spec fn extended(u: UsageView, use_mutex: bool, id: nat) -> UsageView {
    set_allocation(
        set_need(u, use_mutex, extend_to(need_of(u, use_mutex), id + 1)),
        use_mutex,
        extend_to(allocation_of(u, use_mutex), id + 1),
    )
}

/// The thread while its request for one unit of `id` is outstanding.
pub open spec fn with_request(u: UsageView, use_mutex: bool, id: nat) -> UsageView {
    let e = extended(u, use_mutex, id);
    set_need(e, use_mutex, need_of(e, use_mutex).update(id as int, (need_of(e, use_mutex)[id as int] + 1) as usize))
}

/// The thread once it has been given one unit of `id`.
pub open spec fn with_grant(u: UsageView, use_mutex: bool, id: nat) -> UsageView {
    let e = extended(u, use_mutex, id);
    set_allocation(
        e,
        use_mutex,
        allocation_of(e, use_mutex).update(id as int, (allocation_of(e, use_mutex)[id as int] + 1) as usize),
    )
}

pub open spec fn available_of(s: ProcessSyncView, use_mutex: bool) -> Seq<usize> {
    if use_mutex {
        s.m_available
    } else {
        s.s_available
    }
}

pub open spec fn set_available(s: ProcessSyncView, use_mutex: bool, v: Seq<usize>) -> ProcessSyncView {
    if use_mutex {
        ProcessSyncView { m_available: v, ..s }
    } else {
        ProcessSyncView { s_available: v, ..s }
    }
}

/// The threads that exist, in order of their ids.
pub open spec fn live_threads(ts: Seq<Option<UsageView>>) -> Seq<UsageView>
    decreases ts.len(),
{
    if ts.len() == 0 {
        Seq::empty()
    } else {
        let rest = live_threads(ts.drop_last());
        match ts.last() {
            Some(u) => rest.push(u),
            None => rest,
        }
    }
}

/// The threads as the detector sees them while `tid` requests one unit of `id`.
pub open spec fn threads_with_request(s: ProcessSyncView, tid: nat, id: nat, use_mutex: bool) -> Seq<UsageView> {
    live_threads(s.tasks.update(tid as int, Some(with_request(s.tasks[tid as int].unwrap(), use_mutex, id))))
}

/// With the request counted as need, some safe sequence exists.
pub open spec fn request_is_safe(s: ProcessSyncView, tid: nat, id: nat, use_mutex: bool) -> bool {
    let ts = threads_with_request(s, tid, id, use_mutex);
    safe_state(available_of(s, use_mutex), needs_of(ts, use_mutex), allocations_of(ts, use_mutex))
}

/// The state after the detector has decided on the request: granted, the
/// unit moves from available to the thread's allocation; refused, nothing
/// changes but the zero-growth of the thread's vectors.
pub open spec fn after_detection(s: ProcessSyncView, tid: nat, id: nat, use_mutex: bool) -> ProcessSyncView {
    let u = s.tasks[tid as int].unwrap();
    if request_is_safe(s, tid, id, use_mutex) {
        let avail = available_of(s, use_mutex);
        set_available(
            ProcessSyncView { tasks: s.tasks.update(tid as int, Some(with_grant(u, use_mutex, id))), ..s },
            use_mutex,
            avail.update(id as int, (avail[id as int] - 1) as usize),
        )
    } else {
        ProcessSyncView { tasks: s.tasks.update(tid as int, Some(extended(u, use_mutex, id))), ..s }
    }
}

/// The request can be decided without an arithmetic fault: the thread
/// exists, its need of `id` has room for one more, every sum the detector can
/// form with the request counted as need fits in a word (see [`chains_fit`]),
/// and, should the request be granted, its allocation of
/// `id` has room for one more and a unit of `id` is available to take.
pub open spec fn request_decidable(s: ProcessSyncView, tid: nat, id: nat, use_mutex: bool) -> bool {
    &&& tid < s.tasks.len()
    &&& s.tasks[tid as int] is Some
    &&& id < available_of(s, use_mutex).len()
    &&& id < usize::MAX
    &&& need_of(extended(s.tasks[tid as int].unwrap(), use_mutex, id), use_mutex)[id as int] < usize::MAX
    &&& chains_fit(
        available_of(s, use_mutex),
        needs_of(threads_with_request(s, tid, id, use_mutex), use_mutex),
        allocations_of(threads_with_request(s, tid, id, use_mutex), use_mutex),
    )
    &&& request_is_safe(s, tid, id, use_mutex) ==> available_of(s, use_mutex)[id as int] > 0
        && allocation_of(extended(s.tasks[tid as int].unwrap(), use_mutex, id), use_mutex)[id as int] < usize::MAX
}

/// Copies of the threads that exist, in order of their ids.
fn snapshot_threads(tasks: &Vec<Option<ResourceUsage>>) -> (snap: Vec<ResourceUsage>)
    ensures
        usage_views(snap@) == live_threads(tasks@.map_values(|o: Option<ResourceUsage>| usage_opt_view(o))),
{
    let ghost views = tasks@.map_values(|o: Option<ResourceUsage>| usage_opt_view(o));
    let mut snap: Vec<ResourceUsage> = Vec::new();
    let mut i: usize = 0;
    while i < tasks.len()
        invariant
            0 <= i <= tasks.len(),
            views == tasks@.map_values(|o: Option<ResourceUsage>| usage_opt_view(o)),
            usage_views(snap@) == live_threads(views.take(i as int)),
        decreases tasks.len() - i,
    {
        proof {
            assert(views.take(i + 1).drop_last() =~= views.take(i as int));
        }
        match &tasks[i] {
            Some(u) => {
                let c = u.duplicate();
                snap.push(c);
                assert(usage_views(snap@) =~= live_threads(views.take(i as int)).push(u@));
            },
            None => {},
        }
        i += 1;
    }
    assert(views.take(tasks.len() as int) =~= views);
    snap
}

/// Adds one to entry `id` of `v`.
fn increment_at(v: &mut Vec<usize>, id: usize)
    requires
        id < old(v).len(),
        old(v)[id as int] < usize::MAX,
    ensures
        final(v)@ == old(v)@.update(id as int, (old(v)[id as int] + 1) as usize),
{
    let x = v[id];
    v.set(id, x + 1);
}

/// Takes one from entry `id` of `v`.
fn decrement_at(v: &mut Vec<usize>, id: usize)
    requires
        id < old(v).len(),
        old(v)[id as int] > 0,
    ensures
        final(v)@ == old(v)@.update(id as int, (old(v)[id as int] - 1) as usize),
{
    let x = v[id];
    v.set(id, x - 1);
}

/// Records the request of thread `tid` for one unit of mutex (or semaphore)
/// `id`, asks the detector whether a safe sequence remains, and grants the
/// unit or rolls the request back.
fn detect_and_allocate(process: &mut ProcessSync, tid: usize, id: usize, use_mutex: bool) -> (granted: bool)
    requires
        old(process).wf(),
        request_decidable(old(process)@, tid as nat, id as nat, use_mutex),
    ensures
        final(process).wf(),
        granted == request_is_safe(old(process)@, tid as nat, id as nat, use_mutex),
        final(process)@ == after_detection(old(process)@, tid as nat, id as nat, use_mutex),
{
    let ghost s = process@;
    let ghost u0 = s.tasks[tid as int].unwrap();
    let mut slot: Option<ResourceUsage> = None;
    process.tasks.set_and_swap(tid, &mut slot);
    let mut usage = slot.unwrap();
    assert(usage@ == u0);
    if use_mutex {
        ensure_vec_len(&mut usage.m_need, id);
        ensure_vec_len(&mut usage.m_allocation, id);
        increment_at(&mut usage.m_need, id);
    } else {
        ensure_vec_len(&mut usage.s_need, id);
        ensure_vec_len(&mut usage.s_allocation, id);
        increment_at(&mut usage.s_need, id);
    }
    assert(usage@ =~= with_request(u0, use_mutex, id as nat));
    process.tasks.set(tid, Some(usage));
    let snap = snapshot_threads(&process.tasks);
    assert(process@.tasks =~= s.tasks.update(tid as int, Some(with_request(u0, use_mutex, id as nat))));
    let safe = if use_mutex {
        is_safe_state(process.m_available.as_slice(), snap.as_slice(), true)
    } else {
        is_safe_state(process.s_available.as_slice(), snap.as_slice(), false)
    };
    let mut slot: Option<ResourceUsage> = None;
    process.tasks.set_and_swap(tid, &mut slot);
    let mut usage = slot.unwrap();
    if use_mutex {
        decrement_at(&mut usage.m_need, id);
        if safe {
            increment_at(&mut usage.m_allocation, id);
            decrement_at(&mut process.m_available, id);
        }
    } else {
        decrement_at(&mut usage.s_need, id);
        if safe {
            increment_at(&mut usage.s_allocation, id);
            decrement_at(&mut process.s_available, id);
        }
    }
    process.tasks.set(tid, Some(usage));
    proof {
        if safe {
            assert(usage@ =~= with_grant(u0, use_mutex, id as nat));
        } else {
            assert(usage@ =~= extended(u0, use_mutex, id as nat));
        }
        assert(process@ =~= after_detection(s, tid as nat, id as nat, use_mutex));
    }
    safe
}

// ---------------------------------------------------------------------------
// Lock, unlock, up, down

/// The answer to a mutex lock: refused with `-0xdead` when detection is on
/// and no safe sequence would remain, otherwise 0 and the lock is taken.
pub open spec fn mutex_lock_result(s: ProcessSyncView, tid: nat, mutex_id: nat) -> (isize, SyncAction) {
    if s.deadlock_detect && !request_is_safe(s, tid, mutex_id, true) {
        (-0xdeadisize, SyncAction::Nothing)
    } else {
        (0isize, SyncAction::LockMutex { mutex_id: mutex_id as usize })
    }
}

/// Locks mutex `mutex_id` for thread `tid`; with deadlock detection on, the
/// lock is first counted as need and refused when no safe sequence remains.
pub fn sys_mutex_lock(process: &mut ProcessSync, tid: usize, mutex_id: usize) -> (r: (isize, SyncAction))
    requires
        old(process).wf(),
        mutex_id < old(process).mutex_list.len(),
        old(process).mutex_list[mutex_id as int] is Some,
        old(process).deadlock_detect_enabled ==> request_decidable(old(process)@, tid as nat, mutex_id as nat, true),
    ensures
        final(process).wf(),
        r == mutex_lock_result(old(process)@, tid as nat, mutex_id as nat),
        old(process).deadlock_detect_enabled ==> final(process)@ == after_detection(old(process)@, tid as nat, mutex_id as nat, true),
        !old(process).deadlock_detect_enabled ==> final(process)@ == old(process)@,
{
    if process.deadlock_detect_enabled {
        let granted = detect_and_allocate(process, tid, mutex_id, true);
        if !granted {
            return (-0xdead, SyncAction::Nothing);
        }
    }
    (0, SyncAction::LockMutex { mutex_id })
}

/// The answer to a semaphore down, decided as for a mutex lock.
pub open spec fn semaphore_down_result(s: ProcessSyncView, tid: nat, sem_id: nat) -> (isize, SyncAction) {
    if s.deadlock_detect && !request_is_safe(s, tid, sem_id, false) {
        (-0xdeadisize, SyncAction::Nothing)
    } else {
        (0isize, SyncAction::SemaphoreDown { sem_id: sem_id as usize })
    }
}

/// Lowers semaphore `sem_id` for thread `tid`; with deadlock detection on,
/// the unit is first counted as need and refused when no safe sequence remains.
pub fn sys_semaphore_down(process: &mut ProcessSync, tid: usize, sem_id: usize) -> (r: (isize, SyncAction))
    requires
        old(process).wf(),
        sem_id < old(process).semaphore_list.len(),
        old(process).semaphore_list[sem_id as int] is Some,
        old(process).deadlock_detect_enabled ==> request_decidable(old(process)@, tid as nat, sem_id as nat, false),
    ensures
        final(process).wf(),
        r == semaphore_down_result(old(process)@, tid as nat, sem_id as nat),
        old(process).deadlock_detect_enabled ==> final(process)@ == after_detection(old(process)@, tid as nat, sem_id as nat, false),
        !old(process).deadlock_detect_enabled ==> final(process)@ == old(process)@,
{
    if process.deadlock_detect_enabled {
        let granted = detect_and_allocate(process, tid, sem_id, false);
        if !granted {
            return (-0xdead, SyncAction::Nothing);
        }
    }
    (0, SyncAction::SemaphoreDown { sem_id })
}

/// The state after unlocking mutex `id`: one more unit of it is available.
pub open spec fn after_mutex_unlock(s: ProcessSyncView, id: nat) -> ProcessSyncView {
    ProcessSyncView {
        m_available: s.m_available.update(id as int, (s.m_available[id as int] + 1) as usize),
        ..s
    }
}

/// With deadlock detection on, a granted lock of a mutex followed by its
/// unlock leaves the mutex's available count as it was.
pub proof fn lemma_lock_then_unlock_restores_available(s: ProcessSyncView, tid: nat, id: nat)
    requires
        s.deadlock_detect,
        tid < s.tasks.len(),
        s.tasks[tid as int] is Some,
        id < s.m_available.len(),
        s.m_available[id as int] > 0,
        request_is_safe(s, tid, id, true),
    ensures
        mutex_lock_result(s, tid, id).0 == 0,
        after_mutex_unlock(after_detection(s, tid, id, true), id).m_available == s.m_available,
{
    assert(after_mutex_unlock(after_detection(s, tid, id, true), id).m_available =~= s.m_available);
}

/// Unlocks mutex `mutex_id`, counting one more unit of it as available.
pub fn sys_mutex_unlock(process: &mut ProcessSync, mutex_id: usize) -> (r: (isize, SyncAction))
    requires
        old(process).wf(),
        mutex_id < old(process).mutex_list.len(),
        old(process).mutex_list[mutex_id as int] is Some,
        old(process).m_available[mutex_id as int] < usize::MAX,
    ensures
        final(process).wf(),
        r == (0isize, SyncAction::UnlockMutex { mutex_id }),
        final(process)@ == after_mutex_unlock(old(process)@, mutex_id as nat),
{
    increment_at(&mut process.m_available, mutex_id);
    assert(process@ =~= after_mutex_unlock(old(process)@, mutex_id as nat));
    (0, SyncAction::UnlockMutex { mutex_id })
}

/// Raises semaphore `sem_id`, counting one more unit of it as available.
pub fn sys_semaphore_up(process: &mut ProcessSync, sem_id: usize) -> (r: (isize, SyncAction))
    requires
        old(process).wf(),
        sem_id < old(process).semaphore_list.len(),
        old(process).semaphore_list[sem_id as int] is Some,
        old(process).s_available[sem_id as int] < usize::MAX,
    ensures
        final(process).wf(),
        r == (0isize, SyncAction::SemaphoreUp { sem_id }),
        final(process)@ == (ProcessSyncView {
            s_available: old(process)@.s_available.update(
                sem_id as int,
                (old(process)@.s_available[sem_id as int] + 1) as usize,
            ),
            ..old(process)@
        }),
{
    increment_at(&mut process.s_available, sem_id);
    assert(process@ =~= (ProcessSyncView {
        s_available: old(process)@.s_available.update(
            sem_id as int,
            (old(process)@.s_available[sem_id as int] + 1) as usize,
        ),
        ..old(process)@
    }));
    (0, SyncAction::SemaphoreUp { sem_id })
}

// ---------------------------------------------------------------------------
// Condition variables, sleep, detection switch

/// Signals condition variable `condvar_id`.
pub fn sys_condvar_signal(process: &ProcessSync, condvar_id: usize) -> (r: (isize, SyncAction))
    requires
        condvar_id < process.condvar_list.len(),
        process.condvar_list[condvar_id as int],
    ensures
        r == (0isize, SyncAction::SignalCondvar { condvar_id }),
{
    (0, SyncAction::SignalCondvar { condvar_id })
}

/// Waits on condition variable `condvar_id`, releasing mutex `mutex_id` meanwhile.
pub fn sys_condvar_wait(process: &ProcessSync, condvar_id: usize, mutex_id: usize) -> (r: (isize, SyncAction))
    requires
        condvar_id < process.condvar_list.len(),
        process.condvar_list[condvar_id as int],
        mutex_id < process.mutex_list.len(),
        process.mutex_list[mutex_id as int] is Some,
    ensures
        r == (0isize, SyncAction::WaitCondvar { condvar_id, mutex_id }),
{
    (0, SyncAction::WaitCondvar { condvar_id, mutex_id })
}

/// Puts the calling thread to sleep for `ms` milliseconds from `now_ms`.
pub fn sys_sleep(now_ms: usize, ms: usize) -> (r: (isize, SyncAction))
    requires
        now_ms + ms <= usize::MAX,
    ensures
        r == (0isize, SyncAction::Sleep { expire_ms: (now_ms + ms) as usize }),
{
    let expire_ms = now_ms + ms;
    (0, SyncAction::Sleep { expire_ms })
}

/// Turns deadlock detection on (1) or off (0); any other value is refused with -1.
pub fn sys_enable_deadlock_detect(process: &mut ProcessSync, enabled: usize) -> (r: isize)
    requires
        old(process).wf(),
    ensures
        final(process).wf(),
        r == (if enabled == 0 || enabled == 1 { 0isize } else { -1isize }),
        final(process)@ == (if enabled == 0 || enabled == 1 {
            ProcessSyncView { deadlock_detect: enabled == 1, ..old(process)@ }
        } else {
            old(process)@
        }),
{
    if enabled == 1 {
        process.deadlock_detect_enabled = true;
    } else if enabled == 0 {
        process.deadlock_detect_enabled = false;
    } else {
        return -1;
    }
    assert(process@ =~= ProcessSyncView { deadlock_detect: enabled == 1, ..old(process)@ });
    0
}

/// A refused request changes no count: every entry of the thread's need and
/// allocation, and every available count, reads as before.
pub proof fn lemma_refused_request_keeps_counts(s: ProcessSyncView, tid: nat, id: nat, use_mutex: bool, j: int)
    requires
        tid < s.tasks.len(),
        s.tasks[tid as int] is Some,
        !request_is_safe(s, tid, id, use_mutex),
    ensures
        available_of(after_detection(s, tid, id, use_mutex), use_mutex) == available_of(s, use_mutex),
        after_detection(s, tid, id, use_mutex).tasks[tid as int] is Some,
        entry(need_of(after_detection(s, tid, id, use_mutex).tasks[tid as int].unwrap(), use_mutex), j)
            == entry(need_of(s.tasks[tid as int].unwrap(), use_mutex), j),
        entry(allocation_of(after_detection(s, tid, id, use_mutex).tasks[tid as int].unwrap(), use_mutex), j)
            == entry(allocation_of(s.tasks[tid as int].unwrap(), use_mutex), j),
        forall|other: int| 0 <= other < s.tasks.len() && other != tid ==>
            #[trigger] after_detection(s, tid, id, use_mutex).tasks[other] == s.tasks[other],
{
}

/// A granted request moves one unit of `id` from available to the thread's
/// allocation; its need and every other count read as before.
pub proof fn lemma_granted_request_moves_one_unit(s: ProcessSyncView, tid: nat, id: nat, use_mutex: bool, j: int)
    requires
        tid < s.tasks.len(),
        s.tasks[tid as int] is Some,
        id < available_of(s, use_mutex).len(),
        available_of(s, use_mutex)[id as int] > 0,
        allocation_of(extended(s.tasks[tid as int].unwrap(), use_mutex, id), use_mutex)[id as int] < usize::MAX,
        request_is_safe(s, tid, id, use_mutex),
    ensures
        after_detection(s, tid, id, use_mutex).tasks[tid as int] is Some,
        available_of(after_detection(s, tid, id, use_mutex), use_mutex)[id as int]
            == available_of(s, use_mutex)[id as int] - 1,
        entry(allocation_of(after_detection(s, tid, id, use_mutex).tasks[tid as int].unwrap(), use_mutex), id as int)
            == entry(allocation_of(s.tasks[tid as int].unwrap(), use_mutex), id as int) + 1,
        j != id ==> entry(allocation_of(after_detection(s, tid, id, use_mutex).tasks[tid as int].unwrap(), use_mutex), j)
            == entry(allocation_of(s.tasks[tid as int].unwrap(), use_mutex), j),
        j != id && 0 <= j < available_of(s, use_mutex).len() ==>
            available_of(after_detection(s, tid, id, use_mutex), use_mutex)[j] == available_of(s, use_mutex)[j],
        entry(need_of(after_detection(s, tid, id, use_mutex).tasks[tid as int].unwrap(), use_mutex), j)
            == entry(need_of(s.tasks[tid as int].unwrap(), use_mutex), j),
        forall|other: int| 0 <= other < s.tasks.len() && other != tid ==>
            #[trigger] after_detection(s, tid, id, use_mutex).tasks[other] == s.tasks[other],
{
}

/// Copies of the threads that exist, with thread `tid` shown requesting one
/// unit of `id`.
fn snapshot_with_request(tasks: &Vec<Option<ResourceUsage>>, tid: usize, id: usize, use_mutex: bool) -> (snap: Vec<ResourceUsage>)
    requires
        tid < tasks.len(),
        tasks@[tid as int] is Some,
        id < usize::MAX,
        need_of(extended(tasks@[tid as int].unwrap()@, use_mutex, id as nat), use_mutex)[id as int] < usize::MAX,
    ensures
        usage_views(snap@) == live_threads(
            tasks@.map_values(|o: Option<ResourceUsage>| usage_opt_view(o)).update(
                tid as int,
                Some(with_request(tasks@[tid as int].unwrap()@, use_mutex, id as nat)),
            ),
        ),
{
    let ghost views = tasks@.map_values(|o: Option<ResourceUsage>| usage_opt_view(o)).update(
        tid as int,
        Some(with_request(tasks@[tid as int].unwrap()@, use_mutex, id as nat)),
    );
    let mut snap: Vec<ResourceUsage> = Vec::new();
    let mut i: usize = 0;
    while i < tasks.len()
        invariant
            0 <= i <= tasks.len(),
            tid < tasks.len(),
            tasks@[tid as int] is Some,
            id < usize::MAX,
            need_of(extended(tasks@[tid as int].unwrap()@, use_mutex, id as nat), use_mutex)[id as int] < usize::MAX,
            views == tasks@.map_values(|o: Option<ResourceUsage>| usage_opt_view(o)).update(
                tid as int,
                Some(with_request(tasks@[tid as int].unwrap()@, use_mutex, id as nat)),
            ),
            usage_views(snap@) == live_threads(views.take(i as int)),
        decreases tasks.len() - i,
    {
        proof {
            assert(views.take(i + 1).drop_last() =~= views.take(i as int));
        }
        match &tasks[i] {
            Some(u) => {
                let mut c = u.duplicate();
                if i == tid {
                    if use_mutex {
                        ensure_vec_len(&mut c.m_need, id);
                        ensure_vec_len(&mut c.m_allocation, id);
                        increment_at(&mut c.m_need, id);
                    } else {
                        ensure_vec_len(&mut c.s_need, id);
                        ensure_vec_len(&mut c.s_allocation, id);
                        increment_at(&mut c.s_need, id);
                    }
                    assert(c@ =~= with_request(u@, use_mutex, id as nat));
                }
                snap.push(c);
                assert(usage_views(snap@) =~= live_threads(views.take(i as int)).push(c@));
            },
            None => {},
        }
        i += 1;
    }
    assert(views.take(tasks.len() as int) =~= views);
    snap
}

/// Whether a request of thread `tid` for one unit of mutex (or semaphore)
/// `id` can be decided without an arithmetic fault, see [`request_decidable`].
/// A caller that gets `false` must not make the request.
pub fn request_can_be_decided(process: &ProcessSync, tid: usize, id: usize, use_mutex: bool) -> (ok: bool)
    requires
        process.wf(),
    ensures
        ok == request_decidable(process@, tid as nat, id as nat, use_mutex),
{
    let avail: &Vec<usize> = if use_mutex {
        &process.m_available
    } else {
        &process.s_available
    };
    if tid >= process.tasks.len() || id >= avail.len() || id == usize::MAX {
        return false;
    }
    let u = match &process.tasks[tid] {
        Some(u) => u,
        None => {
            return false;
        },
    };
    assert(process@.tasks[tid as int] == Some(u@));
    let need: &Vec<usize> = if use_mutex {
        &u.m_need
    } else {
        &u.s_need
    };
    let allocation: &Vec<usize> = if use_mutex {
        &u.m_allocation
    } else {
        &u.s_allocation
    };
    let need_at = if id < need.len() {
        need[id]
    } else {
        0
    };
    let allocation_at = if id < allocation.len() {
        allocation[id]
    } else {
        0
    };
    proof {
        let e = extended(u@, use_mutex, id as nat);
        assert(need_of(e, use_mutex)[id as int] == need_at);
        assert(allocation_of(e, use_mutex)[id as int] == allocation_at);
    }
    if need_at == usize::MAX {
        return false;
    }
    let snap = snapshot_with_request(&process.tasks, tid, id, use_mutex);
    assert(usage_views(snap@) == threads_with_request(process@, tid as nat, id as nat, use_mutex));
    if !detector_sums_fit(avail.as_slice(), snap.as_slice(), use_mutex) {
        return false;
    }
    let safe = is_safe_state(avail.as_slice(), snap.as_slice(), use_mutex);
    !safe || (avail[id] > 0 && allocation_at < usize::MAX)
}

/// Every entry of every thread's need of the chosen kind is zero.
pub open spec fn needs_all_zero(s: ProcessSyncView, use_mutex: bool) -> bool {
    forall|t: int, j: int|
        0 <= t < s.tasks.len() && s.tasks[t] is Some && 0 <= j < need_of(s.tasks[t].unwrap(), use_mutex).len()
            ==> #[trigger] need_of(s.tasks[t].unwrap(), use_mutex)[j] == 0
}

/// A request counts as need only while the detector looks at it: when no
/// thread needs anything before a request, none does after it, granted or
/// refused.
pub proof fn lemma_needs_stay_zero(s: ProcessSyncView, tid: nat, id: nat, use_mutex: bool)
    requires
        tid < s.tasks.len(),
        s.tasks[tid as int] is Some,
        needs_all_zero(s, use_mutex),
    ensures
        needs_all_zero(after_detection(s, tid, id, use_mutex), use_mutex),
{
    let a = after_detection(s, tid, id, use_mutex);
    let u = s.tasks[tid as int].unwrap();
    assert forall|t: int, j: int|
        0 <= t < a.tasks.len() && a.tasks[t] is Some && 0 <= j < need_of(a.tasks[t].unwrap(), use_mutex).len()
        implies #[trigger] need_of(a.tasks[t].unwrap(), use_mutex)[j] == 0 by {
        if t == tid {
            let v = need_of(u, use_mutex);
            if j < v.len() {
                assert(need_of(s.tasks[t].unwrap(), use_mutex)[j] == 0);
            }
        } else {
            assert(a.tasks[t] == s.tasks[t]);
            assert(need_of(s.tasks[t].unwrap(), use_mutex)[j] == 0);
        }
    }
}

} // verus!
