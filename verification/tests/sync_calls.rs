use rcore_os::sync::{
    ensure_vec_len, request_can_be_decided, sys_condvar_create, sys_condvar_signal, sys_condvar_wait,
    sys_enable_deadlock_detect, sys_mutex_create, sys_mutex_lock, sys_mutex_unlock,
    sys_semaphore_create, sys_semaphore_down, sys_semaphore_up, sys_sleep, MutexKind,
    ProcessSync, SyncAction,
};

#[test]
fn mutexes_get_consecutive_ids() {
    let mut p = ProcessSync::new();
    assert_eq!(sys_mutex_create(&mut p, false), 0);
    assert_eq!(sys_mutex_create(&mut p, true), 1);
    assert_eq!(p.mutex_list, vec![Some(MutexKind::Spin), Some(MutexKind::Blocking)]);
    assert_eq!(p.m_available, vec![1, 1]);
}

#[test]
fn creation_reuses_first_free_slot() {
    let mut p = ProcessSync::new();
    p.mutex_list = vec![Some(MutexKind::Spin), None, None];
    p.m_available = vec![0, 7, 7];
    assert_eq!(sys_mutex_create(&mut p, true), 1);
    assert_eq!(p.mutex_list, vec![Some(MutexKind::Spin), Some(MutexKind::Blocking), None]);
    assert_eq!(p.m_available, vec![0, 1, 7]);

    p.semaphore_list = vec![None, Some(3)];
    p.s_available = vec![9, 3];
    assert_eq!(sys_semaphore_create(&mut p, 5), 0);
    assert_eq!(p.semaphore_list, vec![Some(5), Some(3)]);
    assert_eq!(p.s_available, vec![5, 3]);

    p.condvar_list = vec![true, false];
    assert_eq!(sys_condvar_create(&mut p), 1);
    assert_eq!(p.condvar_list, vec![true, true]);
    assert_eq!(sys_condvar_create(&mut p), 2);
}

#[test]
fn semaphores_start_with_their_count() {
    let mut p = ProcessSync::new();
    assert_eq!(sys_semaphore_create(&mut p, 3), 0);
    assert_eq!(sys_semaphore_create(&mut p, 0), 1);
    assert_eq!(p.semaphore_list, vec![Some(3), Some(0)]);
    assert_eq!(p.s_available, vec![3, 0]);
}

#[test]
fn lock_without_detection_only_locks() {
    let mut p = ProcessSync::new();
    let tid = p.add_thread();
    let m = sys_mutex_create(&mut p, true) as usize;
    assert_eq!(sys_mutex_lock(&mut p, tid, m), (0, SyncAction::LockMutex { mutex_id: m }));
    assert_eq!(p.m_available, vec![1]);
    assert!(p.tasks[tid].as_ref().unwrap().m_need.is_empty());
}

#[test]
fn relocking_a_held_mutex_is_a_deadlock() {
    let mut p = ProcessSync::new();
    let tid = p.add_thread();
    let m = sys_mutex_create(&mut p, true) as usize;
    assert_eq!(sys_enable_deadlock_detect(&mut p, 1), 0);
    assert_eq!(sys_mutex_lock(&mut p, tid, m), (0, SyncAction::LockMutex { mutex_id: m }));
    assert_eq!(p.m_available, vec![0]);
    {
        let u = p.tasks[tid].as_ref().unwrap();
        assert_eq!(u.m_need, vec![0]);
        assert_eq!(u.m_allocation, vec![1]);
    }
    // The same thread asks again: it would wait for itself.
    assert_eq!(sys_mutex_lock(&mut p, tid, m), (-0xdead, SyncAction::Nothing));
    let u = p.tasks[tid].as_ref().unwrap();
    assert_eq!(u.m_need, vec![0]);
    assert_eq!(u.m_allocation, vec![1]);
    assert_eq!(p.m_available, vec![0]);
}

#[test]
fn refused_request_keeps_zero_growth_only() {
    let mut p = ProcessSync::new();
    let t0 = p.add_thread();
    let _m0 = sys_mutex_create(&mut p, true);
    let m1 = sys_mutex_create(&mut p, true) as usize;
    sys_enable_deadlock_detect(&mut p, 1);
    p.m_available = vec![1, 0];
    // Nobody holds mutex 1 and none of it is available: refused.
    assert_eq!(sys_mutex_lock(&mut p, t0, m1), (-0xdead, SyncAction::Nothing));
    let u = p.tasks[t0].as_ref().unwrap();
    assert_eq!(u.m_need, vec![0, 0]);
    assert_eq!(u.m_allocation, vec![0, 0]);
    assert_eq!(p.m_available, vec![1, 0]);
}

#[test]
fn semaphore_down_is_checked_too() {
    let mut p = ProcessSync::new();
    let tid = p.add_thread();
    let s = sys_semaphore_create(&mut p, 2) as usize;
    sys_enable_deadlock_detect(&mut p, 1);
    assert_eq!(sys_semaphore_down(&mut p, tid, s), (0, SyncAction::SemaphoreDown { sem_id: s }));
    assert_eq!(sys_semaphore_down(&mut p, tid, s), (0, SyncAction::SemaphoreDown { sem_id: s }));
    assert_eq!(p.s_available, vec![0]);
    assert_eq!(p.tasks[tid].as_ref().unwrap().s_allocation, vec![2]);
    assert_eq!(sys_semaphore_down(&mut p, tid, s), (-0xdead, SyncAction::Nothing));
    assert_eq!(p.tasks[tid].as_ref().unwrap().s_need, vec![0]);
    assert_eq!(sys_semaphore_up(&mut p, s), (0, SyncAction::SemaphoreUp { sem_id: s }));
    assert_eq!(p.s_available, vec![1]);
}

#[test]
fn other_threads_can_release_for_the_requester() {
    let mut p = ProcessSync::new();
    let t0 = p.add_thread();
    let t1 = p.add_thread();
    let s = sys_semaphore_create(&mut p, 2) as usize;
    sys_enable_deadlock_detect(&mut p, 1);
    assert_eq!(sys_semaphore_down(&mut p, t1, s).0, 0);
    assert_eq!(sys_semaphore_down(&mut p, t0, s).0, 0);
    assert_eq!(p.s_available, vec![0]);
    assert_eq!(p.tasks[t0].as_ref().unwrap().s_allocation, vec![1]);
    assert_eq!(p.tasks[t1].as_ref().unwrap().s_allocation, vec![1]);
}

#[test]
fn unlock_counts_a_unit_back() {
    let mut p = ProcessSync::new();
    let m = sys_mutex_create(&mut p, false) as usize;
    assert_eq!(sys_mutex_unlock(&mut p, m), (0, SyncAction::UnlockMutex { mutex_id: m }));
    assert_eq!(p.m_available, vec![2]);
}

#[test]
fn detection_switch_accepts_only_zero_and_one() {
    let mut p = ProcessSync::new();
    assert_eq!(sys_enable_deadlock_detect(&mut p, 1), 0);
    assert!(p.deadlock_detect_enabled);
    assert_eq!(sys_enable_deadlock_detect(&mut p, 2), -1);
    assert!(p.deadlock_detect_enabled);
    assert_eq!(sys_enable_deadlock_detect(&mut p, 0), 0);
    assert!(!p.deadlock_detect_enabled);
    assert_eq!(sys_enable_deadlock_detect(&mut p, usize::MAX), -1);
    assert!(!p.deadlock_detect_enabled);
}

#[test]
fn condvar_calls_ask_for_signal_and_wait() {
    let mut p = ProcessSync::new();
    let c = sys_condvar_create(&mut p) as usize;
    let m = sys_mutex_create(&mut p, true) as usize;
    assert_eq!(c, 0);
    assert_eq!(sys_condvar_signal(&p, c), (0, SyncAction::SignalCondvar { condvar_id: c }));
    assert_eq!(
        sys_condvar_wait(&p, c, m),
        (0, SyncAction::WaitCondvar { condvar_id: c, mutex_id: m })
    );
}

#[test]
fn sleep_sets_expiry() {
    assert_eq!(sys_sleep(1000, 250), (0, SyncAction::Sleep { expire_ms: 1250 }));
    assert_eq!(sys_sleep(0, 0), (0, SyncAction::Sleep { expire_ms: 0 }));
}

#[test]
fn ensure_vec_len_grows_with_zeros() {
    let mut v = vec![5];
    ensure_vec_len(&mut v, 3);
    assert_eq!(v, vec![5, 0, 0, 0]);
    ensure_vec_len(&mut v, 1);
    assert_eq!(v, vec![5, 0, 0, 0]);
    let mut w: Vec<usize> = Vec::new();
    ensure_vec_len(&mut w, 0);
    assert_eq!(w, vec![0]);
}

#[test]
fn contended_request_cannot_be_decided() {
    let mut p = ProcessSync::new();
    let t0 = p.add_thread();
    let t1 = p.add_thread();
    let s = sys_semaphore_create(&mut p, 1) as usize;
    sys_enable_deadlock_detect(&mut p, 1);
    assert!(request_can_be_decided(&p, t1, s, false));
    assert_eq!(sys_semaphore_down(&mut p, t1, s).0, 0);
    // Safe, since t1 can give its unit back, but no unit is there to take.
    assert!(!request_can_be_decided(&p, t0, s, false));
    // t1 asking again is refused, which needs no unit.
    assert!(request_can_be_decided(&p, t1, s, false));
    assert_eq!(sys_semaphore_down(&mut p, t1, s), (-0xdead, SyncAction::Nothing));
    // Unknown thread or resource.
    assert!(!request_can_be_decided(&p, 7, s, false));
    assert!(!request_can_be_decided(&p, t0, 3, false));
    assert!(!request_can_be_decided(&p, t0, 0, true));
}

#[test]
fn lock_then_unlock_restores_available() {
    let mut p = ProcessSync::new();
    let tid = p.add_thread();
    let m = sys_mutex_create(&mut p, true) as usize;
    sys_enable_deadlock_detect(&mut p, 1);
    assert_eq!(sys_mutex_lock(&mut p, tid, m).0, 0);
    assert_eq!(p.m_available, vec![0]);
    assert_eq!(sys_mutex_unlock(&mut p, m).0, 0);
    assert_eq!(p.m_available, vec![1]);
}

#[test]
fn refusal_holds_beyond_word_sized_totals() {
    // Available plus all holdings exceeds a word, but no thread that could
    // finish holds the excess, so the request is decided and refused.
    let mut p = ProcessSync::new();
    let t0 = p.add_thread();
    let big = sys_semaphore_create(&mut p, usize::MAX) as usize;
    let empty = sys_semaphore_create(&mut p, 0) as usize;
    sys_enable_deadlock_detect(&mut p, 1);
    assert_eq!(sys_semaphore_down(&mut p, t0, big).0, 0);
    assert_eq!(sys_semaphore_up(&mut p, big).0, 0);
    assert_eq!(p.s_available, vec![usize::MAX, 0]);
    assert!(request_can_be_decided(&p, t0, empty, false));
    assert_eq!(sys_semaphore_down(&mut p, t0, empty), (-0xdead, SyncAction::Nothing));
    assert_eq!(p.s_available, vec![usize::MAX, 0]);
}
