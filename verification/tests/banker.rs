use rcore_os::banker::{detector_sums_fit, is_safe_state, ResourceUsage};

fn usage(m_need: Vec<usize>, m_allocation: Vec<usize>) -> ResourceUsage {
    ResourceUsage { m_need, m_allocation, s_need: Vec::new(), s_allocation: Vec::new() }
}

fn sem_usage(s_need: Vec<usize>, s_allocation: Vec<usize>) -> ResourceUsage {
    ResourceUsage { m_need: Vec::new(), m_allocation: Vec::new(), s_need, s_allocation }
}

#[test]
fn no_threads_is_safe() {
    assert!(is_safe_state(&[], &[], true));
    assert!(is_safe_state(&[0, 0], &[], false));
}

#[test]
fn textbook_state_is_safe() {
    let available = [3, 3, 2];
    let tasks = vec![
        sem_usage(vec![7, 4, 3], vec![0, 1, 0]),
        sem_usage(vec![1, 2, 2], vec![2, 0, 0]),
        sem_usage(vec![6, 0, 0], vec![3, 0, 2]),
        sem_usage(vec![0, 1, 1], vec![2, 1, 1]),
        sem_usage(vec![4, 3, 1], vec![0, 0, 2]),
    ];
    assert!(is_safe_state(&available, &tasks, false));
}

#[test]
fn textbook_state_with_larger_request_is_unsafe() {
    // Thread 0 asks for two more units of the second resource than before.
    let available = [3, 3, 2];
    let tasks = vec![
        sem_usage(vec![7, 6, 3], vec![0, 1, 0]),
        sem_usage(vec![1, 2, 2], vec![2, 0, 0]),
        sem_usage(vec![6, 0, 0], vec![3, 0, 2]),
        sem_usage(vec![0, 1, 1], vec![2, 1, 1]),
        sem_usage(vec![4, 5, 1], vec![0, 0, 2]),
    ];
    assert!(!is_safe_state(&available, &tasks, false));
}

#[test]
fn circular_wait_is_unsafe() {
    // Each thread holds one mutex and wants the other's.
    let available = [0, 0];
    let tasks = vec![usage(vec![0, 1], vec![1, 0]), usage(vec![1, 0], vec![0, 1])];
    assert!(!is_safe_state(&available, &tasks, true));
}

#[test]
fn released_units_let_others_finish() {
    // Only the second thread can start; what it gives back lets the first finish.
    let available = [0];
    let tasks = vec![usage(vec![2], vec![0]), usage(vec![0], vec![2])];
    assert!(is_safe_state(&available, &tasks, true));
}

#[test]
fn vectors_longer_than_available_never_finish() {
    let available = [5];
    let tasks = vec![usage(vec![0, 0], vec![])];
    assert!(!is_safe_state(&available, &tasks, true));
    let tasks = vec![usage(vec![], vec![0, 0])];
    assert!(!is_safe_state(&available, &tasks, true));
}

#[test]
fn shorter_vectors_count_as_zero() {
    let available = [1, 1];
    let tasks = vec![usage(vec![1], vec![]), usage(vec![], vec![1])];
    assert!(is_safe_state(&available, &tasks, true));
}

#[test]
fn kind_selects_the_vectors_read() {
    let available = [0];
    let t = ResourceUsage { m_need: vec![1], m_allocation: vec![0], s_need: vec![0], s_allocation: vec![0] };
    let tasks = vec![t];
    assert!(!is_safe_state(&available, &tasks, true));
    assert!(is_safe_state(&available, &tasks, false));
}

#[test]
fn more_available_keeps_safe() {
    // The monotonicity law on concrete values: safe at [1], so safe at [4].
    let tasks = vec![usage(vec![1], vec![0]), usage(vec![1], vec![2])];
    assert!(is_safe_state(&[1], &tasks, true));
    assert!(is_safe_state(&[4], &tasks, true));
    assert!(!is_safe_state(&[0], &tasks, true));
}

#[test]
fn duplicate_copies_contents() {
    let t = ResourceUsage { m_need: vec![1, 2], m_allocation: vec![3], s_need: vec![], s_allocation: vec![4] };
    let c = t.duplicate();
    assert_eq!(c.m_need, vec![1, 2]);
    assert_eq!(c.m_allocation, vec![3]);
    assert!(c.s_need.is_empty());
    assert_eq!(c.s_allocation, vec![4]);
    let n = ResourceUsage::new();
    assert!(n.m_need.is_empty() && n.s_allocation.is_empty());
}

#[test]
fn single_request_is_safe_when_another_thread_holds_a_unit() {
    // Thread 0 asks for one unit; nobody else needs anything.
    let available = [0, 4];
    let held_elsewhere = vec![usage(vec![1, 0], vec![0, 0]), usage(vec![0, 0], vec![1, 0])];
    assert!(is_safe_state(&available, &held_elsewhere, true));
    let held_by_requester = vec![usage(vec![1, 0], vec![3, 0]), usage(vec![0, 0], vec![0, 2])];
    assert!(!is_safe_state(&available, &held_by_requester, true));
    assert!(is_safe_state(&[1, 0], &held_by_requester, true));
}

#[test]
fn listing_order_does_not_matter() {
    let available = [0];
    let a = vec![usage(vec![2], vec![0]), usage(vec![0], vec![2]), usage(vec![1], vec![0])];
    let b = vec![usage(vec![1], vec![0]), usage(vec![2], vec![0]), usage(vec![0], vec![2])];
    assert!(is_safe_state(&available, &a, true));
    assert!(is_safe_state(&available, &b, true));
    let c = vec![usage(vec![3], vec![0]), usage(vec![0], vec![2])];
    let d = vec![usage(vec![0], vec![2]), usage(vec![3], vec![0])];
    assert!(!is_safe_state(&available, &c, true));
    assert!(!is_safe_state(&available, &d, true));
}

#[test]
fn detector_sums_fit_counts_only_finishing_threads() {
    // The second thread cannot finish, so what it holds is never added.
    let tasks = vec![usage(vec![0], vec![1]), usage(vec![2], vec![usize::MAX])];
    assert!(detector_sums_fit(&[0], &tasks, true));
    assert!(!is_safe_state(&[0], &tasks, true));
    // With one more unit available it can finish, and its holding overflows the sum.
    assert!(!detector_sums_fit(&[1], &tasks, true));
    // Sums of finishing threads that fit are accepted.
    let small = vec![usage(vec![0], vec![3]), usage(vec![2], vec![4])];
    assert!(detector_sums_fit(&[1], &small, true));
    assert!(is_safe_state(&[1], &small, true));
}
