use rcore_os::config::{MAX_SYSCALL_NUM, PAGE_SIZE};
use rcore_os::mm::{MemorySet, PERM_R, PERM_U, PERM_W};
use rcore_os::process::{
    sys_exit, sys_get_time, sys_mmap, sys_munmap, sys_sbrk, sys_trace, sys_yield, TimeVal,
};
use rcore_os::task::{Switch, TaskControlBlock, TaskManager, TaskStatus};

const HEAP: usize = 0x10000;

fn manager(n: usize) -> TaskManager {
    let mut tasks = Vec::new();
    for i in 0..n {
        tasks.push(TaskControlBlock::new(MemorySet::new_bare(0x8000_0000_0000_0000 | i), HEAP));
    }
    TaskManager::new(tasks)
}

fn statuses(tm: &TaskManager) -> Vec<TaskStatus> {
    tm.tasks.iter().map(|t| t.task_status).collect()
}

#[test]
fn new_tasks_are_ready() {
    let tm = manager(3);
    assert_eq!(tm.num_app, 3);
    assert_eq!(tm.current_task, 0);
    assert_eq!(statuses(&tm), vec![TaskStatus::Ready; 3]);
    assert_eq!(tm.tasks[1].syscall_count.len(), MAX_SYSCALL_NUM);
    assert!(tm.tasks[1].syscall_count.iter().all(|c| *c == 0));
    assert_eq!(tm.tasks[2].program_brk, HEAP);
}

#[test]
fn first_task_runs_first() {
    let mut tm = manager(2);
    tm.run_first_task();
    assert_eq!(statuses(&tm), vec![TaskStatus::Running, TaskStatus::Ready]);
    assert_eq!(tm.get_current_token(), 0x8000_0000_0000_0000);
}

#[test]
fn yield_goes_round_robin() {
    let mut tm = manager(3);
    tm.run_first_task();
    assert_eq!(sys_yield(&mut tm), (0, Switch { from: 0, to: 1 }));
    assert_eq!(statuses(&tm), vec![TaskStatus::Ready, TaskStatus::Running, TaskStatus::Ready]);
    assert_eq!(sys_yield(&mut tm), (0, Switch { from: 1, to: 2 }));
    assert_eq!(sys_yield(&mut tm), (0, Switch { from: 2, to: 0 }));
    assert_eq!(tm.current_task, 0);
}

#[test]
fn yield_alone_comes_back_to_itself() {
    let mut tm = manager(1);
    tm.run_first_task();
    assert_eq!(sys_yield(&mut tm), (0, Switch { from: 0, to: 0 }));
    assert_eq!(statuses(&tm), vec![TaskStatus::Running]);
}

#[test]
fn exit_skips_finished_tasks_and_ends() {
    let mut tm = manager(3);
    tm.run_first_task();
    assert_eq!(sys_exit(&mut tm, 0), Switch { from: 0, to: 1 });
    assert_eq!(sys_exit(&mut tm, 0), Switch { from: 1, to: 2 });
    assert_eq!(
        statuses(&tm),
        vec![TaskStatus::Exited, TaskStatus::Exited, TaskStatus::Running]
    );
    assert_eq!(sys_yield(&mut tm), (0, Switch { from: 2, to: 2 }));
    // The last task may not exit into nothing: no task is left to run.
    assert_eq!(tm.find_next_task(), None);
    assert_eq!(tm.current_task, 2);
}

#[test]
fn next_task_is_found_only_among_ready_tasks() {
    let mut tm = manager(3);
    tm.tasks[0].task_status = TaskStatus::Exited;
    tm.tasks[1].task_status = TaskStatus::UnInit;
    assert_eq!(tm.find_next_task(), Some(2));
    assert_eq!(tm.run_next_task(), Switch { from: 0, to: 2 });
    assert_eq!(tm.current_task, 2);
    tm.tasks[2].task_status = TaskStatus::Exited;
    assert_eq!(tm.find_next_task(), None);
}

#[test]
fn syscall_counts_and_trace_request_two() {
    let mut tm = manager(2);
    tm.run_first_task();
    tm.add_syscall_count(64);
    tm.add_syscall_count(64);
    tm.add_syscall_count(93);
    assert_eq!(tm.get_syscall_count(64), 2);
    assert_eq!(sys_trace(&mut tm, 2, 64, 0), 2);
    assert_eq!(sys_trace(&mut tm, 2, 93, 0), 1);
    assert_eq!(sys_trace(&mut tm, 2, 0, 0), 0);
    sys_yield(&mut tm);
    assert_eq!(sys_trace(&mut tm, 2, 64, 0), 0);
}

#[test]
fn unknown_trace_request_is_refused() {
    let mut tm = manager(1);
    assert_eq!(sys_trace(&mut tm, 3, 0, 0), -1);
    assert_eq!(sys_trace(&mut tm, usize::MAX, 0x1000, 7), -1);
}

#[test]
fn mmap_rejects_bad_arguments() {
    let mut tm = manager(1);
    assert_eq!(sys_mmap(&mut tm, 0x1000, 0, 3), -1);
    assert_eq!(sys_mmap(&mut tm, 0x1001, 0x1000, 3), -1);
    assert_eq!(sys_mmap(&mut tm, 0x1000, 0x1000, 0), -1);
    assert_eq!(sys_mmap(&mut tm, 0x1000, 0x1000, 8), -1);
    assert_eq!(sys_mmap(&mut tm, 0x1000, 0x1000, 9), -1);
    assert!(tm.tasks[0].memory_set.areas.is_empty());
}

#[test]
fn mmap_adds_an_area_with_user_permissions() {
    let mut tm = manager(1);
    assert_eq!(sys_mmap(&mut tm, 0x10000, 0x1800, 3), 0);
    let a = &tm.tasks[0].memory_set.areas[0];
    assert_eq!((a.start_vpn, a.end_vpn), (0x10, 0x12));
    assert_eq!(a.perm, PERM_U | PERM_R | PERM_W);
    assert_eq!(sys_mmap(&mut tm, 0x20000, PAGE_SIZE, 7), 0);
    assert_eq!(tm.tasks[0].memory_set.areas[1].perm, 16 + 14);
}

#[test]
fn mmap_of_a_mapped_range_is_refused() {
    let mut tm = manager(1);
    assert_eq!(sys_mmap(&mut tm, 0x10000, 0x2000, 1), 0);
    assert_eq!(sys_mmap(&mut tm, 0x10000, 0x2000, 2), -1);
    assert_eq!(sys_mmap(&mut tm, 0x11000, 0x1000, 2), -1);
    assert_eq!(sys_mmap(&mut tm, 0xf000, 0x1001, 2), -1);
    assert_eq!(sys_mmap(&mut tm, 0xf000, 0x1000, 2), 0);
    assert_eq!(sys_mmap(&mut tm, 0x12000, 0x1000, 2), 0);
    assert_eq!(tm.tasks[0].memory_set.areas.len(), 3);
}

#[test]
fn munmap_undoes_mmap() {
    let mut tm = manager(1);
    assert_eq!(sys_mmap(&mut tm, 0x30000, 0x1000, 1), 0);
    assert_eq!(sys_mmap(&mut tm, 0x40000, 0x3000, 3), 0);
    assert_eq!(sys_munmap(&mut tm, 0x40000, 0x3000), 0);
    assert_eq!(tm.tasks[0].memory_set.areas.len(), 1);
    assert_eq!(tm.tasks[0].memory_set.areas[0].start_vpn, 0x30);
    assert_eq!(sys_munmap(&mut tm, 0x40000, 0x3000), -1);
}

#[test]
fn munmap_needs_an_exact_area() {
    let mut tm = manager(1);
    assert_eq!(sys_mmap(&mut tm, 0x40000, 0x3000, 3), 0);
    assert_eq!(sys_munmap(&mut tm, 0x40000, 0x1000), -1);
    assert_eq!(sys_munmap(&mut tm, 0x41000, 0x2000), -1);
    assert_eq!(sys_munmap(&mut tm, 0x40000, 0), -1);
    assert_eq!(sys_munmap(&mut tm, 0x40001, 0x3000), -1);
    assert_eq!(sys_munmap(&mut tm, 0x40000, 0x2001), 0);
    assert!(tm.tasks[0].memory_set.areas.is_empty());
}

#[test]
fn trace_write_then_read() {
    let mut tm = manager(1);
    assert_eq!(sys_mmap(&mut tm, 0x10000, 0x1000, 3), 0);
    assert_eq!(sys_trace(&mut tm, 0, 0x10010, 0), 0);
    assert_eq!(sys_trace(&mut tm, 1, 0x10010, 0x1ab), 0);
    assert_eq!(sys_trace(&mut tm, 0, 0x10010, 0), 0xab);
    assert_eq!(sys_trace(&mut tm, 1, 0x10010, 7), 0);
    assert_eq!(sys_trace(&mut tm, 0, 0x10010, 0), 7);
    assert_eq!(sys_trace(&mut tm, 0, 0x10011, 0), 0);
}

#[test]
fn trace_respects_permissions() {
    let mut tm = manager(1);
    assert_eq!(sys_mmap(&mut tm, 0x10000, 0x1000, 1), 0);
    assert_eq!(sys_mmap(&mut tm, 0x20000, 0x1000, 2), 0);
    assert_eq!(sys_trace(&mut tm, 1, 0x10000, 5), -1);
    assert_eq!(sys_trace(&mut tm, 0, 0x10000, 0), 0);
    assert_eq!(sys_trace(&mut tm, 1, 0x20000, 5), 0);
    assert_eq!(sys_trace(&mut tm, 0, 0x20000, 0), -1);
    assert_eq!(sys_trace(&mut tm, 0, 0x30000, 0), -1);
    assert_eq!(sys_trace(&mut tm, 1, 0x30000, 1), -1);
    // A page mapped without user access is off limits.
    let t = &mut tm.tasks[0];
    t.memory_set.insert_framed_area(0x50000, 0x51000, PERM_R | PERM_W);
    assert_eq!(sys_trace(&mut tm, 0, 0x50000, 0), -1);
    assert_eq!(sys_trace(&mut tm, 1, 0x50000, 0), -1);
}

#[test]
fn sbrk_moves_the_heap_end() {
    let mut tm = manager(1);
    assert_eq!(sys_sbrk(&mut tm, 0x100), HEAP as isize);
    assert_eq!(tm.tasks[0].program_brk, HEAP + 0x100);
    assert_eq!(sys_sbrk(&mut tm, -0x100), (HEAP + 0x100) as isize);
    assert_eq!(tm.tasks[0].program_brk, HEAP);
    assert_eq!(sys_sbrk(&mut tm, -1), -1);
    assert_eq!(tm.tasks[0].program_brk, HEAP);
    assert_eq!(sys_sbrk(&mut tm, 0), HEAP as isize);
    assert_eq!(tm.change_current_program_brk(8), Some(HEAP));
    assert_eq!(tm.tasks[0].change_program_brk(-9), None);
}

#[test]
fn time_val_splits_microseconds() {
    assert_eq!(TimeVal::from_us(3_000_007), TimeVal { sec: 3, usec: 7 });
    assert_eq!(TimeVal::from_us(999_999), TimeVal { sec: 0, usec: 999_999 });
    let tv = TimeVal { sec: 0x0102, usec: 0x03 };
    let b = tv.to_bytes();
    let w = std::mem::size_of::<usize>();
    assert_eq!(b.len(), 2 * w);
    assert_eq!(&b[..3], &[2, 1, 0]);
    assert_eq!(b[w], 3);
    assert_eq!(b[w + 1], 0);
}

#[test]
fn get_time_writes_user_memory() {
    let mut tm = manager(1);
    assert_eq!(sys_mmap(&mut tm, 0x10000, 0x1000, 3), 0);
    assert_eq!(sys_get_time(&mut tm, 0x10008, 2_000_005), 0);
    let w = std::mem::size_of::<usize>();
    assert_eq!(sys_trace(&mut tm, 0, 0x10008, 0), 2);
    assert_eq!(sys_trace(&mut tm, 0, 0x10009, 0), 0);
    assert_eq!(sys_trace(&mut tm, 0, 0x10008 + w, 0), 5);
    assert_eq!(sys_get_time(&mut tm, 0x20000, 1), -1);
}

#[test]
fn get_time_stops_at_the_end_of_the_mapping() {
    let mut tm = manager(1);
    assert_eq!(sys_mmap(&mut tm, 0x10000, 0x1000, 3), 0);
    // Only the first two bytes land inside the page.
    assert_eq!(sys_get_time(&mut tm, 0x10ffe, 0x0302 * 1_000_000), -1);
    assert_eq!(sys_trace(&mut tm, 0, 0x10ffe, 0), 2);
    assert_eq!(sys_trace(&mut tm, 0, 0x10fff, 0), 3);
}

#[test]
fn write_bytes_buffer_writes_in_order() {
    let mut tm = manager(1);
    assert_eq!(sys_mmap(&mut tm, 0x10000, 0x2000, 3), 0);
    assert_eq!(tm.write_bytes_buffer(0x10ffe, 4, &[9, 8, 7, 6, 5]), 0);
    assert_eq!(tm.read_trace(0x10ffe), 9);
    assert_eq!(tm.read_trace(0x11001), 6);
    assert_eq!(tm.read_trace(0x11002), 0);
    assert_eq!(tm.write_bytes_buffer(0x11ffe, 3, &[1, 2, 3]), -1);
    assert_eq!(tm.read_trace(0x11fff), 2);
    assert_eq!(tm.write_bytes_buffer(0x30000, 0, &[]), 0);
}

#[test]
fn memory_set_bytes_are_per_area() {
    let mut ms = MemorySet::new_bare(1);
    ms.insert_framed_area(0x1000, 0x2000, PERM_U | PERM_R | PERM_W);
    assert!(ms.write_byte_to_user_space(0x1004, 42));
    assert!(!ms.write_byte_to_user_space(0x3004, 42));
    assert_eq!(ms.get_byte_from_user_space(0x1004), Some(42));
    assert_eq!(ms.get_byte_from_user_space(0x3004), None);
    assert!(ms.is_overlap(0x1fff, 0x2000));
    assert!(!ms.is_overlap(0x2000, 0x3000));
    assert!(ms.remove_area(0x1000, 0x2000));
    ms.insert_framed_area(0x1000, 0x2000, PERM_U | PERM_R);
    assert_eq!(ms.get_byte_from_user_space(0x1004), Some(0));
    assert!(ms.is_user_accessible(0x1004, false));
    assert!(!ms.is_user_accessible(0x1004, true));
    assert_eq!(ms.token(), 1);
}

#[test]
fn bad_mapping_arguments_need_no_task() {
    let mut tm = TaskManager::new(Vec::new());
    assert_eq!(tm.sys_mmap(0x1000, 0, 3), -1);
    assert_eq!(tm.sys_mmap(0x1000, 0x1000, 9), -1);
    assert_eq!(tm.sys_munmap(0x1001, 0x1000), -1);
    assert_eq!(sys_munmap(&mut tm, 0x1000, 0), -1);
}

#[test]
fn write_stops_before_reading_missing_bytes() {
    let mut tm = manager(1);
    assert_eq!(sys_mmap(&mut tm, 0x10000, 0x1000, 3), 0);
    // Two bytes given, five asked for; the third address is not mapped.
    assert!(tm.write_bytes_defined(0x10ffe, 5, 2));
    assert_eq!(tm.write_bytes_buffer(0x10ffe, 5, &[4, 5]), -1);
    assert_eq!(tm.read_trace(0x10fff), 5);
    // Three bytes would be needed from a two-byte buffer.
    assert!(!tm.write_bytes_defined(0x10ff0, 3, 2));
    // The first address is unmapped, so the end of the range is never formed.
    assert!(tm.write_bytes_defined(usize::MAX - 1, 10, 0));
    assert_eq!(tm.write_bytes_buffer(usize::MAX - 1, 10, &[]), -1);
}

#[test]
fn write_bytes_defined_flags_address_overflow() {
    let mut tm = manager(1);
    let top = usize::MAX - (usize::MAX % PAGE_SIZE);
    tm.tasks[0].memory_set.insert_framed_area(top, usize::MAX, PERM_U | PERM_R | PERM_W);
    assert!(tm.write_bytes_defined(usize::MAX - 1, 2, 2));
    assert!(!tm.write_bytes_defined(usize::MAX - 1, 3, 3));
    assert_eq!(tm.write_bytes_buffer(usize::MAX - 1, 2, &[1, 2]), 0);
    assert_eq!(tm.read_trace(usize::MAX), 2);
}

#[test]
fn counting_k_calls_adds_k() {
    let mut tm = manager(2);
    tm.run_first_task();
    for _ in 0..7 {
        tm.add_syscall_count(5);
    }
    assert_eq!(tm.get_syscall_count(5), 7);
    assert_eq!(tm.get_syscall_count(6), 0);
    assert_eq!(tm.tasks[1].syscall_count[5], 0);
}

#[test]
fn exited_task_stays_exited() {
    let mut tm = manager(2);
    tm.run_first_task();
    assert_eq!(tm.exit_current_and_run_next(), Switch { from: 0, to: 1 });
    assert_eq!(tm.suspend_current_and_run_next(), Switch { from: 1, to: 1 });
    assert_eq!(statuses(&tm), vec![TaskStatus::Exited, TaskStatus::Running]);
    assert_eq!(tm.find_next_task(), None);
}
