use rcore_os::fs::file::File;
use rcore_os::mm::frame::PhysMem;
use rcore_os::task::manager::TaskManager;
use rcore_os::task::task::{TaskContext, TaskControlBlock, TaskStatus};

fn task(mem: &mut PhysMem, pid: usize, stride: usize, pass: usize) -> TaskControlBlock {
    let mut t = TaskControlBlock::new(mem, pid, 0x10000, pass);
    t.stride = stride;
    t
}

fn pids(m: &mut TaskManager) -> Vec<(usize, usize)> {
    let mut out = Vec::new();
    while let Some(t) = m.fetch() {
        out.push((t.pid, t.stride));
    }
    out
}

#[test]
fn a_new_task() {
    let mut mem = PhysMem::new(4);
    let t = TaskControlBlock::new(&mut mem, 7, 0x8000, 3);
    assert_eq!(t.pid, 7);
    assert_eq!(t.task_status, TaskStatus::Ready);
    assert_eq!((t.stride, t.pass), (0, 3));
    assert_eq!((t.heap_bottom, t.program_brk), (0x8000, 0x8000));
    assert_eq!(t.fd_table.len(), 3);
    assert!(matches!(t.fd_table[0], Some(File::Stdin)));
    assert!(matches!(t.fd_table[1], Some(File::Stdout)));
    assert!(matches!(t.fd_table[2], Some(File::Stdout)));
    assert!(t.syscall_stats.is_empty());
    assert_eq!(t.get_user_token(&mem), (8u64 << 60) | 0);
    assert!(mem.is_table_frame(0));
    let cx = TaskContext::zero_init();
    assert_eq!((cx.ra, cx.sp), (0, 0));
    assert_eq!(cx.s, [0usize; 12]);
}

#[test]
fn descriptors_are_the_lowest_free() {
    let mut mem = PhysMem::new(4);
    let mut t = TaskControlBlock::new(&mut mem, 1, 0, 1);
    assert_eq!(t.alloc_fd(), 3);
    assert_eq!(t.fd_table.len(), 4);
    assert!(t.fd_table[3].is_none());
    t.fd_table[3] = Some(File::Stdout);
    t.fd_table[1] = None;
    assert_eq!(t.alloc_fd(), 1);
    assert_eq!(t.fd_table.len(), 4);
}

#[test]
fn syscalls_are_counted() {
    let mut mem = PhysMem::new(4);
    let mut t = TaskControlBlock::new(&mut mem, 1, 0, 1);
    t.record_syscall(64);
    t.record_syscall(64);
    t.record_syscall(93);
    assert_eq!(t.syscall_stats.get(&64), Some(&2));
    assert_eq!(t.syscall_stats.get(&93), Some(&1));
    assert_eq!(t.syscall_stats.get(&1), None);
}

#[test]
fn the_ready_queue_is_first_in_first_out() {
    let mut mem = PhysMem::new(8);
    let mut m = TaskManager::new();
    assert!(m.fetch().is_none());
    m.add(task(&mut mem, 1, 0, 1));
    m.add(task(&mut mem, 2, 0, 1));
    m.add(task(&mut mem, 3, 0, 1));
    assert_eq!(m.len(), 3);
    assert_eq!(pids(&mut m), vec![(1, 0), (2, 0), (3, 0)]);
    assert_eq!(m.len(), 0);
}

#[test]
fn stride_picks_the_least_stride_first_among_equals() {
    let mut mem = PhysMem::new(8);
    let mut m = TaskManager::new();
    assert!(m.fetch_stride().is_none());
    m.add(task(&mut mem, 1, 100, 5));
    m.add(task(&mut mem, 2, 50, 10));
    m.add(task(&mut mem, 3, 50, 1));
    let t = m.fetch_stride().unwrap();
    assert_eq!((t.pid, t.stride), (2, 60));
    let t = m.fetch_stride().unwrap();
    assert_eq!((t.pid, t.stride), (3, 51));
    assert_eq!(pids(&mut m), vec![(1, 100)]);
}

#[test]
fn stride_runs_the_tasks_in_proportion_to_their_pass() {
    let mut mem = PhysMem::new(8);
    let mut m = TaskManager::new();
    m.add(task(&mut mem, 1, 0, 10));
    m.add(task(&mut mem, 2, 0, 20));
    let mut runs = Vec::new();
    for _ in 0..6 {
        let t = m.fetch_stride().unwrap();
        runs.push(t.pid);
        m.add(t);
    }
    assert_eq!(runs, vec![1, 2, 1, 2, 1, 1]);
}

#[test]
fn stride_overflow_normalizes_the_others() {
    let mut mem = PhysMem::new(8);
    let mut m = TaskManager::new();
    m.add(task(&mut mem, 1, usize::MAX - 2, 5));
    m.add(task(&mut mem, 2, usize::MAX - 1, 1));
    m.add(task(&mut mem, 3, usize::MAX, 1));
    let t = m.fetch_stride().unwrap();
    assert_eq!((t.pid, t.stride), (1, 5));
    // the least of the others becomes zero and the differences stay
    assert_eq!(pids(&mut m), vec![(2, 0), (3, 1)]);
}

#[test]
fn stride_overflow_of_the_last_task() {
    let mut mem = PhysMem::new(8);
    let mut m = TaskManager::new();
    m.add(task(&mut mem, 1, usize::MAX, 7));
    let t = m.fetch_stride().unwrap();
    assert_eq!((t.pid, t.stride), (1, 7));
    assert_eq!(m.len(), 0);
}

#[test]
fn mmap_through_the_manager_needs_a_task() {
    let mut mem = PhysMem::new(16);
    let mut m = TaskManager::new();
    let mut none: Option<TaskControlBlock> = None;
    assert_eq!(m.sys_mmap_tcb(&mut none, &mut mem, 0x1000, 0x1000, 3), -1);
    assert_eq!(m.sys_munmap_tcb(&mut none, &mut mem, 0x1000, 0x1000), -1);
    let mut cur = Some(TaskControlBlock::new(&mut mem, 1, 0, 1));
    assert_eq!(m.sys_mmap_tcb(&mut cur, &mut mem, 0x1000, 0x1000, 3), 0);
    assert_eq!(m.sys_mmap_tcb(&mut cur, &mut mem, 0x1000, 0x10, 1), -1);
    assert_eq!(m.sys_munmap_tcb(&mut cur, &mut mem, 0x1000, 0x1000), 0);
    assert_eq!(m.sys_munmap_tcb(&mut cur, &mut mem, 0x1000, 0x1000), -1);
}

#[test]
fn heap_moves_both_ways() {
    let mut mem = PhysMem::new(16);
    let mut t = TaskControlBlock::new(&mut mem, 1, 0x10000, 1);
    assert_eq!(t.change_program_brk(&mut mem, 0x1800), Some(0x10000));
    assert_eq!(t.program_brk, 0x11800);
    assert_eq!(t.change_program_brk(&mut mem, -0x800), Some(0x11800));
    assert_eq!(t.program_brk, 0x11000);
    assert_eq!(t.change_program_brk(&mut mem, -0x1001), None);
    assert_eq!(t.program_brk, 0x11000);
    assert_eq!(t.change_program_brk(&mut mem, -0x1000), Some(0x11000));
    assert_eq!(t.program_brk, 0x10000);
}
