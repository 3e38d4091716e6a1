use rcore_os::fs::file::{OpenFlags, S_IFREG};
use rcore_os::kernel::Kernel;
use rcore_os::mm::pte::PTEFlags;
use rcore_os::syscall::fs::{sys_close, sys_fstat, sys_linkat, sys_open, sys_read, sys_unlinkat, sys_write};
use rcore_os::syscall::process::{
    sys_exit, sys_get_time, sys_mmap, sys_munmap, sys_sbrk, sys_trace, sys_yield, TimeVal, TIMEVAL_SIZE,
};
use rcore_os::task::task::TaskStatus;

/// A kernel running task 1, with pages 1 and 2 readable and writable.
fn kernel() -> Kernel {
    let mut k = Kernel::new(64, 10);
    k.spawn(1, 0x10000, 16);
    k.run_next();
    assert_eq!(sys_mmap(&mut k, 0x1000, 0x2000, 3), 0);
    k
}

fn poke(k: &mut Kernel, addr: usize, bytes: &[u8]) {
    for (i, b) in bytes.iter().enumerate() {
        assert_eq!(sys_trace(k, 1, addr + i, *b as usize), 0);
    }
}

fn peek(k: &mut Kernel, addr: usize, n: usize) -> Vec<u8> {
    (0..n).map(|i| sys_trace(k, 0, addr + i, 0) as u8).collect()
}

fn open(k: &mut Kernel, name: &str, flags: u32) -> isize {
    let mut path = name.as_bytes().to_vec();
    path.push(0);
    poke(k, 0x1f00, &path);
    sys_open(k, 0x1f00, flags)
}

#[test]
fn a_new_kernel_runs_nothing() {
    let mut k = Kernel::new(8, 0);
    assert!(k.current.is_none());
    k.run_next();
    assert!(k.current.is_none());
    assert_eq!(k.manager.len(), 0);
    assert_eq!(k.fs.inode_count(), 1);
}

#[test]
fn spawned_tasks_run_in_turn() {
    let mut k = Kernel::new(16, 0);
    k.spawn(1, 0, 1);
    k.spawn(2, 0, 1);
    k.run_next();
    assert_eq!(k.current.as_ref().unwrap().pid, 1);
    assert_eq!(k.current.as_ref().unwrap().task_status, TaskStatus::Running);
    // a task runs already: nothing changes
    k.run_next();
    assert_eq!(k.current.as_ref().unwrap().pid, 1);
    assert_eq!(sys_yield(&mut k), 0);
    assert_eq!(k.current.as_ref().unwrap().pid, 2);
    assert_eq!(k.manager.len(), 1);
    assert_eq!(sys_yield(&mut k), 0);
    assert_eq!(k.current.as_ref().unwrap().pid, 1);
    sys_exit(&mut k, 3);
    assert_eq!(k.current.as_ref().unwrap().pid, 2);
    assert_eq!(k.manager.len(), 0);
    sys_exit(&mut k, 0);
    assert!(k.current.is_none());
}

#[test]
fn yield_alone_runs_the_same_task() {
    let mut k = Kernel::new(16, 0);
    k.spawn(5, 0, 1);
    k.run_next();
    assert_eq!(sys_yield(&mut k), 0);
    assert_eq!(k.current.as_ref().unwrap().pid, 5);
}

#[test]
fn trace_reads_and_writes_user_bytes() {
    let mut k = kernel();
    assert_eq!(sys_trace(&mut k, 0, 0x1234, 0), 0);
    assert_eq!(sys_trace(&mut k, 1, 0x1234, 0x1ab), 0);
    assert_eq!(sys_trace(&mut k, 0, 0x1234, 0), 0xab);
    // unmapped
    assert_eq!(sys_trace(&mut k, 0, 0x9000, 0), -1);
    assert_eq!(sys_trace(&mut k, 1, 0x9000, 1), -1);
    // unknown request
    assert_eq!(sys_trace(&mut k, 3, 0x1234, 0), -1);
}

#[test]
fn trace_counts_syscalls() {
    let mut k = kernel();
    assert_eq!(sys_trace(&mut k, 4, 410, 0), 0);
    k.record_syscall(410);
    assert_eq!(sys_trace(&mut k, 4, 410, 0), 1);
    k.record_syscall(410);
    k.record_syscall(64);
    assert_eq!(sys_trace(&mut k, 4, 410, 0), 2);
    assert_eq!(sys_trace(&mut k, 4, 64, 0), 1);
    // request 2 is no request
    assert_eq!(sys_trace(&mut k, 2, 410, 0), -1);
}

#[test]
fn trace_needs_a_valid_entry() {
    let mut k = kernel();
    assert_eq!(sys_trace(&mut k, 1, 0x1000, 7), 0);
    // frame 3 is the leaf table; slot 1 maps page 1 to frame 1: clear its valid bit
    let e = (1u64 << 10) | (PTEFlags::R | PTEFlags::W | PTEFlags::U) as u64;
    k.mem.write_word(3, 1, e);
    assert_eq!(sys_trace(&mut k, 0, 0x1000, 0), -1);
    assert_eq!(sys_trace(&mut k, 1, 0x1000, 9), -1);
    k.mem.write_word(3, 1, e | PTEFlags::V as u64);
    assert_eq!(sys_trace(&mut k, 0, 0x1000, 0), 7);
}

#[test]
fn trace_respects_page_permissions() {
    let mut k = kernel();
    assert_eq!(sys_mmap(&mut k, 0x3000, 1, 1), 0);
    assert_eq!(sys_trace(&mut k, 0, 0x3000, 0), 0);
    assert_eq!(sys_trace(&mut k, 1, 0x3000, 1), -1);
    assert_eq!(sys_mmap(&mut k, 0x4000, 1, 2), 0);
    assert_eq!(sys_trace(&mut k, 0, 0x4000, 0), -1);
    assert_eq!(sys_trace(&mut k, 1, 0x4000, 1), 0);
}

#[test]
fn get_time_writes_seconds_and_microseconds() {
    let mut k = kernel();
    assert_eq!(TIMEVAL_SIZE, std::mem::size_of::<TimeVal>());
    // across the two pages
    assert_eq!(sys_get_time(&mut k, 0x1ff8, 0, 1_234_567), 0);
    let b = peek(&mut k, 0x1ff8, 16);
    assert_eq!(&b[0..8], &1u64.to_le_bytes());
    assert_eq!(&b[8..16], &234_567u64.to_le_bytes());
    // an unmapped page
    assert_eq!(sys_get_time(&mut k, 0x8000, 0, 5), -1);
    let t = TimeVal { sec: 1, usec: 234_567 };
    assert_eq!(t, TimeVal { sec: 1, usec: 234_567 });
}

#[test]
fn get_time_stops_at_an_unmapped_page() {
    let mut k = kernel();
    assert_eq!(sys_get_time(&mut k, 0x2ffc, 0, 7_000_000), -1);
    assert_eq!(peek(&mut k, 0x2ffc, 4), 7u64.to_le_bytes()[0..4].to_vec());
}

#[test]
fn mmap_checks_its_arguments() {
    let mut k = kernel();
    assert_eq!(sys_mmap(&mut k, 0x5001, 0x1000, 3), -1);
    assert_eq!(sys_mmap(&mut k, 0x5000, 0x1000, 0), -1);
    assert_eq!(sys_mmap(&mut k, 0x5000, 0x1000, 8), -1);
    assert_eq!(sys_mmap(&mut k, 0x40_0000_0000, 0x1000, 3), -1);
    assert_eq!(sys_mmap(&mut k, 0x3f_ffff_f000, 0x2000, 3), -1);
    assert_eq!(sys_mmap(&mut k, 0x5000, 0, 3), 0);
    // a page of the range is mapped already
    assert_eq!(sys_mmap(&mut k, 0x2000, 0x2000, 3), -1);
    assert_eq!(sys_trace(&mut k, 0, 0x3000, 0), -1);
    // not enough memory
    assert_eq!(sys_mmap(&mut k, 0x10_0000, 0x100_0000, 3), -1);
}

#[test]
fn munmap_undoes_mmap() {
    let mut k = kernel();
    assert_eq!(sys_mmap(&mut k, 0x5000, 0x1800, 3), 0);
    assert_eq!(sys_trace(&mut k, 1, 0x6fff, 9), 0);
    assert_eq!(sys_munmap(&mut k, 0x5001, 0x1000), -1);
    assert_eq!(sys_munmap(&mut k, 0x5000, 0), 0);
    assert_eq!(sys_munmap(&mut k, 0x5000, 0x3000), -1);
    assert_eq!(sys_trace(&mut k, 0, 0x6fff, 0), 9);
    assert_eq!(sys_munmap(&mut k, 0x5000, 0x1001), 0);
    assert_eq!(sys_trace(&mut k, 0, 0x5000, 0), -1);
    assert_eq!(sys_trace(&mut k, 0, 0x6000, 0), -1);
    // mapped again, the frames are fresh
    assert_eq!(sys_mmap(&mut k, 0x5000, 0x2000, 3), 0);
    assert_eq!(sys_trace(&mut k, 0, 0x6fff, 0), 0);
}

#[test]
fn mmap_and_munmap_need_a_running_task() {
    let mut k = Kernel::new(16, 0);
    assert_eq!(sys_mmap(&mut k, 0x1000, 0x1000, 3), -1);
    assert_eq!(sys_munmap(&mut k, 0x1000, 0x1000), -1);
}

#[test]
fn sbrk_grows_and_shrinks_the_heap() {
    let mut k = kernel();
    assert_eq!(sys_sbrk(&mut k, 0), 0x10000);
    assert_eq!(sys_sbrk(&mut k, 0x1000), 0x10000);
    assert_eq!(sys_trace(&mut k, 1, 0x10fff, 5), 0);
    assert_eq!(sys_sbrk(&mut k, 0x10), 0x11000);
    assert_eq!(sys_trace(&mut k, 0, 0x11000, 0), 0);
    assert_eq!(sys_sbrk(&mut k, -0x10), 0x11010);
    assert_eq!(sys_trace(&mut k, 0, 0x11000, 0), -1);
    assert_eq!(sys_sbrk(&mut k, -0x1001), -1);
    assert_eq!(sys_sbrk(&mut k, -0x1000), 0x11000);
    assert_eq!(sys_trace(&mut k, 0, 0x10fff, 0), -1);
    assert_eq!(k.current.as_ref().unwrap().program_brk, 0x10000);
}

#[test]
fn open_write_close_and_read_back() {
    let mut k = kernel();
    assert_eq!(open(&mut k, "f", OpenFlags::RDONLY), -1);
    let fd = open(&mut k, "f", OpenFlags::CREATE | OpenFlags::RDWR);
    assert_eq!(fd, 3);
    poke(&mut k, 0x1100, b"hello");
    assert_eq!(sys_write(&mut k, 3, 0x1100, 5), 5);
    // the offset is past the bytes written
    assert_eq!(sys_read(&mut k, 3, 0x1200, 5), 0);
    assert_eq!(sys_close(&mut k, 3), 0);
    assert_eq!(sys_close(&mut k, 3), -1);
    assert_eq!(open(&mut k, "f", OpenFlags::RDONLY), 3);
    assert_eq!(sys_read(&mut k, 3, 0x1200, 10), 5);
    assert_eq!(peek(&mut k, 0x1200, 5), b"hello".to_vec());
    assert_eq!(sys_read(&mut k, 3, 0x1200, 10), 0);
    // read only: no writing
    assert_eq!(sys_write(&mut k, 3, 0x1100, 5), -1);
}

#[test]
fn writes_and_reads_cross_pages() {
    let mut k = kernel();
    assert_eq!(open(&mut k, "f", OpenFlags::CREATE | OpenFlags::RDWR), 3);
    let data: Vec<u8> = (0..32u8).collect();
    poke(&mut k, 0x1ff0, &data);
    assert_eq!(sys_write(&mut k, 3, 0x1ff0, 32), 32);
    assert_eq!(sys_close(&mut k, 3), 0);
    assert_eq!(open(&mut k, "f", OpenFlags::RDONLY), 3);
    assert_eq!(sys_read(&mut k, 3, 0x2ff0, 16), 16);
    assert_eq!(peek(&mut k, 0x2ff0, 16), data[0..16].to_vec());
}

#[test]
fn descriptors_are_reused_lowest_first() {
    let mut k = kernel();
    assert_eq!(open(&mut k, "a", OpenFlags::CREATE), 3);
    assert_eq!(open(&mut k, "b", OpenFlags::CREATE), 4);
    assert_eq!(sys_close(&mut k, 1), 0);
    assert_eq!(open(&mut k, "a", OpenFlags::RDONLY), 1);
    assert_eq!(open(&mut k, "b", OpenFlags::RDONLY), 5);
    assert_eq!(sys_close(&mut k, 99), -1);
}

#[test]
fn trunc_empties_the_file() {
    let mut k = kernel();
    assert_eq!(open(&mut k, "f", OpenFlags::CREATE | OpenFlags::WRONLY), 3);
    poke(&mut k, 0x1100, b"abc");
    assert_eq!(sys_write(&mut k, 3, 0x1100, 3), 3);
    assert_eq!(sys_read(&mut k, 3, 0x1200, 3), -1);
    assert_eq!(open(&mut k, "f", OpenFlags::TRUNC), 4);
    assert_eq!(sys_read(&mut k, 4, 0x1200, 3), 0);
}

#[test]
fn console_in_and_out() {
    let mut k = kernel();
    poke(&mut k, 0x1100, b"hi!");
    assert_eq!(sys_write(&mut k, 1, 0x1100, 3), 3);
    assert_eq!(sys_write(&mut k, 2, 0x1100, 2), 2);
    assert_eq!(k.console, b"hi!hi".to_vec());
    assert_eq!(sys_read(&mut k, 0, 0x1300, 1), 0);
    k.input.push_back(b'z');
    assert_eq!(sys_read(&mut k, 0, 0x1300, 1), 1);
    assert_eq!(peek(&mut k, 0x1300, 1), vec![b'z']);
    assert_eq!(sys_read(&mut k, 0, 0x1300, 1), 0);
    // the wrong way round
    assert_eq!(sys_read(&mut k, 1, 0x1300, 1), -1);
    assert_eq!(sys_write(&mut k, 0, 0x1100, 1), -1);
    // no such descriptor
    assert_eq!(sys_write(&mut k, 50, 0x1100, 1), -1);
    assert_eq!(sys_read(&mut k, 50, 0x1100, 1), -1);
    assert_eq!(sys_close(&mut k, 1), 0);
    assert_eq!(sys_write(&mut k, 1, 0x1100, 1), -1);
}

#[test]
fn mapping_changes_keep_other_pages() {
    let mut k = kernel();
    poke(&mut k, 0x1ff0, b"kept");
    assert_eq!(sys_mmap(&mut k, 0x3000, 0x2000, 3), 0);
    assert_eq!(peek(&mut k, 0x1ff0, 4), b"kept".to_vec());
    assert_eq!(sys_munmap(&mut k, 0x3000, 0x1000), 0);
    assert_eq!(peek(&mut k, 0x1ff0, 4), b"kept".to_vec());
    assert_eq!(sys_sbrk(&mut k, 0x1000), 0x10000);
    assert_eq!(peek(&mut k, 0x1ff0, 4), b"kept".to_vec());
    assert_eq!(sys_sbrk(&mut k, -0x1000), 0x11000);
    assert_eq!(peek(&mut k, 0x1ff0, 4), b"kept".to_vec());
}

#[test]
fn fstat_reports_the_inode() {
    let mut k = kernel();
    assert_eq!(open(&mut k, "f", OpenFlags::CREATE | OpenFlags::RDWR), 3);
    assert_eq!(sys_fstat(&mut k, 3, 0x1800), 0);
    let b = peek(&mut k, 0x1800, 24);
    assert_eq!(&b[0..8], &[0u8; 8]);
    assert_eq!(&b[8..16], &1u64.to_le_bytes());
    assert_eq!(&b[16..20], &S_IFREG.to_le_bytes());
    assert_eq!(&b[20..24], &1u32.to_le_bytes());
    assert_eq!(sys_fstat(&mut k, 1, 0x1800), -1);
    assert_eq!(sys_fstat(&mut k, 42, 0x1800), -1);
}

#[test]
fn link_and_unlink() {
    let mut k = kernel();
    assert_eq!(open(&mut k, "f", OpenFlags::CREATE | OpenFlags::RDWR), 3);
    poke(&mut k, 0x1000, b"f\0g\0h\0nope\0\0");
    assert_eq!(sys_linkat(&mut k, 0x1000, 0x1002), 0);
    assert_eq!(sys_fstat(&mut k, 3, 0x1800), 0);
    assert_eq!(peek(&mut k, 0x1814, 4), 2u32.to_le_bytes().to_vec());
    // the same name, a missing file, a taken name
    assert_eq!(sys_linkat(&mut k, 0x1000, 0x1000), -1);
    assert_eq!(sys_linkat(&mut k, 0x1006, 0x1004), -1);
    assert_eq!(sys_linkat(&mut k, 0x1002, 0x1000), -1);
    // the second name reads the same file
    poke(&mut k, 0x1100, b"abc");
    assert_eq!(sys_write(&mut k, 3, 0x1100, 3), 3);
    assert_eq!(open(&mut k, "g", OpenFlags::RDONLY), 4);
    assert_eq!(sys_read(&mut k, 4, 0x1200, 3), 3);
    assert_eq!(peek(&mut k, 0x1200, 3), b"abc".to_vec());
    assert_eq!(sys_unlinkat(&mut k, 0x1002), 0);
    assert_eq!(sys_fstat(&mut k, 3, 0x1800), 0);
    assert_eq!(peek(&mut k, 0x1814, 4), 1u32.to_le_bytes().to_vec());
    assert_eq!(sys_unlinkat(&mut k, 0x1002), -1);
    assert_eq!(sys_unlinkat(&mut k, 0x100b), -1);
    assert_eq!(open(&mut k, "g", OpenFlags::RDONLY), -1);
    assert_eq!(sys_unlinkat(&mut k, 0x1000), 0);
    assert_eq!(open(&mut k, "f", OpenFlags::RDONLY), -1);
}

#[test]
fn fstat_runs_on_into_the_next_frame() {
    // page 1 is frame 1 and page 2 frame 4, with the two tables between them
    let mut k = kernel();
    // page 3 gets frame 5, the frame after that of page 2
    assert_eq!(sys_mmap(&mut k, 0x3000, 0x1000, 3), 0);
    assert_eq!(open(&mut k, "f", OpenFlags::CREATE | OpenFlags::RDWR), 3);
    assert_eq!(sys_fstat(&mut k, 3, 0x2ff8), 0);
    assert_eq!(peek(&mut k, 0x2ff8, 8), vec![0u8; 8]);
    assert_eq!(peek(&mut k, 0x3000, 8), 1u64.to_le_bytes().to_vec());
    assert_eq!(peek(&mut k, 0x3008, 4), S_IFREG.to_le_bytes().to_vec());
}

#[test]
fn mmap_takes_only_the_frames_it_needs() {
    // root, then two pages under one leaf table: two frames and two tables
    let mut k = Kernel::new(5, 0);
    k.spawn(1, 0, 1);
    k.run_next();
    assert_eq!(sys_mmap(&mut k, 0x1000, 0x2000, 3), 0);
    assert_eq!(k.mem.free_frames(), 0);
    assert_eq!(sys_mmap(&mut k, 0x3000, 0x1000, 3), -1);
}

#[test]
fn unlinkat_undoes_linkat() {
    let mut k = kernel();
    assert_eq!(open(&mut k, "f", OpenFlags::CREATE | OpenFlags::RDWR), 3);
    let before = k.root_inode.ls(&k.fs);
    let size = k.root_inode.get_size(&k.fs);
    poke(&mut k, 0x1000, b"f\0g\0");
    assert_eq!(sys_linkat(&mut k, 0x1000, 0x1002), 0);
    assert_eq!(k.root_inode.ls(&k.fs).len(), 2);
    assert_eq!(sys_unlinkat(&mut k, 0x1002), 0);
    assert_eq!(k.root_inode.ls(&k.fs), before);
    assert_eq!(k.root_inode.get_size(&k.fs), size);
    assert_eq!(sys_fstat(&mut k, 3, 0x1800), 0);
    assert_eq!(peek(&mut k, 0x1814, 4), 1u32.to_le_bytes().to_vec());
}
