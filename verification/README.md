# rcore_os

A verified model of a small teaching kernel for RISC-V Sv39, written in
Verus. Every function under `src/` carries a contract. Verus proves all of
them but two small wrappers in `fs::vfs`, whose contracts restate what the
standard library documents for `String::from_utf8` and `String::push`.

- `mm`: virtual and physical addresses, page table entries, physical memory
  as frames of bytes with a frame allocator, three-level page tables kept in
  that memory, access to user buffers through a page table, and mapping of
  fresh frames.
- `fs`: the easy-fs disk inodes and directories, the inode layer over them
  (find, create, link, unlink, read, write), and the files a task holds open.
- `task`: the task control block and the ready queue with its stride
  scheduler.
- `kernel`: the whole kernel state and its invariant.
- `syscall`: the process and file system calls, each a function from the
  kernel state and the call's arguments to the new state and the result.

`app/` holds the kernel as one shared value behind a lock, and the scheduler
entry points that use it.
