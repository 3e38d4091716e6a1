//! A model of the rCore teaching kernel: Sv39 page tables over a simulated
//! physical memory, the easy-fs virtual file system, the task manager and the
//! system calls that tie them together.
use vstd::prelude::*;

pub mod config;
pub mod mm;
pub mod fs;
pub mod task;
pub mod kernel;
pub mod syscall;

