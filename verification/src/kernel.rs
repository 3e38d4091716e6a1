//! The state of the whole kernel: physical memory, the file system, the
//! ready queue, the running task and the console.
use vstd::prelude::*;
use std::collections::VecDeque;
use crate::fs::file::File;
use crate::fs::layout::EasyFileSystem;
use crate::fs::vfs::Inode;
use crate::mm::frame::{PhysMem, MAX_FRAMES};
use crate::mm::page_table::is_root;
use crate::mm::memory_set::{frames_owned, lemma_frames_owned_new_root, lemma_frames_owned_no_roots};
use crate::task::manager::TaskManager;
use crate::task::task::{TaskControlBlock, TaskStatus};
use crate::config::USER_SPACE_END;

verus! {

/// The kernel.
pub struct Kernel {
    /// Physical memory
    pub mem: PhysMem,
    /// The file system
    pub fs: EasyFileSystem,
    /// The root directory
    pub root_inode: Inode,
    /// The tasks ready to run
    pub manager: TaskManager,
    /// The running task
    pub current: Option<TaskControlBlock>,
    /// What the tasks wrote to the console
    pub console: Vec<u8>,
    /// Console input not read yet
    pub input: VecDeque<u8>,
}

/// A task stays well formed when memory keeps every page table it had and
/// the file system keeps its inode area and every inode.
pub proof fn lemma_task_wf_mono(t: &TaskControlBlock, m0: &PhysMem, m1: &PhysMem, f0: &EasyFileSystem, f1: &EasyFileSystem)
    requires
        t.wf(m0, f0),
        m1.wf(),
        forall|p: int| #[trigger] m0.tables().contains_key(p) ==> m1.tables().contains_key(p)
            && m1.tables()[p] == m0.tables()[p],
        f1.wf(),
        f1.start() == f0.start(),
        f1@.len() >= f0@.len(),
    ensures
        t.wf(m1, f1),
{
    assert(is_root(m1, t.memory_set.root()));
    assert forall|i: int| 0 <= i < t.fd_table@.len() implies match #[trigger] t.fd_table@[i] {
        Some(File::Inode(os)) => os.inode.wf(f1),
        _ => true,
    } by {
        match t.fd_table@[i] {
            Some(File::Inode(os)) => { os.inode.lemma_wf_mono(f0, f1); },
            _ => {},
        }
    }
}

impl Kernel {
    /// The invariant of the kernel: memory, the file system and the root
    /// directory are well formed, every user page names a frame of its own
    /// that holds no page table, and every task is well formed.
    pub open spec fn wf(&self) -> bool {
        &&& self.mem.wf()
        &&& frames_owned(&self.mem)
        &&& self.fs.wf()
        &&& self.root_inode.wf(&self.fs)
        &&& self.root_inode.is_dir_in(&self.fs)
        &&& (self.current is Some ==> self.current->0.wf(&self.mem, &self.fs))
        &&& forall|i: int| 0 <= i < self.manager@.len() ==> #[trigger] self.manager@[i].wf(&self.mem, &self.fs)
    }

    /// Every task stays well formed in a later memory and file system.
    pub proof fn lemma_tasks_mono(&self, m1: &PhysMem, f1: &EasyFileSystem)
        requires
            self.wf(),
            m1.wf(),
            forall|p: int| #[trigger] self.mem.tables().contains_key(p) ==> m1.tables().contains_key(p)
                && m1.tables()[p] == self.mem.tables()[p],
            f1.wf(),
            f1.start() == self.fs.start(),
            f1@.len() >= self.fs@.len(),
        ensures
            self.current is Some ==> self.current->0.wf(m1, f1),
            forall|i: int| 0 <= i < self.manager@.len() ==> #[trigger] self.manager@[i].wf(m1, f1),
            self.root_inode.wf(f1),
            self.root_inode.id(f1) == self.root_inode.id(&self.fs),
    {
        if self.current is Some {
            lemma_task_wf_mono(&self.current->0, &self.mem, m1, &self.fs, f1);
        }
        assert forall|i: int| 0 <= i < self.manager@.len() implies #[trigger] self.manager@[i].wf(m1, f1) by {
            lemma_task_wf_mono(&self.manager@[i], &self.mem, m1, &self.fs, f1);
        }
        self.root_inode.lemma_wf_mono(&self.fs, f1);
    }

    /// A kernel with `frames` frames of zeroed memory, a file system holding
    /// only its root directory, and no task.
    pub fn new(frames: usize, inode_area_start_block: u32) -> (r: Kernel)
        requires
            frames <= MAX_FRAMES,
            inode_area_start_block + crate::fs::layout::MAX_INODES / 4 <= u32::MAX,
        ensures
            r.wf(),
            r.mem.free_count() == frames,
            r.fs@.len() == 1,
            r.root_inode.id(&r.fs) == 0,
            r.manager@.len() == 0,
            r.current is None,
            r.console@.len() == 0,
            r.input@.len() == 0,
    {
        let mem = PhysMem::new(frames);
        let fs = EasyFileSystem::create(inode_area_start_block);
        let root_inode = Inode::root_inode(&fs);
        Kernel {
            mem,
            fs,
            root_inode,
            manager: TaskManager::new(),
            current: None,
            console: Vec::new(),
            input: VecDeque::new(),
        }
    }

    /// Makes a task with an empty address space and an empty heap at
    /// `heap_bottom`, and adds it to the ready queue.
    pub fn spawn(&mut self, pid: usize, heap_bottom: u64, pass: usize)
        requires
            old(self).wf(),
            old(self).mem.free_count() > 0,
            heap_bottom <= USER_SPACE_END,
        ensures
            final(self).wf(),
            final(self).manager@.len() == old(self).manager@.len() + 1,
            final(self).manager@.drop_last() == old(self).manager@,
            final(self).manager@.last().pid == pid,
            final(self).manager@.last().stride == 0,
            final(self).manager@.last().pass == pass,
            final(self).current == old(self).current,
            final(self).fs@ == old(self).fs@,
    {
        let ghost k0 = *self;
        let t = TaskControlBlock::new(&mut self.mem, pid, heap_bottom, pass);
        proof {
            lemma_frames_owned_new_root(&k0.mem, &self.mem, t.memory_set.root());
            k0.lemma_tasks_mono(&self.mem, &self.fs);
            assert forall|i: int| 0 <= i < t.fd_table@.len() implies match #[trigger] t.fd_table@[i] {
                Some(File::Inode(os)) => os.inode.wf(&self.fs),
                _ => true,
            } by {}
        }
        self.manager.add(t);
        proof {
            assert(self.manager@.drop_last() =~= k0.manager@);
        }
    }

    /// Runs the next ready task when none is running: the task at the front
    /// of the ready queue becomes the running one.
    pub fn run_next(&mut self)
        requires
            old(self).wf(),
        ensures
            final(self).wf(),
            final(self).mem == old(self).mem,
            final(self).fs == old(self).fs,
            old(self).current is Some ==> *final(self) == *old(self),
            old(self).current is None && old(self).manager@.len() == 0 ==> final(self).current is None
                && final(self).manager@ == old(self).manager@,
            old(self).current is None && old(self).manager@.len() > 0 ==> {
                &&& final(self).current is Some
                &&& final(self).current->0.pid == old(self).manager@[0].pid
                &&& final(self).current->0.task_status == TaskStatus::Running
                &&& final(self).manager@ == old(self).manager@.drop_first()
            },
    {
        if self.current.is_some() {
            return;
        }
        let ghost q0 = self.manager@;
        match self.manager.fetch() {
            Some(mut task) => {
                proof { assert(task.wf(&self.mem, &self.fs)); }
                task.task_status = TaskStatus::Running;
                self.current = Some(task);
                proof {
                    assert forall|i: int| 0 <= i < self.manager@.len() implies #[trigger] self.manager@[i].wf(&self.mem, &self.fs) by {
                        assert(self.manager@[i] == q0[i + 1]);
                    }
                }
            },
            None => {},
        }
    }

    /// Counts a call of syscall `id` by the running task.
    pub fn record_syscall(&mut self, id: usize)
        requires
            old(self).wf(),
            old(self).current is Some,
            old(self).current->0.syscall_stats@.contains_key(id) ==> old(self).current->0.syscall_stats@[id] < usize::MAX,
        ensures
            final(self).wf(),
            final(self).mem == old(self).mem,
            final(self).fs == old(self).fs,
            final(self).manager == old(self).manager,
            final(self).current is Some,
            ({
                let stats = old(self).current->0.syscall_stats@;
                final(self).current->0.syscall_stats@ == stats.insert(
                    id,
                    if stats.contains_key(id) { (stats[id] + 1) as usize } else { 1 },
                )
            }),
            final(self).current->0.memory_set == old(self).current->0.memory_set,
            final(self).current->0.fd_table@ == old(self).current->0.fd_table@,
    {
        let ghost k0 = *self;
        self.current.as_mut().unwrap().record_syscall(id);
        proof {
            let t0 = k0.current->0;
            let t1 = self.current->0;
            assert forall|i: int| 0 <= i < t1.fd_table@.len() implies match #[trigger] t1.fd_table@[i] {
                Some(File::Inode(os)) => os.inode.wf(&self.fs),
                _ => true,
            } by {
                assert(t1.fd_table@[i] == t0.fd_table@[i]);
            }
        }
    }
}

} // verus!
