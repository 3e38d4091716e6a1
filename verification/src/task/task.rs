//! Types related to task management
use vstd::prelude::*;
use std::collections::BTreeMap;
use crate::config::USER_SPACE_END;
use crate::fs::file::File;
use crate::fs::layout::EasyFileSystem;
use crate::mm::frame::{PhysMem, TableInfo};
use crate::mm::memory_set::{frames_needed, map_fresh, map_side, mapped_fresh, unmap_range, unmap_side, unmapped_range};
use crate::mm::page_table::{is_root, mapping, token_root, PageTable, VPN_MASK};
use crate::mm::pte::{entry_bits, has_flag, lemma_entry_flags, ppn_of, PTEFlags};

verus! {

/// The status of a task
#[derive(Clone, Copy, PartialEq, Eq, Structural, Debug)]
pub enum TaskStatus {
    /// uninitialized
    UnInit,
    /// ready to run
    Ready,
    /// running
    Running,
    /// exited
    Exited,
}

/// The registers that a switch between tasks saves and restores.
#[derive(Clone, Copy, Debug)]
pub struct TaskContext {
    /// return address
    pub ra: usize,
    /// kernel stack pointer
    pub sp: usize,
    /// callee-saved registers s0..s11
    pub s: [usize; 12],
}

impl TaskContext {
    /// A context of zeros.
    pub fn zero_init() -> (r: TaskContext)
        ensures
            r.ra == 0,
            r.sp == 0,
            r.s@ == Seq::new(12, |i: int| 0usize),
    {
        let s = [0usize; 12];
        assert(s@ =~= Seq::new(12, |i: int| 0usize));
        TaskContext { ra: 0, sp: 0, s }
    }
}

/// The task control block (TCB) of a task.
pub struct TaskControlBlock {
    /// The process identifier
    pub pid: usize,
    /// The task status in it's lifecycle
    pub task_status: TaskStatus,
    /// The task context
    pub task_cx: TaskContext,
    /// 系统调用统计（键：系统调用编号，值：调用次数）
    pub syscall_stats: BTreeMap<usize, usize>,
    /// The stride of the task: how far it has run, in scheduler units
    pub stride: usize,
    /// How far the stride moves each time the task is picked
    pub pass: usize,
    /// The address space of the task
    pub memory_set: PageTable,
    /// The files the task holds open, by descriptor
    pub fd_table: Vec<Option<File>>,
    /// The lowest address of the heap
    pub heap_bottom: u64,
    /// The end of the heap
    pub program_brk: u64,
    /// The code the task exited with
    pub exit_code: i32,
}

/// The first page at or above `addr`.
pub open spec fn ceil_page(addr: int) -> int {
    (addr + 4095) / 4096
}

/// The flags of pages that `mmap` maps with protection `prot`.
pub open spec fn mmap_flags(prot: usize) -> u8 {
    ((prot as u8) << 1u8) | PTEFlags::U
}

/// Whether entry `e` gives user mode exactly the rights that `prot` names:
/// reading for bit 0, writing for bit 1 and executing for bit 2. The entry
/// is valid and open to user mode, and neither global nor marked accessed
/// or dirty.
pub open spec fn prot_rights(e: u64, prot: usize) -> bool {
    &&& has_flag(e, PTEFlags::V)
    &&& has_flag(e, PTEFlags::U)
    &&& has_flag(e, PTEFlags::R) == (prot & 1 != 0)
    &&& has_flag(e, PTEFlags::W) == (prot & 2 != 0)
    &&& has_flag(e, PTEFlags::X) == (prot & 4 != 0)
    &&& !has_flag(e, PTEFlags::G)
    &&& !has_flag(e, PTEFlags::A)
    &&& !has_flag(e, PTEFlags::D)
}

/// The entry that `mmap` makes for a page with protection `prot`, whatever
/// frame it names, gives user mode exactly the rights that `prot` names.
pub proof fn lemma_mmap_flags_rights(prot: usize, ppn: u64)
    requires
        prot <= 7,
    ensures
        prot_rights(entry_bits(ppn, mmap_flags(prot) | PTEFlags::V), prot),
{
    let f = mmap_flags(prot) | PTEFlags::V;
    lemma_entry_flags(ppn, f);
    assert({
        let g = (((prot as u8) << 1u8) | 16u8) | 1u8;
        &&& g & 1u8 != 0
        &&& g & 16u8 != 0
        &&& (g & 2u8 != 0) == (prot & 1 != 0)
        &&& (g & 4u8 != 0) == (prot & 2 != 0)
        &&& (g & 8u8 != 0) == (prot & 4 != 0)
        &&& g & 32u8 == 0
        &&& g & 64u8 == 0
        &&& g & 128u8 == 0
    }) by (bit_vector)
        requires prot <= 7;
}

/// Whether `mmap` of `[start, start + len)` succeeds: no page is mapped and
/// enough frames are free for the pages and the tables they add.
pub open spec fn mmap_ok(mem: &PhysMem, root: int, start: usize, len: usize) -> bool {
    &&& forall|v: u64| start / 4096 <= v < ceil_page(start + len) ==> !#[trigger] mapping(mem@, root).contains_key(v)
    &&& mem.free_count() >= frames_needed(mem@, root, (start / 4096) as int, (start / 4096) as int, ceil_page(start + len))
}

impl TaskControlBlock {
    /// The task's address space is a root table of `mem`, the heap lies in
    /// user space, and every inode it holds open exists in `fs`.
    pub open spec fn wf(&self, mem: &PhysMem, fs: &EasyFileSystem) -> bool {
        &&& self.memory_set.wf(mem)
        &&& self.heap_bottom <= self.program_brk <= USER_SPACE_END
        &&& forall|i: int| 0 <= i < self.fd_table@.len() ==> match #[trigger] self.fd_table@[i] {
            Some(File::Inode(os)) => os.inode.wf(fs),
            _ => true,
        }
    }

    /// A task with an empty address space, the console open as descriptors
    /// 0, 1 and 2, and an empty heap at `heap_bottom`.
    pub fn new(mem: &mut PhysMem, pid: usize, heap_bottom: u64, pass: usize) -> (r: TaskControlBlock)
        requires
            old(mem).wf(),
            old(mem).free_count() > 0,
            heap_bottom <= USER_SPACE_END,
        ensures
            r.memory_set.wf(final(mem)),
            r.memory_set.view_in(final(mem)) == Map::<u64, u64>::empty(),
            r.pid == pid,
            r.task_status == TaskStatus::Ready,
            r.stride == 0,
            r.pass == pass,
            r.heap_bottom == heap_bottom,
            r.program_brk == heap_bottom,
            r.syscall_stats@ == Map::<usize, usize>::empty(),
            r.fd_table@.len() == 3,
            r.fd_table@[0] matches Some(File::Stdin),
            r.fd_table@[1] matches Some(File::Stdout),
            r.fd_table@[2] matches Some(File::Stdout),
            !old(mem).allocated(r.memory_set.root()),
            final(mem).free_count() + 1 == old(mem).free_count(),
            forall|p: int| #[trigger] old(mem).tables().contains_key(p) ==> final(mem).tables().contains_key(p)
                && final(mem).tables()[p] == old(mem).tables()[p],
            forall|root: int| is_root(old(mem), root) ==> mapping(final(mem)@, root) == mapping(old(mem)@, root),
            final(mem).tables() == old(mem).tables().insert(r.memory_set.root(), TableInfo { level: 0, parent: 0, index: 0 }),
            forall|q: int| old(mem).allocated(q) ==> final(mem).allocated(q),
            final(mem)@.len() == old(mem)@.len(),
    {
        proof { old(mem).lemma_wf(); }
        let memory_set = PageTable::new(mem);
        proof {
            assert forall|p: int| #[trigger] old(mem).tables().contains_key(p) implies mem.tables().contains_key(p)
                && mem.tables()[p] == old(mem).tables()[p] by {
                assert(p != memory_set.root());
            }
        }
        let mut fd_table: Vec<Option<File>> = Vec::new();
        fd_table.push(Some(File::Stdin));
        fd_table.push(Some(File::Stdout));
        fd_table.push(Some(File::Stdout));
        TaskControlBlock {
            pid,
            task_status: TaskStatus::Ready,
            task_cx: TaskContext::zero_init(),
            syscall_stats: BTreeMap::new(),
            stride: 0,
            pass,
            memory_set,
            fd_table,
            heap_bottom,
            program_brk: heap_bottom,
            exit_code: 0,
        }
    }

    /// The token of the task's address space.
    pub fn get_user_token(&self, mem: &PhysMem) -> (r: u64)
        requires
            self.memory_set.wf(mem),
        ensures
            token_root(r) == self.memory_set.root(),
    {
        let r = self.memory_set.token();
        proof {
            mem.lemma_wf();
            let root = self.memory_set.root() as u64;
            assert(root <= 0xfff_ffff_ffffu64 ==> ((8u64 << 60u64) | root) & 0xfff_ffff_ffffu64 == root) by (bit_vector);
        }
        r
    }

    /// Counts one more call of syscall `id` by the task.
    pub fn record_syscall(&mut self, id: usize)
        requires
            old(self).syscall_stats@.contains_key(id) ==> old(self).syscall_stats@[id] < usize::MAX,
        ensures
            final(self).syscall_stats@ == old(self).syscall_stats@.insert(
                id,
                if old(self).syscall_stats@.contains_key(id) { (old(self).syscall_stats@[id] + 1) as usize } else { 1 },
            ),
            final(self).fd_table@ == old(self).fd_table@,
            final(self).memory_set == old(self).memory_set,
            final(self).pid == old(self).pid,
            final(self).heap_bottom == old(self).heap_bottom,
            final(self).program_brk == old(self).program_brk,
            final(self).stride == old(self).stride,
            final(self).pass == old(self).pass,
            final(self).task_status == old(self).task_status,
            final(self).exit_code == old(self).exit_code,
    {
        let c: usize = match self.syscall_stats.get(&id) {
            Some(c) => *c,
            None => 0,
        };
        self.syscall_stats.insert(id, c + 1);
    }

    /// The lowest descriptor not in use, made when every one is in use.
    pub fn alloc_fd(&mut self) -> (r: usize)
        ensures
            final(self).fd_table@ == if r < old(self).fd_table@.len() { old(self).fd_table@ } else {
                old(self).fd_table@.push(None)
            },
            r <= old(self).fd_table@.len(),
            final(self).fd_table@[r as int] is None,
            forall|i: int| 0 <= i < r ==> #[trigger] old(self).fd_table@[i] is Some,
            final(self).memory_set == old(self).memory_set,
            final(self).pid == old(self).pid,
            final(self).heap_bottom == old(self).heap_bottom,
            final(self).program_brk == old(self).program_brk,
            final(self).stride == old(self).stride,
            final(self).pass == old(self).pass,
            final(self).task_status == old(self).task_status,
            final(self).syscall_stats@ == old(self).syscall_stats@,
            final(self).exit_code == old(self).exit_code,
    {
        let n = self.fd_table.len();
        let mut fd: usize = 0;
        while fd < n
            invariant
                fd <= n,
                n == self.fd_table@.len(),
                self.fd_table@ == old(self).fd_table@,
                forall|i: int| 0 <= i < fd ==> #[trigger] self.fd_table@[i] is Some,
            decreases n - fd,
        {
            if self.fd_table[fd].is_none() {
                return fd;
            }
            fd = fd + 1;
        }
        self.fd_table.push(None);
        n
    }

    /// 在当前任务的页表中映射一段虚拟地址区域: each page of
    /// `[start, start + len)` gets a fresh zeroed frame that user mode can
    /// access as `prot` allows (bit 0 read, bit 1 write, bit 2 execute).
    /// Fails, changing nothing, when a page is mapped already or when fewer
    /// frames are free than the pages and the tables they add take.
    pub fn sys_mmap_tcb(&mut self, mem: &mut PhysMem, start: usize, len: usize, prot: usize) -> (r: isize)
        requires
            old(self).memory_set.wf(old(mem)),
            start + len <= USER_SPACE_END,
            prot <= 7,
        ensures
            final(self).memory_set.wf(final(mem)),
            final(self).memory_set.root() == old(self).memory_set.root(),
            final(self).fd_table@ == old(self).fd_table@,
            final(self).heap_bottom == old(self).heap_bottom,
            final(self).program_brk == old(self).program_brk,
            r == 0 || r == -1,
            r == 0 <==> mmap_ok(old(mem), old(self).memory_set.root(), start, len),
            r == -1 ==> *final(mem) == *old(mem),
            r == 0 ==> mapped_fresh(old(mem), final(mem), old(self).memory_set.root(), (start / 4096) as u64,
                ceil_page(start + len) as u64, mmap_flags(prot)),
            r == 0 ==> forall|v: u64|
                #![trigger mapping(final(mem)@, old(self).memory_set.root()).contains_key(v)]
                #![trigger mapping(final(mem)@, old(self).memory_set.root())[v]]
                start / 4096 <= v < ceil_page(start + len) ==> {
                    &&& mapping(final(mem)@, old(self).memory_set.root()).contains_key(v)
                    &&& prot_rights(mapping(final(mem)@, old(self).memory_set.root())[v], prot)
                },
            map_side(old(mem), final(mem), old(self).memory_set.root()),
            forall|root: int| is_root(old(mem), root) && root != old(self).memory_set.root() ==> mapping(final(mem)@, root) == mapping(old(mem)@, root),
            forall|p: int| #[trigger] old(mem).tables().contains_key(p) ==> final(mem).tables().contains_key(p)
                && final(mem).tables()[p] == old(mem).tables()[p],
    {
        let lo = start as u64 / 4096;
        let hi = (start as u64 + len as u64 + 4095) / 4096;
        let flags = PTEFlags { bits: ((prot as u8) << 1u8) | PTEFlags::U };
        proof {
            let pb = prot as u8;
            assert(pb <= 7 ==> (pb << 1u8) | 16u8 == ((pb << 1u8) | 16u8)) by (bit_vector);
        }
        let ghost m0 = *mem;
        let ghost root = self.memory_set.root();
        let ok = map_fresh(&mut self.memory_set, mem, lo, hi, flags);
        proof {
            assert(lo == start / 4096);
            assert(hi == ceil_page(start + len));
            let a = forall|v: u64| lo <= v < hi ==> !#[trigger] old(self).memory_set.view_in(&m0).contains_key(v);
            let b = forall|v: u64| start / 4096 <= v < ceil_page(start + len) ==> !#[trigger] mapping(m0@, root).contains_key(v);
            if a {
                assert forall|v: u64| start / 4096 <= v < ceil_page(start + len) implies !#[trigger] mapping(m0@, root).contains_key(v) by {
                    assert(!old(self).memory_set.view_in(&m0).contains_key(v));
                }
            }
            if b {
                assert forall|v: u64| lo <= v < hi implies !#[trigger] old(self).memory_set.view_in(&m0).contains_key(v) by {
                    assert(!mapping(m0@, root).contains_key(v));
                }
            }
            assert(a == b);
        }
        if ok {
            proof {
                assert forall|v: u64|
                    #![trigger mapping(mem@, old(self).memory_set.root()).contains_key(v)]
                    #![trigger mapping(mem@, old(self).memory_set.root())[v]]
                    start / 4096 <= v < ceil_page(start + len) implies
                    mapping(mem@, old(self).memory_set.root()).contains_key(v)
                    && prot_rights(mapping(mem@, old(self).memory_set.root())[v], prot) by {
                    assert(lo <= v < hi);
                    let e = mapping(mem@, root)[v];
                    assert(mapping(mem@, root).contains_key(v));
                    assert(e == entry_bits(ppn_of(e), mmap_flags(prot) | PTEFlags::V));
                    lemma_mmap_flags_rights(prot, ppn_of(e));
                }
            }
            0
        } else {
            -1
        }
    }

    /// 在当前任务的页表中取消映射一段虚拟地址区域: each page of
    /// `[start, start + len)` is unmapped and its frame given back. Fails,
    /// changing nothing, when a page is not mapped.
    pub fn sys_munmap_tcb(&mut self, mem: &mut PhysMem, start: usize, len: usize) -> (r: isize)
        requires
            old(self).memory_set.wf(old(mem)),
            start + len <= USER_SPACE_END,
        ensures
            final(self).memory_set.wf(final(mem)),
            final(self).memory_set.root() == old(self).memory_set.root(),
            final(self).fd_table@ == old(self).fd_table@,
            final(self).heap_bottom == old(self).heap_bottom,
            final(self).program_brk == old(self).program_brk,
            r == 0 || r == -1,
            r == 0 <==> (forall|v: u64| start / 4096 <= v < ceil_page(start + len) ==>
                #[trigger] old(self).memory_set.view_in(old(mem)).contains_key(v)),
            r == -1 ==> *final(mem) == *old(mem),
            r == 0 ==> unmapped_range(old(self).memory_set.view_in(old(mem)), final(self).memory_set.view_in(final(mem)),
                (start / 4096) as u64, ceil_page(start + len) as u64),
            r == 0 ==> unmap_side(old(mem), final(mem), old(self).memory_set.root(), (start / 4096) as u64,
                ceil_page(start + len) as u64),
            forall|root: int| is_root(old(mem), root) && root != old(self).memory_set.root() ==> mapping(final(mem)@, root) == mapping(old(mem)@, root),
            final(mem).tables() == old(mem).tables(),
    {
        let lo = start as u64 / 4096;
        let hi = (start as u64 + len as u64 + 4095) / 4096;
        if unmap_range(&mut self.memory_set, mem, lo, hi) {
            0
        } else {
            -1
        }
    }

    /// Moves the end of the heap by `size` bytes: the pages it gains get
    /// fresh zeroed frames readable and writable from user mode, the pages
    /// it loses are unmapped. Gives the old end, or `None` when the end would
    /// fall below the bottom of the heap or leave user space, or the pages
    /// cannot be mapped or unmapped.
    pub fn change_program_brk(&mut self, mem: &mut PhysMem, size: i32) -> (r: Option<u64>)
        requires
            old(self).memory_set.wf(old(mem)),
            old(self).heap_bottom <= old(self).program_brk <= USER_SPACE_END,
        ensures
            final(self).memory_set.wf(final(mem)),
            final(self).memory_set.root() == old(self).memory_set.root(),
            final(self).fd_table@ == old(self).fd_table@,
            final(self).heap_bottom == old(self).heap_bottom,
            final(self).heap_bottom <= final(self).program_brk <= USER_SPACE_END,
            ({
                let nb = old(self).program_brk + size;
                let root = old(self).memory_set.root();
                let lo = ceil_page(old(self).program_brk as int);
                let hi = ceil_page(nb);
                &&& r is Some ==> {
                    &&& r == Some(old(self).program_brk)
                    &&& final(self).program_brk == nb
                    &&& old(self).heap_bottom <= nb <= USER_SPACE_END
                    &&& if size < 0 {
                        forall|v: u64| hi <= v < lo ==> #[trigger] old(self).memory_set.view_in(old(mem)).contains_key(v)
                    } else {
                        (forall|v: u64| lo <= v < hi ==> !#[trigger] old(self).memory_set.view_in(old(mem)).contains_key(v))
                            && old(mem).free_count() >= frames_needed(old(mem)@, root, lo, lo, hi)
                    }
                    &&& size < 0 ==> unmapped_range(old(self).memory_set.view_in(old(mem)),
                        final(self).memory_set.view_in(final(mem)), hi as u64, lo as u64)
                    &&& size >= 0 ==> mapped_fresh(old(mem), final(mem), root, lo as u64, hi as u64,
                        PTEFlags::R | PTEFlags::W | PTEFlags::U)
                    &&& size >= 0 ==> map_side(old(mem), final(mem), root)
                    &&& size < 0 ==> unmap_side(old(mem), final(mem), root, hi as u64, lo as u64)
                }
                &&& r is None ==> {
                    &&& final(self).program_brk == old(self).program_brk
                    &&& *final(mem) == *old(mem)
                    &&& (old(self).heap_bottom <= nb <= USER_SPACE_END ==> if size < 0 {
                        !(forall|v: u64| hi <= v < lo ==> #[trigger] old(self).memory_set.view_in(old(mem)).contains_key(v))
                    } else {
                        !((forall|v: u64| lo <= v < hi ==> !#[trigger] old(self).memory_set.view_in(old(mem)).contains_key(v))
                            && old(mem).free_count() >= frames_needed(old(mem)@, root, lo, lo, hi))
                    })
                }
            }),
            forall|root: int| is_root(old(mem), root) && root != old(self).memory_set.root() ==> mapping(final(mem)@, root) == mapping(old(mem)@, root),
            forall|p: int| #[trigger] old(mem).tables().contains_key(p) ==> final(mem).tables().contains_key(p)
                && final(mem).tables()[p] == old(mem).tables()[p],
    {
        let old_break = self.program_brk;
        let new_brk: i64 = old_break as i64 + size as i64;
        if new_brk < self.heap_bottom as i64 || new_brk > USER_SPACE_END as i64 {
            return None;
        }
        let nb = new_brk as u64;
        let lo = (old_break + 4095) / 4096;
        let hi = (nb + 4095) / 4096;
        let result = if size < 0 {
            unmap_range(&mut self.memory_set, mem, hi, lo)
        } else {
            map_fresh(&mut self.memory_set, mem, lo, hi, PTEFlags { bits: PTEFlags::R | PTEFlags::W | PTEFlags::U })
        };
        if result {
            self.program_brk = nb;
            Some(old_break)
        } else {
            None
        }
    }

}

} // verus!
