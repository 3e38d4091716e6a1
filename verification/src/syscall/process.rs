//! Process management syscalls
use vstd::prelude::*;
use crate::config::USER_SPACE_END;
use crate::fs::file::{le_bytes, push_le_bytes};
use crate::kernel::Kernel;
use crate::mm::address::{VirtAddr, VA_MASK};
use crate::mm::frame::PhysMem;
use crate::mm::memory_set::{
    frames_needed, frames_owned, leaf_frame, lemma_frames_owned_data_write, lemma_frames_owned_leaves, lemma_frames_owned_map, lemma_frames_owned_unmap,
    map_side, mapped_fresh, unmap_side, unmapped_range,
};
use crate::mm::page_table::{is_root, mapping, translate_spec, PageTable, VPN_MASK};
use crate::mm::pte::{has_flag, ppn_of, PTEFlags};
use crate::mm::user::{translated_and_write, write_user};
use crate::task::task::{ceil_page, mmap_flags, mmap_ok, prot_rights, TaskControlBlock, TaskStatus};

verus! {

/// A time: seconds and microseconds.
#[derive(Clone, Copy, PartialEq, Eq, Structural, Debug)]
pub struct TimeVal {
    pub sec: usize,
    pub usec: usize,
}

/// Size of a `TimeVal` in user memory.
pub const TIMEVAL_SIZE: usize = 16;

/// The little-endian bytes of a time in user memory.
pub open spec fn timeval_bytes(us: u64) -> Seq<u8> {
    le_bytes((us / 1_000_000) as u128, 8) + le_bytes((us % 1_000_000) as u128, 8)
}

/// The task after it was put back to wait.
pub open spec fn as_ready(t: TaskControlBlock) -> TaskControlBlock {
    TaskControlBlock { task_status: TaskStatus::Ready, ..t }
}

/// task exits and submit an exit code: the running task is dropped, and the
/// task at the front of the ready queue runs next.
pub fn sys_exit(k: &mut Kernel, exit_code: i32)
    requires
        old(k).wf(),
        old(k).current is Some,
    ensures
        final(k).wf(),
        final(k).mem == old(k).mem,
        final(k).fs == old(k).fs,
        old(k).manager@.len() == 0 ==> final(k).current is None && final(k).manager@ == old(k).manager@,
        old(k).manager@.len() > 0 ==> {
            &&& final(k).current is Some
            &&& final(k).current->0.pid == old(k).manager@[0].pid
            &&& final(k).current->0.task_status == TaskStatus::Running
            &&& final(k).manager@ == old(k).manager@.drop_first()
        },
{
    let mut task = k.current.take().unwrap();
    task.task_status = TaskStatus::Exited;
    task.exit_code = exit_code;
    k.run_next();
}

/// current task gives up resources for other tasks: it goes to the back of
/// the ready queue, and the task at the front runs next.
pub fn sys_yield(k: &mut Kernel) -> (r: isize)
    requires
        old(k).wf(),
        old(k).current is Some,
    ensures
        r == 0,
        final(k).wf(),
        final(k).mem == old(k).mem,
        final(k).fs == old(k).fs,
        ({
            let q = old(k).manager@.push(as_ready(old(k).current->0));
            &&& final(k).current is Some
            &&& final(k).current->0.pid == q[0].pid
            &&& final(k).current->0.task_status == TaskStatus::Running
            &&& final(k).manager@ == q.drop_first()
        }),
{
    let mut task = k.current.take().unwrap();
    task.task_status = TaskStatus::Ready;
    k.manager.add(task);
    proof {
        assert forall|i: int| 0 <= i < k.manager@.len() implies #[trigger] k.manager@[i].wf(&k.mem, &k.fs) by {
            if i < old(k).manager@.len() {
                assert(k.manager@[i] == old(k).manager@[i]);
            }
        }
    }
    k.run_next();
    0
}

/// The root table of the running task.
pub open spec fn current_root(k: &Kernel) -> int {
    k.current->0.memory_set.root()
}

/// get time with second and microsecond: writes the time `us`
/// microseconds into the `TimeVal` at `ts` of the running task; `0` when
/// every byte was written, `-1` when a page is not writable.
pub fn sys_get_time(k: &mut Kernel, ts: usize, _tz: usize, us: u64) -> (r: isize)
    requires
        old(k).wf(),
        old(k).current is Some,
        ts + TIMEVAL_SIZE <= USER_SPACE_END,
    ensures
        final(k).wf(),
        final(k).fs == old(k).fs,
        final(k).current == old(k).current,
        final(k).manager == old(k).manager,
        final(k).mem.tables() == old(k).mem.tables(),
        forall|q: int| final(k).mem.allocated(q) == old(k).mem.allocated(q),
        final(k).mem.free_count() == old(k).mem.free_count(),
        ({
            let res = write_user(old(k).mem@, current_root(old(k)), ts as int,
                ts + TIMEVAL_SIZE, timeval_bytes(us));
            &&& r == (if res.0 { 0isize } else { -1isize })
            &&& final(k).mem@ == res.1
        }),
{
    let page_table_token = k.current.as_ref().unwrap().get_user_token(&k.mem);
    let page_table = PageTable::from_token(page_table_token);
    let ts_va_start = ts as u64;
    let ts_va_end = ts_va_start + TIMEVAL_SIZE as u64;
    let sec = us / 1_000_000;
    let usec = us % 1_000_000;
    let mut time_val_bytes: Vec<u8> = Vec::new();
    push_le_bytes(&mut time_val_bytes, sec, 8);
    push_le_bytes(&mut time_val_bytes, usec, 8);
    proof {
        crate::fs::file::lemma_le_bytes_len(sec as u128, 8);
        crate::fs::file::lemma_le_bytes_len(usec as u128, 8);
    }
    let ghost k0 = *k;
    proof {
        lemma_frames_owned_leaves(&k.mem, page_table.root());
    }
    let r = translated_and_write(&mut k.mem, ts_va_start, ts_va_end, &page_table, time_val_bytes.as_slice());
    proof {
        lemma_frames_owned_data_write(&k0.mem, &k.mem);
        k0.lemma_tasks_mono(&k.mem, &k.fs);
    }
    r as isize
}

/// What `trace` gives back and where its write lands, on the memory `mem`
/// of a task whose root table is `root`.
pub open spec fn trace_spec(mem: &PhysMem, root: int, stats: Map<usize, usize>, trace_request: usize, id: usize, data: usize) -> (isize, Seq<Seq<u8>>) {
    let va = (id as u64) & VA_MASK;
    let vpn = va / 4096;
    let off = va % 4096;
    if trace_request == 0 || trace_request == 1 {
        match translate_spec(mem@, root, vpn) {
            None => (-1isize, mem@),
            Some(e) => {
                let p = ppn_of(e) as int;
                if !has_flag(e, PTEFlags::V) {
                    (-1isize, mem@)
                } else if trace_request == 0 {
                    if !has_flag(e, PTEFlags::R) || !has_flag(e, PTEFlags::U) {
                        (-1isize, mem@)
                    } else {
                        (mem@[p][off as int] as isize, mem@)
                    }
                } else {
                    if !has_flag(e, PTEFlags::W) || !has_flag(e, PTEFlags::U) {
                        (-1isize, mem@)
                    } else {
                        (0isize, mem@.update(p, mem@[p].update(off as int, data as u8)))
                    }
                }
            },
        }
    } else if trace_request == 4 {
        (if stats.contains_key(id) { stats[id] as isize } else { 0isize }, mem@)
    } else {
        (-1isize, mem@)
    }
}

/// The page of an address of the running task is mapped by a valid leaf
/// when the walk reaches a valid entry for it, and that leaf names a frame
/// of memory that holds no table.
proof fn lemma_trace_leaf(mem: &PhysMem, root: int, id: u64, e: u64)
    requires
        frames_owned(mem),
        is_root(mem, root),
        translate_spec(mem@, root, (id & VA_MASK) / 4096) == Some(e),
        has_flag(e, PTEFlags::V),
    ensures
        0 <= ppn_of(e) < mem@.len(),
        !mem.tables().contains_key(ppn_of(e) as int),
{
    let va = id & VA_MASK;
    assert(va / 4096 <= VPN_MASK) by (bit_vector)
        requires va == id & 0x7f_ffff_ffffu64;
    lemma_frames_owned_leaves(mem, root);
    let vpn = va / 4096;
    assert(mapping(mem@, root).contains_key(vpn));
    assert(leaf_frame(mem@, root, vpn) == ppn_of(e) as int);
}

/// Reads a byte (request 0) or writes one (request 1) at address `id` of
/// the running task, when its page is mapped by a valid entry that allows it
/// from user mode; or gives the number of times the running task made
/// syscall `id`, the calls counted so far (request 4).
pub fn sys_trace(k: &mut Kernel, trace_request: usize, id: usize, data: usize) -> (r: isize)
    requires
        old(k).wf(),
        old(k).current is Some,
    ensures
        final(k).wf(),
        final(k).fs == old(k).fs,
        final(k).current == old(k).current,
        final(k).manager == old(k).manager,
        final(k).mem.tables() == old(k).mem.tables(),
        forall|q: int| final(k).mem.allocated(q) == old(k).mem.allocated(q),
        final(k).mem.free_count() == old(k).mem.free_count(),
        ({
            let res = trace_spec(&old(k).mem, current_root(old(k)), old(k).current->0.syscall_stats@,
                trace_request, id, data);
            &&& r == res.0
            &&& final(k).mem@ == res.1
        }),
{
    let page_table_token = k.current.as_ref().unwrap().get_user_token(&k.mem);
    let page_table = PageTable::from_token(page_table_token);
    let va = VirtAddr::from_u64(id as u64);
    let vpn = va.floor();
    let page_offset = va.page_offset();
    proof { k.mem.lemma_wf(); }
    match trace_request {
        0 => {
            let pte = match page_table.translate(&k.mem, vpn) {
                Some(pte) => pte,
                None => return -1,
            };
            if !pte.is_valid() {
                return -1;
            }
            if !pte.readable() {
                return -1;
            }
            if !pte.user_visible() {
                return -1;
            }
            let ppn = pte.ppn();
            proof { lemma_trace_leaf(&k.mem, page_table.root(), id as u64, pte.bits); }
            k.mem.read_byte(ppn.0, page_offset as usize) as isize
        },
        1 => {
            let pte = match page_table.translate(&k.mem, vpn) {
                Some(pte) => pte,
                None => return -1,
            };
            if !pte.is_valid() {
                return -1;
            }
            if !pte.writable() {
                return -1;
            }
            if !pte.user_visible() {
                return -1;
            }
            let ppn = pte.ppn();
            proof { lemma_trace_leaf(&k.mem, page_table.root(), id as u64, pte.bits); }
            let ghost k0 = *k;
            k.mem.write_byte(ppn.0, page_offset as usize, #[verifier::truncate] (data as u8));
            proof {
                lemma_frames_owned_data_write(&k0.mem, &k.mem);
                k0.lemma_tasks_mono(&k.mem, &k.fs);
            }
            0
        },
        4 => {
            match k.current.as_ref().unwrap().syscall_stats.get(&id) {
                Some(c) => *c as isize,
                None => 0,
            }
        },
        _ => -1,
    }
}

/// What `mmap` decides before it maps anything: `Some(r)` when it returns
/// `r` at once.
pub open spec fn mmap_precheck(start: usize, len: usize, prot: usize) -> Option<isize> {
    if start % 4096 != 0 {
        Some(-1isize)
    } else if prot & !7usize != 0 || prot & 7usize == 0 {
        Some(-1isize)
    } else if start >= USER_SPACE_END || start + len > USER_SPACE_END {
        Some(-1isize)
    } else if len == 0 {
        Some(0isize)
    } else {
        None
    }
}

/// Maps `[start, start + len)` of the running task to fresh zeroed frames
/// that user mode can use as `prot` allows.
pub fn sys_mmap(k: &mut Kernel, start: usize, len: usize, prot: usize) -> (r: isize)
    requires
        old(k).wf(),
    ensures
        final(k).wf(),
        final(k).fs == old(k).fs,
        final(k).manager@ == old(k).manager@,
        mmap_precheck(start, len, prot) is Some ==> r == mmap_precheck(start, len, prot)->0 && final(k).mem
            == old(k).mem && final(k).current == old(k).current,
        mmap_precheck(start, len, prot) is None && old(k).current is None ==> r == -1 && final(k).mem == old(k).mem,
        mmap_precheck(start, len, prot) is None && old(k).current is Some ==> {
            let root = current_root(old(k));
            &&& final(k).current is Some
            &&& current_root(final(k)) == root
            &&& (r == 0 || r == -1)
            &&& r == 0 <==> mmap_ok(&old(k).mem, root, start, len)
            &&& r == -1 ==> final(k).mem == old(k).mem
            &&& r == 0 ==> mapped_fresh(&old(k).mem, &final(k).mem, root, (start / 4096) as u64,
                ceil_page(start + len) as u64, mmap_flags(prot))
            &&& r == 0 ==> forall|v: u64|
                #![trigger mapping(final(k).mem@, root).contains_key(v)]
                #![trigger mapping(final(k).mem@, root)[v]]
                start / 4096 <= v < ceil_page(start + len) ==> {
                    &&& mapping(final(k).mem@, root).contains_key(v)
                    &&& prot_rights(mapping(final(k).mem@, root)[v], prot)
                }
            &&& map_side(&old(k).mem, &final(k).mem, root)
        },
{
    if start % 4096 != 0 {
        return -1;
    }
    if (prot & !7usize) != 0 || (prot & 7usize) == 0 {
        return -1;
    }
    let end: u64 = match (start as u64).checked_add(len as u64) {
        Some(e) => e,
        None => u64::MAX,
    };
    if start as u64 >= USER_SPACE_END || end > USER_SPACE_END {
        return -1;
    }
    if len == 0 {
        return 0;
    }
    proof { assert(prot & !7usize == 0 ==> prot <= 7) by (bit_vector); }
    let ghost k0 = *k;
    let r = k.manager.sys_mmap_tcb(&mut k.current, &mut k.mem, start, len, prot);
    proof {
        k0.lemma_tasks_mono(&k.mem, &k.fs);
        if k0.current is Some {
            lemma_current_wf(&k0, k);
            if r == 0 {
                lemma_frames_owned_map(&k0.mem, &k.mem, current_root(&k0), (start / 4096) as u64,
                    ceil_page(start + len) as u64, mmap_flags(prot));
            }
        }
    }
    r
}

/// Unmaps `[start, start + len)` of the running task.
pub fn sys_munmap(k: &mut Kernel, start: usize, len: usize) -> (r: isize)
    requires
        old(k).wf(),
    ensures
        final(k).wf(),
        final(k).fs == old(k).fs,
        final(k).manager@ == old(k).manager@,
        (start % 4096 != 0 || (len > 0 && start + len > USER_SPACE_END)) ==> r == -1 && final(k).mem == old(k).mem
            && final(k).current == old(k).current,
        start % 4096 == 0 && len == 0 ==> r == 0 && final(k).mem == old(k).mem && final(k).current == old(k).current,
        start % 4096 == 0 && len > 0 && start + len <= USER_SPACE_END && old(k).current is None ==> r == -1
            && final(k).mem == old(k).mem,
        start % 4096 == 0 && len > 0 && start + len <= USER_SPACE_END && old(k).current is Some ==> {
            let root = current_root(old(k));
            &&& final(k).current is Some
            &&& current_root(final(k)) == root
            &&& (r == 0 || r == -1)
            &&& r == 0 <==> (forall|v: u64| start / 4096 <= v < ceil_page(start + len) ==>
                #[trigger] mapping(old(k).mem@, root).contains_key(v))
            &&& r == -1 ==> final(k).mem == old(k).mem
            &&& r == 0 ==> unmapped_range(mapping(old(k).mem@, root), mapping(final(k).mem@, root),
                (start / 4096) as u64, ceil_page(start + len) as u64)
            &&& r == 0 ==> unmap_side(&old(k).mem, &final(k).mem, root, (start / 4096) as u64,
                ceil_page(start + len) as u64)
        },
{
    if start % 4096 != 0 {
        return -1;
    }
    if len == 0 {
        return 0;
    }
    let end: u64 = match (start as u64).checked_add(len as u64) {
        Some(e) => e,
        None => u64::MAX,
    };
    if end > USER_SPACE_END {
        return -1;
    }
    let ghost k0 = *k;
    let r = k.manager.sys_munmap_tcb(&mut k.current, &mut k.mem, start, len);
    proof {
        k0.lemma_tasks_mono(&k.mem, &k.fs);
        if k0.current is Some {
            lemma_current_wf(&k0, k);
            let root = current_root(&k0);
            let t0 = k0.current->0;
            if r == 0 || r == -1 {
                assert((forall|v: u64| start / 4096 <= v < ceil_page(start + len) ==>
                    #[trigger] t0.memory_set.view_in(&k0.mem).contains_key(v)) == (forall|v: u64| start / 4096 <= v < ceil_page(start + len) ==>
                    #[trigger] mapping(k0.mem@, root).contains_key(v)));
            }
            if r == 0 {
                lemma_frames_owned_unmap(&k0.mem, &k.mem, root, (start / 4096) as u64, ceil_page(start + len) as u64);
            }
        }
    }
    r
}

/// Whether `sbrk` of `size` bytes succeeds for task `t` on memory `mem`:
/// the new end stays between the bottom of the heap and the end of user
/// space, and the pages it loses are mapped, or the pages it gains are not
/// and enough frames are free for them and the tables they add.
pub open spec fn sbrk_ok(mem: &PhysMem, t: TaskControlBlock, size: i32) -> bool {
    let nb = t.program_brk + size;
    let root = t.memory_set.root();
    &&& t.heap_bottom <= nb <= USER_SPACE_END
    &&& if size < 0 {
        forall|v: u64| ceil_page(nb) <= v < ceil_page(t.program_brk as int) ==> #[trigger] mapping(mem@, root).contains_key(v)
    } else {
        (forall|v: u64| ceil_page(t.program_brk as int) <= v < ceil_page(nb) ==> !#[trigger] mapping(mem@, root).contains_key(v))
            && mem.free_count() >= frames_needed(mem@, root, ceil_page(t.program_brk as int), ceil_page(t.program_brk as int), ceil_page(nb))
    }
}

/// change data segment size: moves the end of the heap of the running task
/// by `size` bytes and gives its old end, or `-1`.
pub fn sys_sbrk(k: &mut Kernel, size: i32) -> (r: isize)
    requires
        old(k).wf(),
        old(k).current is Some,
    ensures
        final(k).wf(),
        final(k).fs == old(k).fs,
        final(k).manager@ == old(k).manager@,
        final(k).current is Some,
        current_root(final(k)) == current_root(old(k)),
        ({
            let t = old(k).current->0;
            let ok = sbrk_ok(&old(k).mem, t, size);
            let root = current_root(old(k));
            let nb = t.program_brk + size;
            &&& r == if ok { t.program_brk as isize } else { -1isize }
            &&& !ok ==> final(k).mem == old(k).mem && final(k).current->0.program_brk == t.program_brk
            &&& ok ==> final(k).current->0.program_brk == nb
            &&& ok && size < 0 ==> unmapped_range(mapping(old(k).mem@, root), mapping(final(k).mem@, root),
                ceil_page(nb) as u64, ceil_page(t.program_brk as int) as u64)
            &&& ok && size >= 0 ==> mapped_fresh(&old(k).mem, &final(k).mem, root,
                ceil_page(t.program_brk as int) as u64, ceil_page(nb) as u64, PTEFlags::R | PTEFlags::W | PTEFlags::U)
            &&& ok && size >= 0 ==> map_side(&old(k).mem, &final(k).mem, root)
            &&& ok && size < 0 ==> unmap_side(&old(k).mem, &final(k).mem, root, ceil_page(nb) as u64,
                ceil_page(t.program_brk as int) as u64)
        }),
{
    let ghost k0 = *k;
    let res = k.current.as_mut().unwrap().change_program_brk(&mut k.mem, size);
    proof {
        k0.lemma_tasks_mono(&k.mem, &k.fs);
        lemma_current_wf(&k0, k);
        let t = k0.current->0;
        let root = t.memory_set.root();
        let nb = t.program_brk + size;
        let lo = ceil_page(t.program_brk as int);
        let hi = ceil_page(nb);
        assert(t.memory_set.view_in(&k0.mem) == mapping(k0.mem@, root));
        if t.heap_bottom <= nb <= USER_SPACE_END {
            if size < 0 {
                assert((forall|v: u64| hi <= v < lo ==> #[trigger] t.memory_set.view_in(&k0.mem).contains_key(v))
                    == (forall|v: u64| hi <= v < lo ==> #[trigger] mapping(k0.mem@, root).contains_key(v)));
            } else {
                assert((forall|v: u64| lo <= v < hi ==> !#[trigger] t.memory_set.view_in(&k0.mem).contains_key(v))
                    == (forall|v: u64| lo <= v < hi ==> !#[trigger] mapping(k0.mem@, root).contains_key(v)));
            }
        }
        if res is Some {
            if size < 0 {
                lemma_frames_owned_unmap(&k0.mem, &k.mem, root, hi as u64, lo as u64);
            } else {
                lemma_frames_owned_map(&k0.mem, &k.mem, root, lo as u64, hi as u64, PTEFlags::R | PTEFlags::W | PTEFlags::U);
            }
        }
    }
    match res {
        Some(old_brk) => #[verifier::truncate] (old_brk as isize),
        None => -1,
    }
}

/// The running task stays well formed through a change of its own address
/// space that keeps its root and its open files.
proof fn lemma_current_wf(k0: &Kernel, k1: &Kernel)
    requires
        k0.wf(),
        k0.current is Some,
        k1.current is Some,
        k1.current->0.memory_set.wf(&k1.mem),
        k1.current->0.fd_table@ == k0.current->0.fd_table@,
        k1.current->0.heap_bottom <= k1.current->0.program_brk <= USER_SPACE_END,
        k1.fs == k0.fs,
    ensures
        k1.current->0.wf(&k1.mem, &k1.fs),
{
    let t0 = k0.current->0;
    let t1 = k1.current->0;
    assert forall|i: int| 0 <= i < t1.fd_table@.len() implies match #[trigger] t1.fd_table@[i] {
        Some(crate::fs::file::File::Inode(os)) => os.inode.wf(&k1.fs),
        _ => true,
    } by {
        assert(t1.fd_table@[i] == t0.fd_table@[i]);
    }
}

/// Once a call of syscall `id` is counted, `trace` with request 4 gives the
/// count with that call in it.
pub proof fn lemma_trace_counts_call(mem: &PhysMem, root: int, stats: Map<usize, usize>, id: usize, data: usize)
    requires
        stats.contains_key(id) ==> stats[id] < isize::MAX,
    ensures
        ({
            let counted = stats.insert(id, if stats.contains_key(id) { (stats[id] + 1) as usize } else { 1 });
            trace_spec(mem, root, counted, 4, id, data).0 == if stats.contains_key(id) { stats[id] + 1 } else { 1 }
        }),
{
}

} // verus!
