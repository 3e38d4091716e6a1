//! File and filesystem-related syscalls
use vstd::prelude::*;
use crate::config::USER_SPACE_END;
use crate::fs::file::{fs_after_write, stat_bytes, stat_of, STAT_SIZE, open_create_ok, open_file, open_spec, File, OSInode, OpenFlags};
use crate::fs::layout::{dir_entries, entry_count, lookup, no_zero, DiskInodeType, NAME_LENGTH_LIMIT};
use crate::fs::vfs::{link_spec, unlink_nlink_ok, unlink_spec};
use crate::fs::layout::{read_bytes, EasyFileSystem, MAX_FILE_SIZE};
use crate::kernel::Kernel;
use crate::mm::frame::PhysMem;
use crate::mm::page_table::{mapped_entry, mapping, translate_spec, PageTable};
use crate::mm::address::VirtAddr;
use crate::mm::pte::ppn_of;
use crate::mm::user::{
    cstr_ends, lemma_mapped_ranges_ok, lemma_read_ranges_len, splice, user_byte, write_bytes, translated_str, user_cstr, lemma_user_ranges_len, pages_mapped, read_ranges,
    read_user_ranges, translated_byte_buffer, user_ranges, write_ranges, write_user_ranges, PhysRange,
};
use crate::syscall::process::current_root;
use crate::task::task::TaskControlBlock;

verus! {

/// The file at descriptor `fd` of the running task, if there is one.
pub open spec fn fd_file(k: &Kernel, fd: usize) -> Option<File> {
    if fd < k.current->0.fd_table@.len() {
        k.current->0.fd_table@[fd as int]
    } else {
        None
    }
}

/// Task `t1` is task `t0` but for its descriptor table.
pub open spec fn same_task_but_fds(t0: TaskControlBlock, t1: TaskControlBlock) -> bool {
    &&& t1.pid == t0.pid
    &&& t1.task_status == t0.task_status
    &&& t1.syscall_stats@ == t0.syscall_stats@
    &&& t1.stride == t0.stride
    &&& t1.pass == t0.pass
    &&& t1.memory_set == t0.memory_set
    &&& t1.heap_bottom == t0.heap_bottom
    &&& t1.program_brk == t0.program_brk
    &&& t1.exit_code == t0.exit_code
}

/// The physical runs of the user buffer `[buf, buf + len)` of the running
/// task.
pub open spec fn user_buf(k: &Kernel, buf: usize, len: usize) -> Seq<PhysRange> {
    user_ranges(k.mem@, current_root(k), buf as int, buf + len)
}

/// The user buffer `[buf, buf + len)` of the running task lies in user
/// space and every page of it is mapped.
pub open spec fn user_buf_ok(k: &Kernel, buf: usize, len: usize) -> bool {
    &&& buf + len <= USER_SPACE_END
    &&& pages_mapped(k.mem@, current_root(k), buf as int, buf + len)
}

/// A file after `n` bytes went through it: an inode moves its offset on.
pub open spec fn file_moved(f: File, n: int) -> File {
    match f {
        File::Inode(os) => File::Inode(OSInode { offset: (os.offset + n) as usize, ..os }),
        _ => f,
    }
}

/// What writing `len` bytes to descriptor `fd` needs: a writable file has a
/// mapped user buffer, and an inode stays within the largest file size.
pub open spec fn write_needs(k: &Kernel, fd: usize, buf: usize, len: usize) -> bool {
    match fd_file(k, fd) {
        Some(f) => f.writable_spec() ==> {
            &&& user_buf_ok(k, buf, len)
            &&& match f {
                File::Inode(os) => os.offset + len <= MAX_FILE_SIZE,
                _ => true,
            }
        },
        None => true,
    }
}

/// The running task stays well formed when only its descriptor table
/// changes: at `fd`, to a file whose inode exists, and elsewhere only to
/// empty descriptors; and the memory and the file system keep what it needs.
proof fn lemma_fd_update(k0: &Kernel, k1: &Kernel, fd: usize, f: Option<File>)
    requires
        k0.wf(),
        k0.current is Some,
        k1.current is Some,
        same_task_but_fds(k0.current->0, k1.current->0),
        fd < k1.current->0.fd_table@.len(),
        k1.current->0.fd_table@[fd as int] == f,
        forall|i: int| 0 <= i < k1.current->0.fd_table@.len() && i != fd ==> {
            ||| #[trigger] k1.current->0.fd_table@[i] is None
            ||| i < k0.current->0.fd_table@.len() && k1.current->0.fd_table@[i] == k0.current->0.fd_table@[i]
        },
        k1.mem.wf(),
        forall|p: int| #[trigger] k0.mem.tables().contains_key(p) ==> k1.mem.tables().contains_key(p)
            && k1.mem.tables()[p] == k0.mem.tables()[p],
        k1.fs.wf(),
        k1.fs.start() == k0.fs.start(),
        k1.fs@.len() >= k0.fs@.len(),
        f matches Some(File::Inode(os)) ==> os.inode.wf(&k1.fs),
    ensures
        k1.current->0.wf(&k1.mem, &k1.fs),
{
    let t0 = k0.current->0;
    let t1 = k1.current->0;
    crate::kernel::lemma_task_wf_mono(&t0, &k0.mem, &k1.mem, &k0.fs, &k1.fs);
    assert forall|i: int| 0 <= i < t1.fd_table@.len() implies match #[trigger] t1.fd_table@[i] {
        Some(File::Inode(os)) => os.inode.wf(&k1.fs),
        _ => true,
    } by {
        if i != fd && t1.fd_table@[i] is Some {
            assert(t1.fd_table@[i] == t0.fd_table@[i]);
        }
    }
}

/// write buf of length `len`  to a file with `fd`: the bytes of the user
/// buffer go to the console, or to the inode at its offset, which moves on.
/// `-1` when the descriptor holds no writable file.
pub fn sys_write(k: &mut Kernel, fd: usize, buf: usize, len: usize) -> (r: isize)
    requires
        old(k).wf(),
        old(k).current is Some,
        write_needs(old(k), fd, buf, len),
    ensures
        final(k).mem == old(k).mem,
        final(k).manager == old(k).manager,
        final(k).input == old(k).input,
        final(k).root_inode == old(k).root_inode,
        final(k).current is Some,
        same_task_but_fds(old(k).current->0, final(k).current->0),
        ({
            let rs = user_buf(old(k), buf, len);
            let data = read_ranges(old(k).mem@, rs);
            if fd_file(old(k), fd) is None || !fd_file(old(k), fd)->0.writable_spec() {
                &&& r == -1
                &&& *final(k) == *old(k)
            } else {
                let f = fd_file(old(k), fd)->0;
                &&& r == len as isize
                &&& data.len() == len
                &&& final(k).current->0.fd_table@ == old(k).current->0.fd_table@.update(fd as int, Some(file_moved(f, len as int)))
                &&& match f {
                    File::Inode(os) => {
                        &&& final(k).fs@ == fs_after_write(&old(k).fs, os.inode, os.offset as int, data)
                        &&& final(k).fs.start() == old(k).fs.start()
                        &&& final(k).console@ == old(k).console@
                        &&& !os.inode.is_dir_in(&old(k).fs) ==> final(k).wf()
                    },
                    _ => {
                        &&& final(k).console@ == old(k).console@ + data
                        &&& final(k).fs == old(k).fs
                        &&& final(k).wf()
                    },
                }
            }
        }),
{
    let t = k.current.as_ref().unwrap();
    if fd >= t.fd_table.len() {
        return -1;
    }
    let writable = match &t.fd_table[fd] {
        Some(f) => f.writable(),
        None => false,
    };
    if !writable {
        return -1;
    }
    let token = t.get_user_token(&k.mem);
    proof {
        crate::mm::memory_set::lemma_frames_owned_leaves(&k.mem, current_root(k));
        lemma_mapped_ranges_ok(&k.mem, current_root(k), buf as int, buf + len);
    }
    let rs = translated_byte_buffer(&k.mem, token, buf as u64, len as u64);
    let bytes = read_user_ranges(&k.mem, &rs);
    proof {
        lemma_user_ranges_len(k.mem@, current_root(k), buf as int, buf + len);
        lemma_read_ranges_len(&k.mem, rs@);
    }
    let ghost k0 = *k;
    let t = k.current.as_mut().unwrap();
    let mut slot: Option<File> = None;
    t.fd_table.set_and_swap(fd, &mut slot);
    let mut file = slot.unwrap();
    let n = file.write(&mut k.fs, &mut k.console, bytes.as_slice());
    let ghost fv = file;
    let t = k.current.as_mut().unwrap();
    t.fd_table.set(fd, Some(file));
    proof {
        assert(k.current->0.fd_table@ =~= k0.current->0.fd_table@.update(fd as int, Some(fv)));
        let f0 = k0.current->0.fd_table@[fd as int]->0;
        match f0 {
            File::Inode(os) => {
                if !os.inode.is_dir_in(&k0.fs) {
                    k0.lemma_tasks_mono(&k.mem, &k.fs);
                    os.inode.lemma_wf_mono(&k0.fs, &k.fs);
                    lemma_fd_update(&k0, k, fd, Some(file_moved(f0, len as int)));
                }
            },
            _ => {
                assert(k.current->0.fd_table@ =~= k0.current->0.fd_table@);
                lemma_fd_update(&k0, k, fd, Some(f0));
            },
        }
    }
    #[verifier::truncate] (n as isize)
}

/// What reading `len` bytes from descriptor `fd` needs: a readable file has
/// a mapped user buffer, and the console is read one byte at a time.
pub open spec fn read_needs(k: &Kernel, fd: usize, buf: usize, len: usize) -> bool {
    match fd_file(k, fd) {
        Some(f) => f.readable_spec() ==> {
            &&& user_buf_ok(k, buf, len)
            &&& (f is Stdin ==> len == 1)
        },
        None => true,
    }
}

/// The bytes that reading at most `len` bytes from file `f` gives: those of
/// the inode from its offset on, or the next console byte if there is one.
pub open spec fn read_data(k: &Kernel, f: File, len: usize) -> Seq<u8> {
    match f {
        File::Inode(os) => read_bytes(os.inode.disk(&k.fs).2, os.offset as int, len as int),
        _ => if k.input@.len() == 0 {
            Seq::empty()
        } else {
            seq![k.input@[0]]
        },
    }
}

/// read buf of length `len` from a file with `fd`: the bytes of the inode
/// from its offset on, which moves past them, or the next console byte,
/// go to the user buffer; gives how many. `-1` when the descriptor holds no
/// readable file.
pub fn sys_read(k: &mut Kernel, fd: usize, buf: usize, len: usize) -> (r: isize)
    requires
        old(k).wf(),
        old(k).current is Some,
        read_needs(old(k), fd, buf, len),
    ensures
        final(k).wf(),
        final(k).fs == old(k).fs,
        final(k).manager == old(k).manager,
        final(k).console == old(k).console,
        final(k).root_inode == old(k).root_inode,
        final(k).current is Some,
        same_task_but_fds(old(k).current->0, final(k).current->0),
        final(k).mem.tables() == old(k).mem.tables(),
        forall|q: int| final(k).mem.allocated(q) == old(k).mem.allocated(q),
        final(k).mem.free_count() == old(k).mem.free_count(),
        ({
            let rs = user_buf(old(k), buf, len);
            if fd_file(old(k), fd) is None || !fd_file(old(k), fd)->0.readable_spec() {
                &&& r == -1
                &&& *final(k) == *old(k)
            } else {
                let f = fd_file(old(k), fd)->0;
                let data = read_data(old(k), f, len);
                &&& r == data.len() as isize
                &&& final(k).mem@ == write_ranges(old(k).mem@, rs, data)
                &&& final(k).current->0.fd_table@ == old(k).current->0.fd_table@.update(fd as int,
                    Some(file_moved(f, data.len() as int)))
                &&& final(k).input@ == if f is Inode || old(k).input@.len() == 0 {
                    old(k).input@
                } else {
                    old(k).input@.drop_first()
                }
            }
        }),
{
    let t = k.current.as_ref().unwrap();
    if fd >= t.fd_table.len() {
        return -1;
    }
    let readable = match &t.fd_table[fd] {
        Some(f) => f.readable(),
        None => false,
    };
    if !readable {
        return -1;
    }
    let token = t.get_user_token(&k.mem);
    proof {
        crate::mm::memory_set::lemma_frames_owned_leaves(&k.mem, current_root(k));
        lemma_mapped_ranges_ok(&k.mem, current_root(k), buf as int, buf + len);
    }
    let rs = translated_byte_buffer(&k.mem, token, buf as u64, len as u64);
    let ghost k0 = *k;
    let t = k.current.as_mut().unwrap();
    let mut slot: Option<File> = None;
    t.fd_table.set_and_swap(fd, &mut slot);
    let mut file = slot.unwrap();
    let data = file.read(&k.fs, &mut k.input, len);
    let ghost fv = file;
    let t = k.current.as_mut().unwrap();
    t.fd_table.set(fd, Some(file));
    let _ = write_user_ranges(&mut k.mem, &rs, data.as_slice());
    proof {
        assert(k.current->0.fd_table@ =~= k0.current->0.fd_table@.update(fd as int, Some(fv)));
        let f0 = k0.current->0.fd_table@[fd as int]->0;
        assert(data@ == read_data(&k0, f0, len));
        assert(fv == file_moved(f0, data@.len() as int));
        crate::mm::memory_set::lemma_frames_owned_data_write(&k0.mem, &k.mem);
        k0.lemma_tasks_mono(&k.mem, &k.fs);
        lemma_fd_update(&k0, k, fd, Some(fv));
    }
    #[verifier::truncate] (data.len() as isize)
}

/// The UTF-8 bytes of the name at `path` of the running task, each byte
/// of the string taken as one character.
pub open spec fn path_name(k: &Kernel, path: usize) -> Seq<u8> {
    vstd::utf8::encode_utf8(user_cstr(k.mem@, current_root(k), path as int))
}

/// What opening needs: the path is a zero-terminated string in mapped
/// pages, every flag is a known one, a file that `CREATE` makes fits, and
/// the descriptor table can grow.
pub open spec fn open_needs(k: &Kernel, path: usize, flags: u32) -> bool {
    &&& exists|n: int| cstr_ends(k.mem@, current_root(k), path as int, n)
    &&& flags & !OpenFlags::ALL == 0
    &&& open_create_ok(&k.fs, &k.root_inode, path_name(k, path), flags)
    &&& k.current->0.fd_table@.len() < isize::MAX
}

/// Whether opening `name` with flags `flags` finds or makes a file.
pub open spec fn open_finds(k: &Kernel, name: Seq<u8>, flags: u32) -> bool {
    flags & OpenFlags::CREATE == OpenFlags::CREATE || lookup(k.root_inode.entries(&k.fs), name) is Some
}

/// Opens the file of the root directory named by the string at `path` and
/// gives it the lowest free descriptor, which it returns; `-1` when there is
/// no such file and `flags` does not ask to create it.
pub fn sys_open(k: &mut Kernel, path: usize, flags: u32) -> (r: isize)
    requires
        old(k).wf(),
        old(k).current is Some,
        open_needs(old(k), path, flags),
    ensures
        final(k).wf(),
        final(k).mem == old(k).mem,
        final(k).manager == old(k).manager,
        final(k).console == old(k).console,
        final(k).input == old(k).input,
        final(k).root_inode == old(k).root_inode,
        final(k).current is Some,
        same_task_but_fds(old(k).current->0, final(k).current->0),
        ({
            let name = path_name(old(k), path);
            let fds = old(k).current->0.fd_table@;
            let fds1 = final(k).current->0.fd_table@;
            if !open_finds(old(k), name, flags) {
                &&& r == -1
                &&& final(k).fs@ == old(k).fs@
                &&& fds1 == fds
            } else {
                &&& 0 <= r <= fds.len()
                &&& forall|i: int| 0 <= i < r ==> #[trigger] fds[i] is Some
                &&& r < fds.len() ==> fds[r as int] is None
                &&& fds1 == (if r < fds.len() { fds } else { fds.push(None) }).update(r as int, fds1[r as int])
                &&& (fds1[r as int] matches Some(File::Inode(os))
                    && open_spec(&old(k).fs, &final(k).fs, &old(k).root_inode, name, flags, Some(os)))
            }
        }),
{
    let token = k.current.as_ref().unwrap().get_user_token(&k.mem);
    let path = translated_str(&k.mem, token, path as u64);
    let ghost k0 = *k;
    let fl = OpenFlags::from_bits(flags).unwrap();
    match open_file(&mut k.fs, &k.root_inode, path.as_str(), fl) {
        Some(inode) => {
            proof {
                assert(k.fs@.len() >= k0.fs@.len());
                k0.lemma_tasks_mono(&k.mem, &k.fs);
            }
            let ghost os = inode;
            let t = k.current.as_mut().unwrap();
            let fd = t.alloc_fd();
            t.fd_table.set(fd, Some(File::Inode(inode)));
            proof {
                lemma_fd_update(&k0, k, fd, Some(File::Inode(os)));
            }
            fd as isize
        },
        None => {
            proof {
                k0.lemma_tasks_mono(&k.mem, &k.fs);
            }
            -1
        },
    }
}

/// Closes descriptor `fd` of the running task: `0`, or `-1` when it holds no
/// file.
pub fn sys_close(k: &mut Kernel, fd: usize) -> (r: isize)
    requires
        old(k).wf(),
        old(k).current is Some,
    ensures
        final(k).wf(),
        final(k).mem == old(k).mem,
        final(k).fs == old(k).fs,
        final(k).manager == old(k).manager,
        final(k).console == old(k).console,
        final(k).input == old(k).input,
        final(k).root_inode == old(k).root_inode,
        final(k).current is Some,
        same_task_but_fds(old(k).current->0, final(k).current->0),
        fd_file(old(k), fd) is None ==> r == -1 && *final(k) == *old(k),
        fd_file(old(k), fd) is Some ==> r == 0 && final(k).current->0.fd_table@
            == old(k).current->0.fd_table@.update(fd as int, None),
{
    let t = k.current.as_ref().unwrap();
    if fd >= t.fd_table.len() {
        return -1;
    }
    if t.fd_table[fd].is_none() {
        return -1;
    }
    let ghost k0 = *k;
    let t = k.current.as_mut().unwrap();
    t.fd_table.set(fd, None);
    proof {
        lemma_fd_update(&k0, k, fd, None);
    }
    0
}

/// What `fstat` needs of the address `st` when descriptor `fd` holds an
/// inode: it lies in user space, its page is mapped by a valid leaf, and
/// when the `Stat` runs past the end of that page's frame, the next frame
/// lies in memory and holds no page table.
pub open spec fn fstat_needs(k: &Kernel, fd: usize, st: usize) -> bool {
    fd_file(k, fd) matches Some(File::Inode(_)) ==> {
        &&& st < USER_SPACE_END
        &&& mapped_entry(k.mem@, current_root(k), (st / 4096) as u64) is Some
        &&& stat_head((st % 4096) as int) < STAT_SIZE ==> {
            &&& user_frame(k, st) + 1 < k.mem@.len()
            &&& !k.mem.tables().contains_key(user_frame(k, st) + 1)
        }
    }
}

/// The frame that the page of address `st` of the running task maps to.
pub open spec fn user_frame(k: &Kernel, st: usize) -> int {
    ppn_of(translate_spec(k.mem@, current_root(k), (st / 4096) as u64)->0) as int
}

/// How many bytes of a `Stat` at offset `off` of a frame fit in the frame.
pub open spec fn stat_head(off: int) -> int {
    if off + STAT_SIZE <= 4096 {
        STAT_SIZE as int
    } else {
        4096 - off
    }
}

/// Memory after `data` is written at offset `off` of frame `p`, going on
/// into frame `p + 1` at the end of the frame, as contiguous physical memory.
pub open spec fn write_phys(mem: Seq<Seq<u8>>, p: int, off: int, data: Seq<u8>) -> Seq<Seq<u8>> {
    let n = if off + data.len() <= 4096 { data.len() as int } else { 4096 - off };
    let m1 = mem.update(p, splice(mem[p], off, data.take(n)));
    if n < data.len() {
        m1.update(p + 1, splice(m1[p + 1], 0, data.skip(n)))
    } else {
        m1
    }
}

/// Writes the status of the inode at descriptor `fd` into the `Stat` at
/// `st`, in the physical memory that its page maps to and on into the next
/// frame when it does not fit: `0`; `-1` when the descriptor holds no inode.
pub fn sys_fstat(k: &mut Kernel, fd: usize, st: usize) -> (r: isize)
    requires
        old(k).wf(),
        old(k).current is Some,
        fstat_needs(old(k), fd, st),
    ensures
        final(k).wf(),
        final(k).fs == old(k).fs,
        final(k).manager == old(k).manager,
        final(k).console == old(k).console,
        final(k).input == old(k).input,
        final(k).root_inode == old(k).root_inode,
        final(k).current == old(k).current,
        final(k).mem.tables() == old(k).mem.tables(),
        forall|q: int| final(k).mem.allocated(q) == old(k).mem.allocated(q),
        final(k).mem.free_count() == old(k).mem.free_count(),
        ({
            let p = user_frame(old(k), st);
            let off = (st % 4096) as int;
            match fd_file(old(k), fd) {
                Some(File::Inode(os)) => {
                    &&& r == 0
                    &&& final(k).mem@ == write_phys(old(k).mem@, p, off, stat_bytes(stat_of(os.inode, &old(k).fs)))
                },
                _ => r == -1 && *final(k) == *old(k),
            }
        }),
{
    let t = k.current.as_ref().unwrap();
    if fd >= t.fd_table.len() {
        return -1;
    }
    let stat = match &t.fd_table[fd] {
        Some(File::Inode(os)) => os.get_stat(&k.fs),
        _ => {
            return -1;
        },
    };
    let token = t.get_user_token(&k.mem);
    let page_table = PageTable::from_token(token);
    let va = VirtAddr::from_u64(st as u64);
    proof {
        let x = st as u64;
        assert(x < 0x80_0000_0000u64 ==> x & 0x7f_ffff_ffffu64 == x) by (bit_vector);
    }
    let pte = page_table.translate(&k.mem, va.floor()).unwrap();
    let ppn = pte.ppn().0;
    let off = va.page_offset() as usize;
    let head = if off + STAT_SIZE <= 4096 { STAT_SIZE } else { 4096 - off };
    proof {
        let root = current_root(k);
        let vpn = (st / 4096) as u64;
        k.mem.lemma_wf();
        crate::mm::memory_set::lemma_frames_owned_leaves(&k.mem, root);
        assert(mapping(k.mem@, root).contains_key(vpn));
        assert(crate::mm::memory_set::leaf_frame(k.mem@, root, vpn) == ppn);
    }
    let bytes = stat.to_bytes();
    let ghost k0 = *k;
    write_bytes(&mut k.mem, ppn, off, bytes.as_slice(), 0, head);
    let ghost m1 = k.mem@;
    if head < STAT_SIZE {
        write_bytes(&mut k.mem, ppn + 1, 0, bytes.as_slice(), head, STAT_SIZE - head);
    }
    proof {
        let data = bytes@;
        assert(data.take(head as int) =~= data.subrange(0, head as int));
        assert(data.skip(head as int) =~= data.subrange(head as int, STAT_SIZE as int));
        assert(m1 == k0.mem@.update(ppn as int, splice(k0.mem@[ppn as int], off as int, data.take(head as int))));
        assert(k.mem@ =~= write_phys(k0.mem@, ppn as int, off as int, data));
        crate::mm::memory_set::lemma_frames_owned_data_write(&k0.mem, &k.mem);
        k0.lemma_tasks_mono(&k.mem, &k.fs);
    }
    0
}

/// The name at `path` of the running task, as characters.
pub open spec fn path_chars(k: &Kernel, path: usize) -> Seq<char> {
    user_cstr(k.mem@, current_root(k), path as int)
}

/// There is a zero-terminated string at `path` of the running task.
pub open spec fn path_ok(k: &Kernel, path: usize) -> bool {
    exists|n: int| cstr_ends(k.mem@, current_root(k), path as int, n)
}

/// Whether linking `new_name` to the file named `old_name` succeeds: the
/// names differ, the old one names a file of the root directory, and the
/// new one names nothing.
pub open spec fn link_ok(k: &Kernel, old_name: usize, new_name: usize) -> bool {
    let entries = k.root_inode.entries(&k.fs);
    let on = path_name(k, old_name);
    let nn = path_name(k, new_name);
    &&& path_chars(k, old_name) != path_chars(k, new_name)
    &&& lookup(entries, on) is Some
    &&& k.fs@[lookup(entries, on)->0 as int].0 != DiskInodeType::Directory
    &&& lookup(entries, nn) is None
}

/// The inodes after entry `name` for inode `id` is added to the root
/// directory of `k` and the link count of `id` grows.
pub open spec fn linked(k: &Kernel, name: Seq<u8>, id: int) -> Seq<(DiskInodeType, u32, Seq<u8>)> {
    link_spec(k.fs@, k.root_inode.id(&k.fs), name, id)
}

/// What linking needs: both names are strings in mapped pages, and a link
/// that can be made has a short name, room in the root directory and a
/// link count that can grow.
pub open spec fn linkat_needs(k: &Kernel, old_name: usize, new_name: usize) -> bool {
    &&& path_ok(k, old_name)
    &&& path_ok(k, new_name)
    &&& link_ok(k, old_name, new_name) ==> {
        &&& path_name(k, new_name).len() <= NAME_LENGTH_LIMIT
        &&& entry_count(k.root_inode.disk(&k.fs).2) * 32 + 32 <= MAX_FILE_SIZE
        &&& k.fs@[lookup(k.root_inode.entries(&k.fs), path_name(k, old_name))->0 as int].1 < u32::MAX
    }
}

/// Makes `new_name` a second name, in the root directory, of the file named
/// `old_name`: `0`, or `-1` when the names are the same, the old one names
/// no file, or the new one is taken.
pub fn sys_linkat(k: &mut Kernel, old_name: usize, new_name: usize) -> (r: isize)
    requires
        old(k).wf(),
        old(k).current is Some,
        linkat_needs(old(k), old_name, new_name),
    ensures
        final(k).wf(),
        final(k).mem == old(k).mem,
        final(k).manager == old(k).manager,
        final(k).console == old(k).console,
        final(k).input == old(k).input,
        final(k).root_inode == old(k).root_inode,
        final(k).current == old(k).current,
        final(k).fs.start() == old(k).fs.start(),
        r == if link_ok(old(k), old_name, new_name) { 0isize } else { -1isize },
        !link_ok(old(k), old_name, new_name) ==> final(k).fs@ == old(k).fs@,
        link_ok(old(k), old_name, new_name) ==> final(k).fs@ == linked(old(k), path_name(old(k), new_name),
            lookup(old(k).root_inode.entries(&old(k).fs), path_name(old(k), old_name))->0 as int),
{
    let token = k.current.as_ref().unwrap().get_user_token(&k.mem);
    let old_path = translated_str(&k.mem, token, old_name as u64);
    let new_path = translated_str(&k.mem, token, new_name as u64);
    if old_path == new_path {
        return -1;
    }
    let old_inode = match k.root_inode.find(&k.fs, old_path.as_str()) {
        Some(inode) => inode,
        None => {
            return -1;
        },
    };
    if k.root_inode.find(&k.fs, new_path.as_str()).is_some() {
        return -1;
    }
    let ghost k0 = *k;
    let res = k.root_inode.create_hardlink(&mut k.fs, new_path.as_str(), &old_inode);
    proof {
        k0.lemma_tasks_mono(&k.mem, &k.fs);
        if res is Some {
            assert(old_inode.id(&k0.fs) != k0.root_inode.id(&k0.fs));
        }
    }
    match res {
        Some(_) => 0,
        None => -1,
    }
}

/// What unlinking needs: the name is a string in mapped pages, and a file
/// it names has a link to drop.
pub open spec fn unlinkat_needs(k: &Kernel, name: usize) -> bool {
    &&& path_ok(k, name)
    &&& unlink_nlink_ok(&k.fs, k.root_inode.entries(&k.fs), path_name(k, name))
}

/// Whether unlinking `name` succeeds: it names a file of the root directory.
pub open spec fn unlink_ok(k: &Kernel, name: usize) -> bool {
    &&& path_chars(k, name).len() > 0
    &&& match lookup(k.root_inode.entries(&k.fs), path_name(k, name)) {
        Some(t) => k.fs@[t as int].0 != DiskInodeType::Directory,
        None => false,
    }
}

/// Removes `name` from the root directory: the file loses a link, and its
/// bytes with its last one; `0`, or `-1` when the name is empty or names no
/// file.
pub fn sys_unlinkat(k: &mut Kernel, name: usize) -> (r: isize)
    requires
        old(k).wf(),
        old(k).current is Some,
        unlinkat_needs(old(k), name),
    ensures
        final(k).wf(),
        final(k).mem == old(k).mem,
        final(k).manager == old(k).manager,
        final(k).console == old(k).console,
        final(k).input == old(k).input,
        final(k).root_inode == old(k).root_inode,
        final(k).current == old(k).current,
        final(k).fs.start() == old(k).fs.start(),
        r == if unlink_ok(old(k), name) { 0isize } else { -1isize },
        !unlink_ok(old(k), name) ==> final(k).fs@ == old(k).fs@,
        unlink_ok(old(k), name) ==> final(k).fs@ == unlink_spec(old(k).fs@, old(k).root_inode.id(&old(k).fs),
            old(k).root_inode.entries(&old(k).fs), path_name(old(k), name)),
{
    let token = k.current.as_ref().unwrap().get_user_token(&k.mem);
    let path = translated_str(&k.mem, token, name as u64);
    if path.as_str().is_empty() {
        return -1;
    }
    let ghost k0 = *k;
    let r = k.root_inode.unlink(&mut k.fs, path.as_str());
    proof {
        let entries = k0.root_inode.entries(&k0.fs);
        let nm = path_name(&k0, name);
        crate::fs::layout::lemma_lookup(entries, nm);
        if r == 0 {
            let j = crate::fs::layout::lookup_index(entries, nm)->0;
            assert(k0.fs@[k0.root_inode.id(&k0.fs)].0 == DiskInodeType::Directory);
            assert(entries[j].1 < k0.fs@.len());
        }
        assert(k.fs@.len() == k0.fs@.len());
        k0.lemma_tasks_mono(&k.mem, &k.fs);
    }
    r
}

/// The UTF-8 bytes of a character other than the zero one hold no zero byte.
proof fn lemma_scalar_no_zero(c: u32)
    requires
        0 < c <= 0x10FFFF,
    ensures
        no_zero(vstd::utf8::encode_scalar(c)),
{
    assert(c <= 0x7F ==> ((c & 0x7F) as u8) != 0) by (bit_vector)
        requires 0 < c;
    assert((0xC0u8 | ((c >> 6) & 0x1F) as u8) != 0) by (bit_vector);
    assert((0xE0u8 | ((c >> 12) & 0x0F) as u8) != 0) by (bit_vector);
    assert((0xF0u8 | ((c >> 18) & 0x7) as u8) != 0) by (bit_vector);
    assert((0x80u8 | (c & 0x3F) as u8) != 0) by (bit_vector);
    assert((0x80u8 | ((c >> 6) & 0x3F) as u8) != 0) by (bit_vector);
    assert((0x80u8 | ((c >> 12) & 0x3F) as u8) != 0) by (bit_vector);
}

/// The UTF-8 bytes of characters none of which is the zero one hold no zero
/// byte.
proof fn lemma_encode_no_zero(cs: Seq<char>)
    requires
        forall|i: int| 0 <= i < cs.len() ==> #[trigger] (cs[i] as u32) != 0,
    ensures
        no_zero(vstd::utf8::encode_utf8(cs)),
    decreases cs.len(),
{
    if cs.len() > 0 {
        let c = cs[0] as u32;
        assert(cs[0] as u32 != 0);
        vstd::utf8::char_is_scalar(cs[0]);
        lemma_scalar_no_zero(c);
        let rest = cs.drop_first();
        assert forall|i: int| 0 <= i < rest.len() implies #[trigger] (rest[i] as u32) != 0 by {
            assert(rest[i] == cs[i + 1]);
        }
        lemma_encode_no_zero(rest);
        let a = vstd::utf8::encode_scalar(c);
        let b = vstd::utf8::encode_utf8(rest);
        assert forall|j: int| 0 <= j < (a + b).len() implies #[trigger] (a + b)[j] != 0 by {
            if j < a.len() {
                assert((a + b)[j] == a[j]);
            } else {
                assert((a + b)[j] == b[j - a.len()]);
            }
        }
    }
}

/// The name at a string of the running task holds no zero byte: the string
/// ends at its first one.
pub proof fn lemma_path_name_no_zero(k: &Kernel, path: usize)
    requires
        path_ok(k, path),
    ensures
        no_zero(path_name(k, path)),
{
    let root = current_root(k);
    let n = choose|n: int| cstr_ends(k.mem@, root, path as int, n);
    let cs = user_cstr(k.mem@, root, path as int);
    assert forall|i: int| 0 <= i < cs.len() implies #[trigger] (cs[i] as u32) != 0 by {
        assert(crate::mm::user::nonzero_at(k.mem@, root, path as int, i));
        let b = user_byte(k.mem@, root, path + i)->0;
        assert(cs[i] == b as char);
        assert(b != 0);
    }
    lemma_encode_no_zero(cs);
}

/// Linking a new, non-empty name to a file of the root directory with
/// `linkat` and unlinking that name again with `unlinkat` undoes the link:
/// `unlinkat` succeeds, the root directory lists the entries it listed, the
/// file keeps its link count and its bytes, and every other inode is as it
/// was; the root directory keeps its bytes up to its last whole entry, all
/// of them when it held whole entries only. The file needs a link.
pub proof fn lemma_unlinkat_undoes_linkat(k0: &Kernel, k1: &Kernel, old_name: usize, new_name: usize)
    requires
        k0.wf(),
        k0.current is Some,
        linkat_needs(k0, old_name, new_name),
        link_ok(k0, old_name, new_name),
        path_chars(k0, new_name).len() > 0,
        k0.fs@[lookup(k0.root_inode.entries(&k0.fs), path_name(k0, old_name))->0 as int].1 > 0,
        k1.mem == k0.mem,
        k1.current == k0.current,
        k1.root_inode == k0.root_inode,
        k1.fs.start() == k0.fs.start(),
        k1.fs@ == linked(k0, path_name(k0, new_name), lookup(k0.root_inode.entries(&k0.fs), path_name(k0, old_name))->0 as int),
    ensures
        unlink_ok(k1, new_name),
        ({
            let dir = k0.root_inode.id(&k0.fs);
            let data = k0.root_inode.disk(&k0.fs).2;
            let r = unlink_spec(k1.fs@, k1.root_inode.id(&k1.fs), k1.root_inode.entries(&k1.fs), path_name(k1, new_name));
            &&& r == k0.fs@.update(dir, (DiskInodeType::Directory, k0.fs@[dir].1, data.take(entry_count(data) * 32)))
            &&& dir_entries(r[dir].2) == k0.root_inode.entries(&k0.fs)
            &&& data.len() % 32 == 0 ==> r == k0.fs@
        }),
{
    let entries = k0.root_inode.entries(&k0.fs);
    let on = path_name(k0, old_name);
    let nn = path_name(k0, new_name);
    let dir = k0.root_inode.id(&k0.fs);
    crate::fs::layout::lemma_lookup(entries, on);
    let j = crate::fs::layout::lookup_index(entries, on)->0;
    let id = lookup(entries, on)->0;
    assert(entries[j].1 < k0.fs@.len());
    assert(dir != id);
    lemma_path_name_no_zero(k0, new_name);
    crate::fs::vfs::lemma_unlink_undoes_link(k0.fs@, dir, nn, id as int);
    assert(k1.root_inode.id(&k1.fs) == dir);
}

} // verus!
