//! Files that a task holds open: the console and easy-fs inodes.
use vstd::prelude::*;
use std::collections::VecDeque;
use crate::fs::layout::{lookup, read_bytes, read_len, splice_bytes, DiskInodeType, EasyFileSystem, MAX_FILE_SIZE, MAX_INODES, NAME_LENGTH_LIMIT};
use crate::fs::vfs::{dir_with_entry, grown, name_bytes, Inode};
use crate::fs::layout::entry_count;

verus! {

/// Open flags of `open`.
#[derive(Clone, Copy, PartialEq, Eq, Structural, Debug)]
pub struct OpenFlags {
    pub bits: u32,
}

impl OpenFlags {
    /// Read only
    pub const RDONLY: u32 = 0u32;
    /// Write only
    pub const WRONLY: u32 = 1u32;
    /// Read and write
    pub const RDWR: u32 = 2u32;
    /// Create the file when it does not exist
    pub const CREATE: u32 = 512u32;
    /// Empty the file
    pub const TRUNC: u32 = 1024u32;
    /// Every known flag.
    pub const ALL: u32 = 1539u32;

    /// The flags with the given bits, or `None` when an unknown bit is set.
    pub fn from_bits(bits: u32) -> (r: Option<OpenFlags>)
        ensures
            r is Some <==> bits & !Self::ALL == 0,
            r is Some ==> r->0.bits == bits,
    {
        if bits & !Self::ALL == 0 {
            Some(OpenFlags { bits })
        } else {
            None
        }
    }

    /// Whether every bit of `flag` is set.
    pub fn contains(&self, flag: u32) -> (r: bool)
        ensures
            r == (self.bits & flag == flag),
    {
        self.bits & flag == flag
    }

    /// Whether the file is opened for reading and for writing.
    pub fn read_write(&self) -> (r: (bool, bool))
        ensures
            r == read_write_spec(self.bits),
    {
        if self.bits == 0 {
            (true, false)
        } else if self.bits & Self::WRONLY == Self::WRONLY {
            (false, true)
        } else {
            (true, true)
        }
    }
}

/// Whether flags open a file for reading and for writing.
pub open spec fn read_write_spec(bits: u32) -> (bool, bool) {
    if bits == 0 {
        (true, false)
    } else if bits & 1u32 == 1u32 {
        (false, true)
    } else {
        (true, true)
    }
}

/// An easy-fs inode opened by a task, with its offset.
pub struct OSInode {
    pub readable: bool,
    pub writable: bool,
    pub offset: usize,
    pub inode: Inode,
}

impl OSInode {
    /// An inode opened at offset 0.
    pub fn new(readable: bool, writable: bool, inode: Inode) -> (r: OSInode)
        ensures
            r.readable == readable,
            r.writable == writable,
            r.offset == 0,
            r.inode == inode,
    {
        OSInode { readable, writable, offset: 0, inode }
    }
}

/// A file a task holds open.
pub enum File {
    /// The console input
    Stdin,
    /// The console output
    Stdout,
    /// A file of easy-fs
    Inode(OSInode),
}

impl File {
    /// Whether the file can be read.
    pub open spec fn readable_spec(&self) -> bool {
        match self {
            File::Stdin => true,
            File::Stdout => false,
            File::Inode(os) => os.readable,
        }
    }

    /// Whether the file can be written.
    pub open spec fn writable_spec(&self) -> bool {
        match self {
            File::Stdin => false,
            File::Stdout => true,
            File::Inode(os) => os.writable,
        }
    }

    /// Whether the file can be read.
    pub fn readable(&self) -> (r: bool)
        ensures
            r == self.readable_spec(),
    {
        match self {
            File::Stdin => true,
            File::Stdout => false,
            File::Inode(os) => os.readable,
        }
    }

    /// Whether the file can be written.
    pub fn writable(&self) -> (r: bool)
        ensures
            r == self.writable_spec(),
    {
        match self {
            File::Stdin => false,
            File::Stdout => true,
            File::Inode(os) => os.writable,
        }
    }
}

/// The file system after `buf` is written at `offset` of inode `inode`.
pub open spec fn fs_after_write(fs: &EasyFileSystem, inode: Inode, offset: int, buf: Seq<u8>) -> Seq<(DiskInodeType, u32, Seq<u8>)> {
    fs@.update(inode.id(fs), (inode.disk(fs).0, inode.disk(fs).1,
        splice_bytes(grown(inode.disk(fs).2, offset + buf.len()), offset, buf)))
}

impl File {
    /// What writing to the file needs: it is writable, and an inode stays
    /// within the largest file size.
    pub open spec fn write_ok(&self, fs: &EasyFileSystem, n: int) -> bool {
        &&& self.writable_spec()
        &&& match self {
            File::Inode(os) => os.inode.wf(fs) && os.offset + n <= MAX_FILE_SIZE,
            _ => true,
        }
    }

    /// Writes `buf`: to the console, or to the inode at its offset, which
    /// moves on; gives how many bytes, all of them.
    pub fn write(&mut self, fs: &mut EasyFileSystem, console: &mut Vec<u8>, buf: &[u8]) -> (r: usize)
        requires
            old(self).write_ok(old(fs), buf@.len() as int),
        ensures
            r == buf@.len(),
            final(fs).start() == old(fs).start(),
            match *old(self) {
                File::Inode(os) => {
                    &&& *final(self) matches File::Inode(os2) && os2.offset == os.offset + buf@.len()
                        && os2.inode == os.inode && os2.readable == os.readable && os2.writable == os.writable
                    &&& final(fs)@ == fs_after_write(old(fs), os.inode, os.offset as int, buf@)
                    &&& final(console)@ == old(console)@
                    &&& !os.inode.is_dir_in(old(fs)) ==> final(fs).wf()
                },
                _ => {
                    &&& *final(self) == *old(self)
                    &&& final(fs)@ == old(fs)@
                    &&& *final(fs) == *old(fs)
                    &&& final(console)@ == old(console)@ + buf@
                },
            },
    {
        match self {
            File::Inode(os) => {
                let n = os.inode.write_at(fs, os.offset, buf);
                os.offset = os.offset + n;
                n
            },
            _ => {
                let mut k: usize = 0;
                while k < buf.len()
                    invariant
                        k <= buf@.len(),
                        console@ == old(console)@ + buf@.take(k as int),
                    decreases buf@.len() - k,
                {
                    console.push(buf[k]);
                    proof { assert(console@ =~= old(console)@ + buf@.take(k + 1)); }
                    k = k + 1;
                }
                proof { assert(buf@.take(k as int) =~= buf@); }
                buf.len()
            },
        }
    }

    /// What reading the file needs: it is readable, the console is read one
    /// byte at a time, and an inode exists.
    pub open spec fn read_ok(&self, fs: &EasyFileSystem, n: int) -> bool {
        &&& self.readable_spec()
        &&& match self {
            File::Inode(os) => os.inode.wf(fs),
            File::Stdin => n == 1,
            _ => true,
        }
    }

    /// The bytes that reading `len` bytes gives: the next console byte when
    /// one is waiting, or the bytes of the inode from its offset on, which
    /// moves past them.
    pub fn read(&mut self, fs: &EasyFileSystem, input: &mut VecDeque<u8>, len: usize) -> (r: Vec<u8>)
        requires
            old(self).read_ok(fs, len as int),
        ensures
            match *old(self) {
                File::Inode(os) => {
                    let n = read_len(os.inode.disk(fs).2.len() as int, os.offset as int, len as int);
                    &&& r@ == read_bytes(os.inode.disk(fs).2, os.offset as int, len as int)
                    &&& *final(self) matches File::Inode(os2) && os2.offset == os.offset + n
                        && os2.inode == os.inode && os2.readable == os.readable && os2.writable == os.writable
                    &&& final(input)@ == old(input)@
                },
                _ => {
                    &&& *final(self) == *old(self)
                    &&& old(input)@.len() == 0 ==> r@.len() == 0 && final(input)@ == old(input)@
                    &&& old(input)@.len() > 0 ==> r@ == seq![old(input)@[0]] && final(input)@ == old(input)@.drop_first()
                },
            },
    {
        match self {
            File::Inode(os) => {
                let size = os.inode.get_size(fs) as usize;
                let n = if os.offset >= size { 0 } else if len < size - os.offset { len } else { size - os.offset };
                let mut buf: Vec<u8> = Vec::new();
                let mut k: usize = 0;
                while k < n
                    invariant
                        k <= n,
                        buf@.len() == k,
                    decreases n - k,
                {
                    buf.push(0u8);
                    k = k + 1;
                }
                let off = os.offset;
                let got = os.inode.read_at(fs, off, buf.as_mut_slice());
                proof {
                    assert(got == n);
                    assert(buf@ =~= read_bytes(os.inode.disk(fs).2, off as int, len as int));
                }
                os.offset = off + got;
                buf
            },
            _ => {
                let mut v: Vec<u8> = Vec::new();
                match input.pop_front() {
                    Some(c) => {
                        v.push(c);
                        proof { assert(input@ =~= old(input)@.drop_first()); }
                    },
                    None => {},
                }
                v
            },
        }
    }
}

/// The mode of a directory in `Stat`.
pub const S_IFDIR: u32 = 0o040000u32;
/// The mode of a regular file in `Stat`.
pub const S_IFREG: u32 = 0o100000u32;

/// The status of a file as `fstat` gives it.
#[derive(Clone, Copy, PartialEq, Eq, Structural, Debug)]
pub struct Stat {
    /// ID of device containing file
    pub dev: u64,
    /// inode number
    pub ino: u64,
    /// file type and mode
    pub mode: u32,
    /// number of hard links
    pub nlink: u32,
}

/// Size of a `Stat` in user memory: the fields and seven words of padding.
pub const STAT_SIZE: usize = 80;

/// The little-endian bytes of a `Stat`, padding zeroed.
pub open spec fn stat_bytes(st: Stat) -> Seq<u8> {
    le_bytes(st.dev as u128, 8) + le_bytes(st.ino as u128, 8) + le_bytes(st.mode as u128, 4)
        + le_bytes(st.nlink as u128, 4) + Seq::new(56, |j: int| 0u8)
}

/// The `n` little-endian bytes of `v`.
pub open spec fn le_bytes(v: u128, n: nat) -> Seq<u8>
    decreases n,
{
    if n == 0 {
        Seq::empty()
    } else {
        seq![(v % 256) as u8] + le_bytes(v / 256, (n - 1) as nat)
    }
}

/// There are `n` of them.
pub proof fn lemma_le_bytes_len(v: u128, n: nat)
    ensures
        le_bytes(v, n).len() == n,
    decreases n,
{
    if n > 0 {
        lemma_le_bytes_len(v / 256, (n - 1) as nat);
    }
}

/// Appends the `n` little-endian bytes of `v`.
pub fn push_le_bytes(out: &mut Vec<u8>, v: u64, n: usize)
    requires
        n <= 8,
    ensures
        final(out)@ == old(out)@ + le_bytes(v as u128, n as nat),
{
    let mut k: usize = 0;
    let mut x: u64 = v;
    while k < n
        invariant
            k <= n <= 8,
            old(out)@ + le_bytes(v as u128, n as nat) == out@ + le_bytes(x as u128, (n - k) as nat),
        decreases n - k,
    {
        proof {
            assert(le_bytes(x as u128, (n - k) as nat) =~= seq![(x % 256) as u8] + le_bytes((x / 256) as u128, (n - k - 1) as nat));
        }
        out.push((x % 256) as u8);
        x = x / 256;
        k = k + 1;
        proof {
            assert(out@ + le_bytes(x as u128, (n - k) as nat) =~= old(out)@ + le_bytes(v as u128, n as nat));
        }
    }
    proof { assert(le_bytes(x as u128, 0) =~= Seq::<u8>::empty()); }
}

impl Stat {
    /// The bytes of the status in user memory.
    pub fn to_bytes(&self) -> (r: Vec<u8>)
        ensures
            r@ == stat_bytes(*self),
            r@.len() == STAT_SIZE,
    {
        let mut v: Vec<u8> = Vec::new();
        push_le_bytes(&mut v, self.dev, 8);
        push_le_bytes(&mut v, self.ino, 8);
        push_le_bytes(&mut v, self.mode as u64, 4);
        push_le_bytes(&mut v, self.nlink as u64, 4);
        let mut k: usize = 0;
        let ghost head = v@;
        while k < 56
            invariant
                k <= 56,
                v@ == head + Seq::new(k as nat, |j: int| 0u8),
            decreases 56 - k,
        {
            v.push(0u8);
            k = k + 1;
            proof { assert(v@ =~= head + Seq::new(k as nat, |j: int| 0u8)); }
        }
        proof {
            assert(v@ =~= stat_bytes(*self));
            lemma_le_bytes_len(self.dev as u128, 8);
            lemma_le_bytes_len(self.ino as u128, 8);
            lemma_le_bytes_len(self.mode as u128, 4);
            lemma_le_bytes_len(self.nlink as u128, 4);
        }
        v
    }
}

/// The status of inode `inode` of `fs`: its number, its kind and its links.
pub open spec fn stat_of(inode: Inode, fs: &EasyFileSystem) -> Stat {
    Stat {
        dev: 0,
        ino: inode.id(fs) as u64,
        mode: if inode.is_dir_in(fs) { S_IFDIR } else { S_IFREG },
        nlink: inode.disk(fs).1,
    }
}

impl OSInode {
    /// The status of the opened inode.
    pub fn get_stat(&self, fs: &EasyFileSystem) -> (r: Stat)
        requires
            self.inode.wf(fs),
        ensures
            r == stat_of(self.inode, fs),
    {
        let ino = self.inode.get_inode_id(fs) as u64;
        let mode = if self.inode.is_dir(fs) { S_IFDIR } else { S_IFREG };
        Stat { dev: 0, ino, mode, nlink: self.inode.get_nlink(fs) }
    }
}

/// What `open_file` needs to create a missing file of name `name`: a short
/// name and room for one more inode and one more entry.
pub open spec fn open_create_ok(fs: &EasyFileSystem, root: &Inode, name: Seq<u8>, bits: u32) -> bool {
    bits & OpenFlags::CREATE == OpenFlags::CREATE && lookup(root.entries(fs), name) is None ==> {
        &&& name.len() <= NAME_LENGTH_LIMIT
        &&& fs@.len() < MAX_INODES
        &&& entry_count(root.disk(fs).2) * 32 + 32 <= MAX_FILE_SIZE
    }
}

/// What opening `name` of the root directory `root` with flags `bits` gives
/// and does to the file system, from `fs0` to `fs1`: the inode found, emptied
/// with `CREATE` or `TRUNC`; or, with `CREATE`, a new empty file with an
/// entry at the end of the root directory; or nothing.
pub open spec fn open_spec(fs0: &EasyFileSystem, fs1: &EasyFileSystem, root: &Inode, name: Seq<u8>, bits: u32, r: Option<OSInode>) -> bool {
    match r {
        Some(os) => {
            &&& os.inode.wf(fs1)
            &&& os.offset == 0
            &&& (os.readable, os.writable) == read_write_spec(bits)
            &&& match lookup(root.entries(fs0), name) {
                Some(id) => {
                    &&& os.inode.id(fs1) == id
                    &&& fs1@ == if bits & OpenFlags::CREATE == OpenFlags::CREATE
                        || bits & OpenFlags::TRUNC == OpenFlags::TRUNC {
                        fs0@.update(id as int, (fs0@[id as int].0, fs0@[id as int].1, Seq::<u8>::empty()))
                    } else {
                        fs0@
                    }
                },
                None => {
                    &&& bits & OpenFlags::CREATE == OpenFlags::CREATE
                    &&& os.inode.id(fs1) == fs0@.len()
                    &&& fs1@ == fs0@.push((DiskInodeType::File, 1u32, Seq::<u8>::empty())).update(
                        root.id(fs0),
                        (DiskInodeType::Directory, root.disk(fs0).1,
                            dir_with_entry(root.disk(fs0).2, name, fs0@.len() as u32)),
                    )
                },
            }
        },
        None => {
            &&& bits & OpenFlags::CREATE != OpenFlags::CREATE
            &&& lookup(root.entries(fs0), name) is None
            &&& fs1@ == fs0@
        },
    }
}

/// Open a file of the root directory: found or, with `CREATE`, made;
/// emptied with `CREATE` when found, or with `TRUNC`.
pub fn open_file(fs: &mut EasyFileSystem, root: &Inode, name: &str, flags: OpenFlags) -> (r: Option<OSInode>)
    requires
        root.wf(old(fs)),
        root.is_dir_in(old(fs)),
        open_create_ok(old(fs), root, name_bytes(name), flags.bits),
    ensures
        final(fs).wf(),
        final(fs).start() == old(fs).start(),
        root.wf(final(fs)),
        root.is_dir_in(final(fs)),
        root.disk(final(fs)).1 == root.disk(old(fs)).1,
        open_spec(old(fs), final(fs), root, name_bytes(name), flags.bits, r),
{
    let (readable, writable) = flags.read_write();
    if flags.contains(OpenFlags::CREATE) {
        if let Some(inode) = root.find(fs, name) {
            inode.clear(fs);
            Some(OSInode::new(readable, writable, inode))
        } else {
            match root.create(fs, name) {
                Some(inode) => Some(OSInode::new(readable, writable, inode)),
                None => None,
            }
        }
    } else {
        match root.find(fs, name) {
            Some(inode) => {
                if flags.contains(OpenFlags::TRUNC) {
                    inode.clear(fs);
                }
                Some(OSInode::new(readable, writable, inode))
            },
            None => None,
        }
    }
}

/// Reading from where a write to an inode began, as many bytes as were
/// written, gives back the bytes written.
pub proof fn lemma_read_after_write(fs: &EasyFileSystem, inode: Inode, offset: int, buf: Seq<u8>)
    requires
        inode.wf(fs),
        0 <= offset,
    ensures
        read_bytes(fs_after_write(fs, inode, offset, buf)[inode.id(fs)].2, offset, buf.len() as int) == buf,
{
    let data = splice_bytes(grown(inode.disk(fs).2, offset + buf.len()), offset, buf);
    assert(fs_after_write(fs, inode, offset, buf)[inode.id(fs)].2 == data);
    assert(data.len() >= offset + buf.len());
    assert(read_bytes(data, offset, buf.len() as int) =~= buf);
}

} // verus!
