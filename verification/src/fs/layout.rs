//! The on-disk structures of easy-fs: disk inodes, directory entries, and the
//! file system that holds the inodes.
use vstd::prelude::*;
use vstd::utf8::{valid_utf8, decode_utf8, is_char_boundary, is_continuation_byte, is_char_boundary_iff_not_is_continuation_byte, valid_utf8_split};

verus! {

/// Size of a directory entry in bytes.
pub const DIRENT_SZ: usize = 32;
/// Longest name a directory entry holds, in bytes.
pub const NAME_LENGTH_LIMIT: usize = 27;
/// Size of a block in bytes.
pub const BLOCK_SZ: usize = 512;
/// Size of a disk inode in bytes.
pub const DISK_INODE_SZ: usize = 128;
/// Number of disk inodes in a block.
pub const INODES_PER_BLOCK: usize = 4;
/// Most inodes a file system holds.
pub const MAX_INODES: usize = 0x100_0000;
/// Largest size of a file in bytes.
pub const MAX_FILE_SIZE: usize = 0x7fff_ffff;

/// The type of a disk inode.
#[derive(Clone, Copy, PartialEq, Eq, Structural, Debug)]
pub enum DiskInodeType {
    File,
    Directory,
}

/// A disk inode: its type, its hard-link count and its bytes.
pub struct DiskInode {
    pub type_: DiskInodeType,
    pub nlink: u32,
    pub data: Vec<u8>,
}

/// Position of the first zero byte among the first 28 bytes of an entry, or
/// 28 when there is none.
pub open spec fn name_len(e: Seq<u8>) -> int
    decreases 28 - 0int,
{
    first_zero_from(e, 0)
}

/// Position of the first zero byte of `e` in `[k, 28)`, or 28.
pub open spec fn first_zero_from(e: Seq<u8>, k: int) -> int
    decreases 28 - k,
{
    if k >= 28 || k < 0 {
        28
    } else if e[k] == 0 {
        k
    } else {
        first_zero_from(e, k + 1)
    }
}

/// The little-endian `u32` in bytes `k .. k + 4`.
pub open spec fn le_u32(e: Seq<u8>, k: int) -> u32 {
    (e[k] as u32) | ((e[k + 1] as u32) << 8u32) | ((e[k + 2] as u32) << 16u32) | ((e[k + 3] as u32)
        << 24u32)
}

/// Entry `k` of a directory.
pub open spec fn entry_bytes(data: Seq<u8>, k: int) -> Seq<u8> {
    data.subrange(k * 32, k * 32 + 32)
}

/// The name stored in an entry.
pub open spec fn entry_name(e: Seq<u8>) -> Seq<u8> {
    e.take(name_len(e))
}

/// The inode number stored in an entry.
pub open spec fn entry_inode(e: Seq<u8>) -> u32 {
    le_u32(e, 28)
}

/// The number of whole entries in a directory.
pub open spec fn entry_count(data: Seq<u8>) -> int {
    data.len() as int / 32
}

/// The entries of a directory: each name and inode number.
pub open spec fn dir_entries(data: Seq<u8>) -> Seq<(Seq<u8>, u32)> {
    Seq::new(
        entry_count(data) as nat,
        |k: int| (entry_name(entry_bytes(data, k)), entry_inode(entry_bytes(data, k))),
    )
}

/// Every entry of a directory ends its name with a zero byte, and the name
/// is UTF-8.
pub open spec fn dir_wf(data: Seq<u8>) -> bool {
    forall|k: int|
        0 <= k < entry_count(data) ==> {
            &&& #[trigger] name_len(entry_bytes(data, k)) < 28
            &&& valid_utf8(entry_name(entry_bytes(data, k)))
        }
}

/// The bytes of the entry that `DirEntry::new` makes.
pub open spec fn encode_entry(name: Seq<u8>, id: u32) -> Seq<u8> {
    name + Seq::new((28 - name.len()) as nat, |j: int| 0u8) + seq![
        (id & 0xff) as u8,
        ((id >> 8u32) & 0xff) as u8,
        ((id >> 16u32) & 0xff) as u8,
        ((id >> 24u32) & 0xff) as u8,
    ]
}

/// Whether a name has no zero byte.
pub open spec fn no_zero(name: Seq<u8>) -> bool {
    forall|j: int| 0 <= j < name.len() ==> #[trigger] name[j] != 0
}

/// An encoded entry gives back its name and inode number.
pub proof fn lemma_encode_entry(name: Seq<u8>, id: u32)
    requires
        name.len() <= NAME_LENGTH_LIMIT,
        no_zero(name),
    ensures
        encode_entry(name, id).len() == 32,
        name_len(encode_entry(name, id)) == name.len(),
        entry_name(encode_entry(name, id)) == name,
        entry_inode(encode_entry(name, id)) == id,
{
    let e = encode_entry(name, id);
    assert(e.len() == 32);
    lemma_first_zero(e, 0, name.len() as int);
    assert(e.take(name.len() as int) =~= name);
    assert(e[28] == (id & 0xff) as u8);
    assert(e[29] == ((id >> 8u32) & 0xff) as u8);
    assert(e[30] == ((id >> 16u32) & 0xff) as u8);
    assert(e[31] == ((id >> 24u32) & 0xff) as u8);
    assert(((((id & 0xff) as u8) as u32) | (((((id >> 8u32) & 0xff) as u8) as u32) << 8u32) | (((((
        id >> 16u32) & 0xff) as u8) as u32) << 16u32) | (((((id >> 24u32) & 0xff) as u8) as u32)
        << 24u32)) == id) by (bit_vector);
}

proof fn lemma_first_zero(e: Seq<u8>, k: int, z: int)
    requires
        0 <= k <= z < 28,
        e.len() >= 28,
        e[z] == 0,
        forall|j: int| k <= j < z ==> e[j] != 0,
    ensures
        first_zero_from(e, k) == z,
    decreases z - k,
{
    if k < z {
        lemma_first_zero(e, k + 1, z);
    }
}

impl DiskInode {
    /// A fresh disk inode of the given type, with one link and no bytes.
    pub fn initialize(&mut self, type_: DiskInodeType)
        ensures
            final(self).type_ == type_,
            final(self).nlink == 1,
            final(self).data@ == Seq::<u8>::empty(),
    {
        self.type_ = type_;
        self.nlink = 1;
        self.data = Vec::new();
    }

    /// Whether this is a directory.
    pub fn is_dir(&self) -> (r: bool)
        ensures
            r == (self.type_ == DiskInodeType::Directory),
    {
        self.type_ == DiskInodeType::Directory
    }

    /// Whether this is a file.
    pub fn is_file(&self) -> (r: bool)
        ensures
            r == (self.type_ == DiskInodeType::File),
    {
        self.type_ == DiskInodeType::File
    }

    /// Size in bytes.
    pub fn size(&self) -> (r: usize)
        ensures
            r == self.data@.len(),
    {
        self.data.len()
    }

    /// Reads the bytes from `offset` on into `buf`, as many as fit in both;
    /// returns how many.
    pub fn read_at(&self, offset: usize, buf: &mut [u8]) -> (r: usize)
        ensures
            r == read_len(self.data@.len() as int, offset as int, old(buf)@.len() as int),
            final(buf)@.len() == old(buf)@.len(),
            forall|j: int| 0 <= j < r ==> #[trigger] final(buf)@[j] == self.data@[offset + j],
            forall|j: int| r <= j < old(buf)@.len() ==> #[trigger] final(buf)@[j] == old(buf)@[j],
    {
        let size = self.data.len();
        if offset >= size {
            return 0;
        }
        let n = if buf.len() < size - offset { buf.len() } else { size - offset };
        let mut k: usize = 0;
        while k < n
            invariant
                k <= n,
                n <= buf@.len(),
                offset + n <= size,
                size == self.data@.len(),
                buf@.len() == old(buf)@.len(),
                forall|j: int| 0 <= j < k ==> #[trigger] buf@[j] == self.data@[offset + j],
                forall|j: int| k <= j < old(buf)@.len() ==> #[trigger] buf@[j] == old(buf)@[j],
            decreases n - k,
        {
            buf[k] = self.data[offset + k];
            k = k + 1;
        }
        n
    }

    /// Writes `buf` from `offset` on, as much as fits before the end of the
    /// data; returns how many bytes were written.
    pub fn write_at(&mut self, offset: usize, buf: &[u8]) -> (r: usize)
        ensures
            r == read_len(old(self).data@.len() as int, offset as int, buf@.len() as int),
            final(self).data@ == splice_bytes(old(self).data@, offset as int, buf@.take(r as int)),
            final(self).type_ == old(self).type_,
            final(self).nlink == old(self).nlink,
    {
        let size = self.data.len();
        if offset >= size {
            proof { assert(self.data@ =~= splice_bytes(old(self).data@, offset as int, buf@.take(0))); }
            return 0;
        }
        let n = if buf.len() < size - offset { buf.len() } else { size - offset };
        let mut k: usize = 0;
        while k < n
            invariant
                k <= n,
                n <= buf@.len(),
                offset + n <= size,
                size == old(self).data@.len(),
                self.type_ == old(self).type_,
                self.nlink == old(self).nlink,
                self.data@ == splice_bytes(old(self).data@, offset as int, buf@.take(k as int)),
            decreases n - k,
        {
            self.data.set(offset + k, buf[k]);
            proof {
                assert(self.data@ =~= splice_bytes(old(self).data@, offset as int, buf@.take(k + 1)));
            }
            k = k + 1;
        }
        n
    }

    /// Grows the data to `new_size` bytes with zeros; does nothing when it
    /// is not smaller.
    pub fn increase_size(&mut self, new_size: u32)
        ensures
            final(self).data@ == if new_size <= old(self).data@.len() { old(self).data@ } else {
                old(self).data@ + Seq::new((new_size - old(self).data@.len()) as nat, |j: int| 0u8)
            },
            final(self).type_ == old(self).type_,
            final(self).nlink == old(self).nlink,
    {
        let target = new_size as usize;
        if target <= self.data.len() {
            return;
        }
        let ghost start = self.data@.len();
        while self.data.len() < target
            invariant
                start <= self.data@.len() <= target,
                target == new_size,
                start == old(self).data@.len(),
                self.type_ == old(self).type_,
                self.nlink == old(self).nlink,
                self.data@ == old(self).data@ + Seq::new((self.data@.len() - start) as nat, |j: int| 0u8),
            decreases target - self.data@.len(),
        {
            self.data.push(0u8);
            proof {
                assert(self.data@ =~= old(self).data@ + Seq::new((self.data@.len() - start) as nat, |j: int| 0u8));
            }
        }
    }

    /// Drops every byte.
    pub fn clear_size(&mut self)
        ensures
            final(self).data@ == Seq::<u8>::empty(),
            final(self).type_ == old(self).type_,
            final(self).nlink == old(self).nlink,
    {
        self.data = Vec::new();
    }

    /// Shrinks the data to its first `new_size` bytes.
    pub fn truncate_size(&mut self, new_size: usize)
        requires
            new_size <= old(self).data@.len(),
        ensures
            final(self).data@ == old(self).data@.take(new_size as int),
            final(self).type_ == old(self).type_,
            final(self).nlink == old(self).nlink,
    {
        self.data.truncate(new_size);
    }
}

/// How many bytes a read of `len` bytes from `offset` of `size` bytes gets.
pub open spec fn read_len(size: int, offset: int, len: int) -> int {
    if offset >= size {
        0
    } else if len < size - offset {
        len
    } else {
        size - offset
    }
}

/// The bytes that a read of at most `len` bytes from `offset` gives.
pub open spec fn read_bytes(data: Seq<u8>, offset: int, len: int) -> Seq<u8> {
    Seq::new(read_len(data.len() as int, offset, len) as nat, |j: int| data[offset + j])
}

/// Bytes with `bytes` written from `offset` on.
pub open spec fn splice_bytes(data: Seq<u8>, offset: int, bytes: Seq<u8>) -> Seq<u8> {
    Seq::new(data.len(), |j: int| if offset <= j < offset + bytes.len() { bytes[j - offset] } else { data[j] })
}

/// The entry of `entries` with the given name that comes first, by inode number.
pub open spec fn lookup(entries: Seq<(Seq<u8>, u32)>, name: Seq<u8>) -> Option<u32>
    decreases entries.len(),
{
    if entries.len() == 0 {
        None
    } else if entries[0].0 == name {
        Some(entries[0].1)
    } else {
        lookup(entries.drop_first(), name)
    }
}

/// The index of the entry with the given name that comes first.
pub open spec fn lookup_index(entries: Seq<(Seq<u8>, u32)>, name: Seq<u8>) -> Option<int>
    decreases entries.len(),
{
    if entries.len() == 0 {
        None
    } else if entries[0].0 == name {
        Some(0)
    } else {
        match lookup_index(entries.drop_first(), name) {
            Some(k) => Some(k + 1),
            None => None,
        }
    }
}

/// `lookup` finds the entry at `lookup_index`, and no entry before it has the name.
pub proof fn lemma_lookup(entries: Seq<(Seq<u8>, u32)>, name: Seq<u8>)
    ensures
        lookup(entries, name) == match lookup_index(entries, name) {
            Some(k) => Some(entries[k].1),
            None => None,
        },
        match lookup_index(entries, name) {
            Some(k) => 0 <= k < entries.len() && entries[k].0 == name && forall|j: int| 0 <= j < k ==> entries[j].0 != name,
            None => forall|j: int| 0 <= j < entries.len() ==> entries[j].0 != name,
        },
    decreases entries.len(),
{
    if entries.len() > 0 && entries[0].0 != name {
        lemma_lookup(entries.drop_first(), name);
        assert forall|j: int| 0 < j < entries.len() implies entries[j] == entries.drop_first()[j - 1] by {}
    }
}

/// The file system: its disk inodes, numbered from 0, and the block where the
/// inode area starts.
pub struct EasyFileSystem {
    inodes: Vec<DiskInode>,
    inode_area_start_block: u32,
}

impl EasyFileSystem {
    /// Every inode: its type, its link count and its bytes.
    pub closed spec fn view(&self) -> Seq<(DiskInodeType, u32, Seq<u8>)> {
        self.inodes@.map_values(|d: DiskInode| (d.type_, d.nlink, d.data@))
    }

    /// The block where the inode area starts.
    pub closed spec fn start(&self) -> int {
        self.inode_area_start_block as int
    }

    /// The invariant of the file system: inode numbers and positions fit,
    /// every file fits its size field, and every directory is made of
    /// well-formed entries that name existing inodes.
    pub open spec fn wf(&self) -> bool {
        &&& self@.len() <= MAX_INODES
        &&& self.start() + MAX_INODES / 4 <= u32::MAX
        &&& forall|i: int| 0 <= i < self@.len() ==> #[trigger] self@[i].2.len() <= MAX_FILE_SIZE
        &&& forall|i: int|
            0 <= i < self@.len() && #[trigger] self@[i].0 == DiskInodeType::Directory ==> {
                &&& dir_wf(self@[i].2)
                &&& forall|k: int| 0 <= k < dir_entries(self@[i].2).len() ==> (#[trigger] dir_entries(self@[i].2)[k]).1 < self@.len()
            }
    }

    /// A file system whose inode area starts at `inode_area_start_block`,
    /// holding only the root directory, inode 0.
    pub fn create(inode_area_start_block: u32) -> (r: EasyFileSystem)
        requires
            inode_area_start_block + MAX_INODES / 4 <= u32::MAX,
        ensures
            r.wf(),
            r.start() == inode_area_start_block,
            r@ == seq![(DiskInodeType::Directory, 1u32, Seq::<u8>::empty())],
    {
        let mut inodes: Vec<DiskInode> = Vec::new();
        inodes.push(DiskInode { type_: DiskInodeType::Directory, nlink: 1, data: Vec::new() });
        let r = EasyFileSystem { inodes, inode_area_start_block };
        assert(r@ =~= seq![(DiskInodeType::Directory, 1u32, Seq::<u8>::empty())]);
        r
    }

    /// Disk inode `id`.
    pub fn disk_inode(&self, id: u32) -> (r: &DiskInode)
        requires
            id < self@.len(),
        ensures
            (r.type_, r.nlink, r.data@) == self@[id as int],
    {
        &self.inodes[id as usize]
    }

    /// Disk inode `id`, to change.
    pub fn disk_inode_mut(&mut self, id: u32) -> (r: &mut DiskInode)
        requires
            id < old(self)@.len(),
        ensures
            (r.type_, r.nlink, r.data@) == old(self)@[id as int],
            final(self)@ == old(self)@.update(id as int, (final(r).type_, final(r).nlink, final(r).data@)),
            final(self).start() == old(self).start(),
    {
        &mut self.inodes[id as usize]
    }

    /// Number of inodes.
    pub fn inode_count(&self) -> (r: usize)
        ensures
            r == self@.len(),
    {
        self.inodes.len()
    }

    /// Allocates an inode: a file with no link and no bytes, numbered after
    /// the last one.
    pub fn alloc_inode(&mut self) -> (r: u32)
        requires
            old(self).wf(),
            old(self)@.len() < MAX_INODES,
        ensures
            final(self).wf(),
            r == old(self)@.len(),
            final(self).start() == old(self).start(),
            final(self)@ == old(self)@.push((DiskInodeType::File, 0u32, Seq::<u8>::empty())),
    {
        let id = self.inodes.len() as u32;
        self.inodes.push(DiskInode { type_: DiskInodeType::File, nlink: 0, data: Vec::new() });
        proof {
            assert(self@ =~= old(self)@.push((DiskInodeType::File, 0u32, Seq::<u8>::empty())));
            assert forall|i: int|
                0 <= i < self@.len() && #[trigger] self@[i].0 == DiskInodeType::Directory implies {
                    &&& dir_wf(self@[i].2)
                    &&& forall|k: int| 0 <= k < dir_entries(self@[i].2).len() ==> (#[trigger] dir_entries(self@[i].2)[k]).1 < self@.len()
                } by {
                assert(self@[i] == old(self)@[i]);
            }
        }
        id
    }

    /// The block and the offset in it of disk inode `inode_id`.
    pub fn get_disk_inode_pos(&self, inode_id: u32) -> (r: (u32, usize))
        requires
            self.wf(),
            inode_id < MAX_INODES,
        ensures
            r.0 == self.start() + inode_id / 4,
            r.1 == (inode_id % 4) * 128,
    {
        (self.inode_area_start_block + inode_id / 4, (inode_id % 4) as usize * 128)
    }

    /// The inode number of the disk inode at `offset` in block `block_id`.
    pub fn get_inode_id(&self, block_id: u32, offset: usize) -> (r: u32)
        requires
            self.wf(),
            self.start() <= block_id,
            block_id - self.start() < MAX_INODES / 4,
            offset < 512,
        ensures
            r == (block_id - self.start()) * 4 + offset / 128,
    {
        (block_id - self.inode_area_start_block) * 4 + (offset / 128) as u32
    }
}

/// The first zero byte of an entry at or after `k`: no zero before it, and a
/// zero at it unless it is 28.
pub proof fn lemma_first_zero_props(e: Seq<u8>, k: int)
    requires
        0 <= k <= 28,
        e.len() >= 28,
    ensures
        k <= first_zero_from(e, k) <= 28,
        forall|j: int| k <= j < first_zero_from(e, k) ==> e[j] != 0,
        first_zero_from(e, k) < 28 ==> e[first_zero_from(e, k)] == 0,
    decreases 28 - k,
{
    if k < 28 && e[k] != 0 {
        lemma_first_zero_props(e, k + 1);
    }
}

/// The entry that `DirEntry::new` makes from a UTF-8 name of at most 27
/// bytes is well formed, keeps the inode number, and keeps the name when it
/// holds no zero byte.
pub proof fn lemma_encoded_entry_wf(name: Seq<u8>, id: u32)
    requires
        name.len() <= NAME_LENGTH_LIMIT,
        valid_utf8(name),
    ensures
        encode_entry(name, id).len() == 32,
        name_len(encode_entry(name, id)) < 28,
        valid_utf8(entry_name(encode_entry(name, id))),
        entry_inode(encode_entry(name, id)) == id,
        no_zero(name) ==> entry_name(encode_entry(name, id)) == name,
{
    let e = encode_entry(name, id);
    assert(e.len() == 32);
    lemma_first_zero_props(e, 0);
    let z = name_len(e);
    assert(e[name.len() as int] == 0);
    assert(z <= name.len());
    assert(entry_name(e) =~= name.subrange(0, z));
    if z < name.len() {
        assert(name[z] == 0);
        is_char_boundary_iff_not_is_continuation_byte(name, z);
        assert(!is_continuation_byte(0u8));
        valid_utf8_split(name, z);
    } else {
        assert(name.subrange(0, z) =~= name);
    }
    assert(e[28] == (id & 0xff) as u8);
    assert(e[29] == ((id >> 8u32) & 0xff) as u8);
    assert(e[30] == ((id >> 16u32) & 0xff) as u8);
    assert(e[31] == ((id >> 24u32) & 0xff) as u8);
    assert(((((id & 0xff) as u8) as u32) | (((((id >> 8u32) & 0xff) as u8) as u32) << 8u32) | (((((
        id >> 16u32) & 0xff) as u8) as u32) << 16u32) | (((((id >> 24u32) & 0xff) as u8) as u32)
        << 24u32)) == id) by (bit_vector);
    if no_zero(name) {
        lemma_encode_entry(name, id);
    }
}

/// Writing an entry after the last whole entry appends it to the directory.
pub proof fn lemma_dir_append(data: Seq<u8>, e: Seq<u8>)
    requires
        e.len() == 32,
    ensures
        ({
            let d2 = data.take(entry_count(data) * 32) + e;
            &&& entry_count(d2) == entry_count(data) + 1
            &&& dir_entries(d2) == dir_entries(data).push((entry_name(e), entry_inode(e)))
            &&& (dir_wf(data) && name_len(e) < 28 && valid_utf8(entry_name(e)) ==> dir_wf(d2))
        }),
{
    let fc = entry_count(data);
    let d2 = data.take(fc * 32) + e;
    assert(d2.len() == fc * 32 + 32);
    assert(entry_count(d2) == fc + 1);
    assert forall|k: int| 0 <= k < fc implies entry_bytes(d2, k) == entry_bytes(data, k) by {
        assert(entry_bytes(d2, k) =~= entry_bytes(data, k));
    }
    assert(entry_bytes(d2, fc) =~= e);
    assert(dir_entries(d2) =~= dir_entries(data).push((entry_name(e), entry_inode(e))));
    if dir_wf(data) && name_len(e) < 28 && valid_utf8(entry_name(e)) {
        assert forall|k: int| 0 <= k < entry_count(d2) implies {
            &&& #[trigger] name_len(entry_bytes(d2, k)) < 28
            &&& valid_utf8(entry_name(entry_bytes(d2, k)))
        } by {
            if k < fc {
                assert(entry_bytes(d2, k) == entry_bytes(data, k));
            }
        }
    }
}

/// Moving the last entry over entry `idx` and dropping the last 32 bytes
/// removes entry `idx`.
pub proof fn lemma_dir_remove(data: Seq<u8>, idx: int)
    requires
        0 <= idx < entry_count(data),
    ensures
        ({
            let fc = entry_count(data);
            let moved = if idx == fc - 1 { data } else {
                splice_bytes(data, idx * 32, entry_bytes(data, fc - 1))
            };
            let d2 = moved.take(data.len() - 32);
            &&& dir_entries(d2) == dir_entries(data).update(idx, dir_entries(data)[fc - 1]).drop_last()
            &&& (dir_wf(data) ==> dir_wf(d2))
        }),
{
    let fc = entry_count(data);
    let moved = if idx == fc - 1 { data } else { splice_bytes(data, idx * 32, entry_bytes(data, fc - 1)) };
    let d2 = moved.take(data.len() - 32);
    assert(entry_count(d2) == fc - 1);
    assert forall|k: int| 0 <= k < fc - 1 implies entry_bytes(d2, k) == if k == idx { entry_bytes(data, fc - 1) } else { entry_bytes(data, k) } by {
        assert(entry_bytes(d2, k) =~= if k == idx { entry_bytes(data, fc - 1) } else { entry_bytes(data, k) });
    }
    assert(dir_entries(d2) =~= dir_entries(data).update(idx, dir_entries(data)[fc - 1]).drop_last());
    if dir_wf(data) {
        assert forall|k: int| 0 <= k < entry_count(d2) implies {
            &&& #[trigger] name_len(entry_bytes(d2, k)) < 28
            &&& valid_utf8(entry_name(entry_bytes(d2, k)))
        } by {
            if k == idx {
                assert(entry_bytes(d2, k) == entry_bytes(data, fc - 1));
            } else {
                assert(entry_bytes(d2, k) == entry_bytes(data, k));
            }
        }
    }
}

/// Looking up a name after appending an entry with that name, when no
/// entry had it, finds the appended one; other names are found as before.
pub proof fn lemma_lookup_push(entries: Seq<(Seq<u8>, u32)>, x: (Seq<u8>, u32), name: Seq<u8>)
    ensures
        lookup(entries.push(x), name) == if lookup(entries, name) is None && x.0 == name {
            Some(x.1)
        } else if lookup(entries, name) is None {
            None
        } else {
            lookup(entries, name)
        },
    decreases entries.len(),
{
    if entries.len() == 0 {
        assert(entries.push(x).drop_first() =~= Seq::<(Seq<u8>, u32)>::empty());
        assert(entries.push(x)[0] == x);
        assert(lookup(entries.push(x).drop_first(), name) is None);
    } else {
        assert(entries.push(x).drop_first() =~= entries.drop_first().push(x));
        assert(entries.push(x)[0] == entries[0]);
        lemma_lookup_push(entries.drop_first(), x, name);
    }
}

impl EasyFileSystem {
    /// Changing one inode keeps the invariant when the new inode fits and,
    /// as a directory, is well formed with entries that name existing inodes.
    pub proof fn lemma_update_wf(&self, other: &EasyFileSystem, id: int)
        requires
            self.wf(),
            0 <= id < self@.len(),
            other.start() == self.start(),
            other@.len() == self@.len(),
            forall|i: int| 0 <= i < self@.len() && i != id ==> other@[i] == self@[i],
            other@[id].2.len() <= MAX_FILE_SIZE,
            other@[id].0 == DiskInodeType::Directory ==> dir_wf(other@[id].2) && forall|k: int|
                0 <= k < dir_entries(other@[id].2).len() ==> (#[trigger] dir_entries(other@[id].2)[k]).1 < self@.len(),
        ensures
            other.wf(),
    {
        assert forall|i: int| 0 <= i < other@.len() implies #[trigger] other@[i].2.len() <= MAX_FILE_SIZE by {
            if i != id { assert(other@[i] == self@[i]); }
        }
        assert forall|i: int|
            0 <= i < other@.len() && #[trigger] other@[i].0 == DiskInodeType::Directory implies {
                &&& dir_wf(other@[i].2)
                &&& forall|k: int| 0 <= k < dir_entries(other@[i].2).len() ==> (#[trigger] dir_entries(other@[i].2)[k]).1 < other@.len()
            } by {
            if i != id { assert(other@[i] == self@[i]); }
        }
    }
}

/// The inode number found at the position of inode `id` is `id`.
pub proof fn lemma_inode_pos_roundtrip(fs: &EasyFileSystem, id: u32)
    requires
        id < MAX_INODES,
    ensures
        ((fs.start() + id / 4) - fs.start()) * 4 + ((id % 4) * 128) / 128 == id,
{
}

} // verus!
