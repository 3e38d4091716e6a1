//! The virtual file system layer over easy-fs: [`Inode`].
use vstd::prelude::*;
use vstd::string::StringSliceAdditionalSpecFns;
use vstd::utf8::{decode_utf8, valid_utf8};
use crate::fs::layout::{
    encode_entry, lemma_dir_append, lemma_encode_entry, lemma_encoded_entry_wf, lemma_lookup_push, no_zero, MAX_FILE_SIZE,
    NAME_LENGTH_LIMIT, dir_entries, dir_wf, entry_bytes, entry_count, entry_inode, entry_name, first_zero_from, lemma_lookup,
    lookup, lookup_index, name_len, splice_bytes, lemma_dir_remove, read_len, DiskInode, DiskInodeType, EasyFileSystem, DIRENT_SZ, MAX_INODES,
};

verus! {

/// The inode number of the disk inode at `offset` in block `block_id`.
pub open spec fn inode_id_at(start: int, block_id: int, offset: int) -> int {
    (block_id - start) * 4 + offset / 128
}

/// The bytes of a name.
pub open spec fn name_bytes(name: &str) -> Seq<u8> {
    name.spec_bytes()
}

/// Virtual filesystem layer over easy-fs
pub struct Inode {
    block_id: usize,
    block_offset: usize,
}

impl Inode {
    /// The block that holds the disk inode.
    pub closed spec fn block(&self) -> int {
        self.block_id as int
    }

    /// The offset of the disk inode in its block.
    pub closed spec fn offset(&self) -> int {
        self.block_offset as int
    }

    /// The inode number in `fs`.
    pub open spec fn id(&self, fs: &EasyFileSystem) -> int {
        inode_id_at(fs.start(), self.block(), self.offset())
    }

    /// The inode names an existing disk inode of a well-formed file system.
    pub open spec fn wf(&self, fs: &EasyFileSystem) -> bool {
        &&& fs.wf()
        &&& fs.start() <= self.block()
        &&& self.block() - fs.start() < MAX_INODES / 4
        &&& 0 <= self.offset() < 512
        &&& self.offset() % 128 == 0
        &&& 0 <= self.id(fs) < fs@.len()
    }

    /// The disk inode of this inode.
    pub open spec fn disk(&self, fs: &EasyFileSystem) -> (DiskInodeType, u32, Seq<u8>) {
        fs@[self.id(fs)]
    }

    /// Whether the inode is a directory in `fs`.
    pub open spec fn is_dir_in(&self, fs: &EasyFileSystem) -> bool {
        self.disk(fs).0 == DiskInodeType::Directory
    }

    /// The entries of the directory.
    pub open spec fn entries(&self, fs: &EasyFileSystem) -> Seq<(Seq<u8>, u32)> {
        dir_entries(self.disk(fs).2)
    }

    /// Create a vfs inode
    pub fn new(block_id: u32, block_offset: usize) -> (r: Inode)
        ensures
            r.block() == block_id,
            r.offset() == block_offset,
    {
        Inode { block_id: block_id as usize, block_offset }
    }

    /// The inode for inode number `id`.
    fn at(fs: &EasyFileSystem, id: u32) -> (r: Inode)
        requires
            fs.wf(),
            id < fs@.len(),
        ensures
            r.wf(fs),
            r.id(fs) == id,
    {
        let (block_id, block_offset) = fs.get_disk_inode_pos(id);
        Self::new(block_id, block_offset)
    }

    /// The inode of the root directory, inode 0.
    pub fn root_inode(fs: &EasyFileSystem) -> (r: Inode)
        requires
            fs.wf(),
            fs@.len() > 0,
        ensures
            r.wf(fs),
            r.id(fs) == 0,
    {
        Self::at(fs, 0)
    }

    /// An inode of one file system names the same disk inode in a later
    /// state that kept the inode area and every inode.
    pub proof fn lemma_wf_mono(&self, f0: &EasyFileSystem, f1: &EasyFileSystem)
        requires
            self.wf(f0),
            f1.wf(),
            f1.start() == f0.start(),
            f1@.len() >= f0@.len(),
        ensures
            self.wf(f1),
            self.id(f1) == self.id(f0),
    {
    }

    /// 获得当前 inode 的 inode_id
    pub fn get_inode_id(&self, fs: &EasyFileSystem) -> (r: u32)
        requires
            self.wf(fs),
        ensures
            r == self.id(fs),
    {
        fs.get_inode_id(self.block_id as u32, self.block_offset)
    }

    /// Find inode under a disk inode by name
    pub fn find_inode_id(&self, name: &str, disk_inode: &DiskInode) -> (r: Option<u32>)
        requires
            disk_inode.type_ == DiskInodeType::Directory,
            dir_wf(disk_inode.data@),
        ensures
            r == lookup(dir_entries(disk_inode.data@), name_bytes(name)),
    {
        let size = disk_inode.size();
        let file_count = size / DIRENT_SZ;
        let nb = name.as_bytes();
        let mut dirent = zero_bytes(DIRENT_SZ);
        let ghost entries = dir_entries(disk_inode.data@);
        proof { assert(entries.skip(0) =~= entries); }
        let mut i: usize = 0;
        while i < file_count
            invariant
                i <= file_count,
                file_count * 32 <= size,
                size == disk_inode.data@.len(),
                file_count == entry_count(disk_inode.data@),
                entries == dir_entries(disk_inode.data@),
                dirent@.len() == DIRENT_SZ,
                nb@ == name_bytes(name),
                lookup(entries, nb@) == lookup(entries.skip(i as int), nb@),
            decreases file_count - i,
        {
            let got = disk_inode.read_at(DIRENT_SZ * i, dirent.as_mut_slice());
            proof {
                assert(got == DIRENT_SZ);
                assert(dirent@ =~= entry_bytes(disk_inode.data@, i as int));
                assert(entries.skip(i as int)[0] == entries[i as int]);
                assert(entries.skip(i as int).drop_first() =~= entries.skip(i + 1));
            }
            if dirent_name_eq(&dirent, nb) {
                return Some(dirent_inode(&dirent));
            }
            i = i + 1;
        }
        proof { assert(entries.skip(i as int).len() == 0); }
        None
    }

    /// Find inode under current inode by name
    pub fn find(&self, fs: &EasyFileSystem, name: &str) -> (r: Option<Inode>)
        requires
            self.wf(fs),
            self.is_dir_in(fs),
        ensures
            match r {
                Some(inode) => {
                    &&& lookup(self.entries(fs), name_bytes(name)) == Some(inode.id(fs) as u32)
                    &&& inode.wf(fs)
                },
                None => lookup(self.entries(fs), name_bytes(name)) is None,
            },
    {
        let id = self.get_inode_id(fs);
        let disk_inode = fs.disk_inode(id);
        match self.find_inode_id(name, disk_inode) {
            Some(inode_id) => {
                proof {
                    lemma_lookup(self.entries(fs), name_bytes(name));
                    let k = lookup_index(self.entries(fs), name_bytes(name))->0;
                    assert(self.entries(fs)[k].1 < fs@.len());
                }
                Some(Self::at(fs, inode_id))
            },
            None => None,
        }
    }

    /// Create inode under current inode by name
    pub fn create(&self, fs: &mut EasyFileSystem, name: &str) -> (r: Option<Inode>)
        requires
            self.wf(old(fs)),
            self.is_dir_in(old(fs)),
            lookup(self.entries(old(fs)), name_bytes(name)) is None ==> {
                &&& name_bytes(name).len() <= NAME_LENGTH_LIMIT
                &&& old(fs)@.len() < MAX_INODES
                &&& entry_count(self.disk(old(fs)).2) * 32 + 32 <= MAX_FILE_SIZE
            },
        ensures
            final(fs).wf(),
            final(fs).start() == old(fs).start(),
            lookup(self.entries(old(fs)), name_bytes(name)) is Some ==> r is None && final(fs)@ == old(fs)@,
            lookup(self.entries(old(fs)), name_bytes(name)) is None ==> {
                &&& r is Some
                &&& r->0.wf(final(fs))
                &&& r->0.id(final(fs)) == old(fs)@.len()
                &&& final(fs)@ == old(fs)@.push((DiskInodeType::File, 1u32, Seq::<u8>::empty())).update(
                    self.id(old(fs)),
                    (DiskInodeType::Directory, self.disk(old(fs)).1,
                        dir_with_entry(self.disk(old(fs)).2, name_bytes(name), old(fs)@.len() as u32)),
                )
            },
            dirs_distinct(old(fs)@) && no_zero(name_bytes(name)) ==> dirs_distinct(final(fs)@),
    {
        let dir_id = self.get_inode_id(fs);
        if self.find_inode_id(name, fs.disk_inode(dir_id)).is_some() {
            return None;
        }
        let new_inode_id = fs.alloc_inode();
        let ghost mid = fs@;
        let di = fs.disk_inode_mut(new_inode_id);
        di.initialize(DiskInodeType::File);
        proof {
            assert(fs@ == mid.update(new_inode_id as int, (DiskInodeType::File, 1u32, Seq::<u8>::empty())));
        }
        let ghost fs1 = *fs;
        proof {
            assert forall|i: int| 0 <= i < fs@.len() && i != new_inode_id implies fs@[i] == mid[i] by {}
        }
        push_dirent(fs, dir_id, name, new_inode_id);
        proof {
            assert(fs@ =~= old(fs)@.push((DiskInodeType::File, 1u32, Seq::<u8>::empty())).update(
                dir_id as int,
                (DiskInodeType::Directory, self.disk(old(fs)).1,
                    dir_with_entry(self.disk(old(fs)).2, name_bytes(name), new_inode_id))));
            if dirs_distinct(old(fs)@) && no_zero(name_bytes(name)) {
                let x = (DiskInodeType::File, 1u32, Seq::<u8>::empty());
                lemma_dirs_distinct_push(old(fs)@, x);
                assert(old(fs)@.push(x)[dir_id as int] == old(fs)@[dir_id as int]);
                lemma_dirs_distinct_add(old(fs)@.push(x), dir_id as int, self.disk(old(fs)).1, name_bytes(name), new_inode_id);
            }
        }
        Some(Self::at(fs, new_inode_id))
    }

    /// 在当前目录下添加目录项
    pub fn add_dir_entry(&self, fs: &mut EasyFileSystem, name: &str, inode_id: u32) -> (r: Option<()>)
        requires
            self.wf(old(fs)),
            self.is_dir_in(old(fs)) && lookup(self.entries(old(fs)), name_bytes(name)) is None ==> {
                &&& name_bytes(name).len() <= NAME_LENGTH_LIMIT
                &&& inode_id < old(fs)@.len()
                &&& entry_count(self.disk(old(fs)).2) * 32 + 32 <= MAX_FILE_SIZE
            },
        ensures
            final(fs).wf(),
            final(fs).start() == old(fs).start(),
            r is Some <==> self.is_dir_in(old(fs)) && lookup(self.entries(old(fs)), name_bytes(name)) is None,
            r is None ==> final(fs)@ == old(fs)@,
            r is Some ==> final(fs)@ == old(fs)@.update(
                self.id(old(fs)),
                (DiskInodeType::Directory, self.disk(old(fs)).1,
                    dir_with_entry(self.disk(old(fs)).2, name_bytes(name), inode_id)),
            ),
            dirs_distinct(old(fs)@) && no_zero(name_bytes(name)) ==> dirs_distinct(final(fs)@),
    {
        let dir_id = self.get_inode_id(fs);
        if !fs.disk_inode(dir_id).is_dir() {
            return None;
        }
        proof { assert(fs@[dir_id as int].0 == DiskInodeType::Directory); }
        if self.find_inode_id(name, fs.disk_inode(dir_id)).is_some() {
            return None;
        }
        push_dirent(fs, dir_id, name, inode_id);
        proof {
            if dirs_distinct(old(fs)@) && no_zero(name_bytes(name)) {
                lemma_dirs_distinct_add(old(fs)@, dir_id as int, self.disk(old(fs)).1, name_bytes(name), inode_id);
            }
        }
        Some(())
    }

    /// 创建目录
    pub fn create_dir(&self, fs: &mut EasyFileSystem, name: &str) -> (r: Option<Inode>)
        requires
            self.wf(old(fs)),
            self.is_dir_in(old(fs)),
            lookup(self.entries(old(fs)), name_bytes(name)) is None ==> {
                &&& name_bytes(name).len() <= NAME_LENGTH_LIMIT
                &&& old(fs)@.len() < MAX_INODES
                &&& entry_count(self.disk(old(fs)).2) * 32 + 32 <= MAX_FILE_SIZE
            },
        ensures
            final(fs).wf(),
            final(fs).start() == old(fs).start(),
            lookup(self.entries(old(fs)), name_bytes(name)) is Some ==> r is None && final(fs)@ == old(fs)@,
            lookup(self.entries(old(fs)), name_bytes(name)) is None ==> {
                &&& r is Some
                &&& r->0.wf(final(fs))
                &&& r->0.id(final(fs)) == old(fs)@.len()
                &&& final(fs)@ == old(fs)@.push(
                    (DiskInodeType::Directory, 2u32, dot_entries(old(fs)@.len() as u32, self.id(old(fs)) as u32)),
                ).update(
                    self.id(old(fs)),
                    (DiskInodeType::Directory, self.disk(old(fs)).1,
                        dir_with_entry(self.disk(old(fs)).2, name_bytes(name), old(fs)@.len() as u32)),
                )
            },
            dirs_distinct(old(fs)@) && no_zero(name_bytes(name)) ==> dirs_distinct(final(fs)@),
    {
        let dir_id = self.get_inode_id(fs);
        if self.find_inode_id(name, fs.disk_inode(dir_id)).is_some() {
            return None;
        }
        let new_inode_id = fs.alloc_inode();
        let ghost mid = fs@;
        let di = fs.disk_inode_mut(new_inode_id);
        di.initialize(DiskInodeType::Directory);
        di.nlink = 2;
        proof {
            assert(fs@ == mid.update(new_inode_id as int, (DiskInodeType::Directory, 2u32, Seq::<u8>::empty())));
            assert(dir_entries(Seq::<u8>::empty()) =~= Seq::<(Seq<u8>, u32)>::empty());
        }
        push_dirent(fs, dir_id, name, new_inode_id);
        let new_dir_inode = Self::at(fs, new_inode_id);
        let mut dot: Vec<u8> = Vec::new();
        dot.push(46u8);
        let self_dirent = dirent_new(dot.as_slice(), new_inode_id);
        dot.push(46u8);
        let parent_dirent = dirent_new(dot.as_slice(), dir_id);
        let di = fs.disk_inode_mut(new_inode_id);
        di.increase_size((2 * DIRENT_SZ) as u32);
        di.write_at(0, self_dirent.as_slice());
        di.write_at(DIRENT_SZ, parent_dirent.as_slice());
        proof {
            let z = dot_entries(new_inode_id, dir_id);
            assert(fs@[new_inode_id as int].2 =~= z);
            lemma_dot_entries(new_inode_id, dir_id);
            assert forall|k: int| 0 <= k < dir_entries(z).len() implies (#[trigger] dir_entries(z)[k]).1 < fs@.len() by {
                assert(dir_entries(z)[k].1 == if k == 0 { new_inode_id } else { dir_id });
            }
            assert(fs@ =~= old(fs)@.push((DiskInodeType::Directory, 2u32, z)).update(
                dir_id as int,
                (DiskInodeType::Directory, self.disk(old(fs)).1,
                    dir_with_entry(self.disk(old(fs)).2, name_bytes(name), new_inode_id))));
            if dirs_distinct(old(fs)@) && no_zero(name_bytes(name)) {
                let x = (DiskInodeType::Directory, 2u32, z);
                lemma_dirs_distinct_push(old(fs)@, x);
                assert(old(fs)@.push(x)[dir_id as int] == old(fs)@[dir_id as int]);
                lemma_dirs_distinct_add(old(fs)@.push(x), dir_id as int, self.disk(old(fs)).1, name_bytes(name), new_inode_id);
            }
        }
        Some(new_dir_inode)
    }

    /// List inodes under current inode
    pub fn ls(&self, fs: &EasyFileSystem) -> (r: Vec<String>)
        requires
            self.wf(fs),
            dir_wf(self.disk(fs).2),
        ensures
            r@.len() == self.entries(fs).len(),
            forall|k: int| 0 <= k < r@.len() ==> #[trigger] r@[k]@ == decode_utf8(self.entries(fs)[k].0),
    {
        let disk_inode = fs.disk_inode(self.get_inode_id(fs));
        let size = disk_inode.size();
        let file_count = size / DIRENT_SZ;
        let ghost entries = self.entries(fs);
        let mut v: Vec<String> = Vec::new();
        let mut i: usize = 0;
        while i < file_count
            invariant
                i <= file_count,
                file_count * 32 <= size,
                size == disk_inode.data@.len(),
                file_count == entry_count(disk_inode.data@),
                entries == dir_entries(disk_inode.data@),
                dir_wf(disk_inode.data@),
                v@.len() == i,
                forall|k: int| 0 <= k < i ==> #[trigger] v@[k]@ == decode_utf8(entries[k].0),
            decreases file_count - i,
        {
            let mut dirent = zero_bytes(DIRENT_SZ);
            let got = disk_inode.read_at(i * DIRENT_SZ, dirent.as_mut_slice());
            proof {
                assert(dirent@ =~= entry_bytes(disk_inode.data@, i as int));
                assert(name_len(entry_bytes(disk_inode.data@, i as int)) < 28);
            }
            let name = dirent_name(&dirent);
            let s = string_from_utf8(name).unwrap();
            let ghost v0 = v@;
            v.push(s);
            proof {
                assert forall|k: int| 0 <= k < i + 1 implies #[trigger] v@[k]@ == decode_utf8(entries[k].0) by {
                    if k < i { assert(v@[k] == v0[k]); }
                }
            }
            i = i + 1;
        }
        v
    }

    /// Read data from current inode
    pub fn read_at(&self, fs: &EasyFileSystem, offset: usize, buf: &mut [u8]) -> (r: usize)
        requires
            self.wf(fs),
        ensures
            r == read_len(self.disk(fs).2.len() as int, offset as int, old(buf)@.len() as int),
            final(buf)@.len() == old(buf)@.len(),
            forall|j: int| 0 <= j < r ==> #[trigger] final(buf)@[j] == self.disk(fs).2[offset + j],
            forall|j: int| r <= j < old(buf)@.len() ==> #[trigger] final(buf)@[j] == old(buf)@[j],
    {
        fs.disk_inode(self.get_inode_id(fs)).read_at(offset, buf)
    }

    /// Write data to current inode
    pub fn write_at(&self, fs: &mut EasyFileSystem, offset: usize, buf: &[u8]) -> (r: usize)
        requires
            self.wf(old(fs)),
            offset + buf@.len() <= MAX_FILE_SIZE,
        ensures
            r == buf@.len(),
            final(fs).start() == old(fs).start(),
            final(fs)@ == old(fs)@.update(self.id(old(fs)), (self.disk(old(fs)).0, self.disk(old(fs)).1,
                splice_bytes(grown(self.disk(old(fs)).2, offset + buf@.len()), offset as int, buf@))),
            !self.is_dir_in(old(fs)) ==> final(fs).wf(),
    {
        let id = self.get_inode_id(fs);
        let di = fs.disk_inode_mut(id);
        di.increase_size((offset + buf.len()) as u32);
        let n = di.write_at(offset, buf);
        proof {
            assert(buf@.take(n as int) =~= buf@);
            if !self.is_dir_in(old(fs)) {
                old(fs).lemma_update_wf(fs, id as int);
            }
        }
        n
    }

    /// Clear the data in current inode
    pub fn clear(&self, fs: &mut EasyFileSystem)
        requires
            self.wf(old(fs)),
        ensures
            final(fs).wf(),
            final(fs).start() == old(fs).start(),
            final(fs)@ == old(fs)@.update(self.id(old(fs)), (self.disk(old(fs)).0, self.disk(old(fs)).1, Seq::<u8>::empty())),
    {
        let id = self.get_inode_id(fs);
        fs.disk_inode_mut(id).clear_size();
        proof {
            assert(dir_entries(Seq::<u8>::empty()) =~= Seq::<(Seq<u8>, u32)>::empty());
            old(fs).lemma_update_wf(fs, id as int);
        }
    }

    /// 增加硬链接计数
    pub fn inc_nlink(&self, fs: &mut EasyFileSystem)
        requires
            self.wf(old(fs)),
            self.disk(old(fs)).1 < u32::MAX,
        ensures
            final(fs).wf(),
            final(fs).start() == old(fs).start(),
            final(fs)@ == old(fs)@.update(self.id(old(fs)), (self.disk(old(fs)).0, (self.disk(old(fs)).1 + 1) as u32, self.disk(old(fs)).2)),
    {
        let id = self.get_inode_id(fs);
        let di = fs.disk_inode_mut(id);
        di.nlink += 1;
        proof { old(fs).lemma_update_wf(fs, id as int); }
    }

    /// 减少硬链接计数
    pub fn dec_nlink(&self, fs: &mut EasyFileSystem)
        requires
            self.wf(old(fs)),
            self.disk(old(fs)).1 > 0,
        ensures
            final(fs).wf(),
            final(fs).start() == old(fs).start(),
            final(fs)@ == old(fs)@.update(self.id(old(fs)), (self.disk(old(fs)).0, (self.disk(old(fs)).1 - 1) as u32, self.disk(old(fs)).2)),
    {
        let id = self.get_inode_id(fs);
        let di = fs.disk_inode_mut(id);
        di.nlink -= 1;
        proof { old(fs).lemma_update_wf(fs, id as int); }
    }

    /// 从目录中删除指定名称的目录项
    pub fn remove_dir_entry(&self, fs: &mut EasyFileSystem, name: &str) -> (r: Option<()>)
        requires
            self.wf(old(fs)),
        ensures
            final(fs).wf(),
            final(fs).start() == old(fs).start(),
            r is Some <==> self.is_dir_in(old(fs)) && lookup(self.entries(old(fs)), name_bytes(name)) is Some,
            r is None ==> final(fs)@ == old(fs)@,
            r is Some ==> final(fs)@ == old(fs)@.update(self.id(old(fs)), (DiskInodeType::Directory,
                self.disk(old(fs)).1, dir_without_entry(self.disk(old(fs)).2,
                lookup_index(self.entries(old(fs)), name_bytes(name))->0))),
            dirs_distinct(old(fs)@) ==> dirs_distinct(final(fs)@),
    {
        let id = self.get_inode_id(fs);
        if !fs.disk_inode(id).is_dir() {
            return None;
        }
        proof { assert(fs@[id as int].0 == DiskInodeType::Directory); }
        let found_index = self.find_dirent_index(name, fs.disk_inode(id));
        let index = match found_index {
            Some(index) => index,
            None => return None,
        };
        proof { lemma_lookup(self.entries(fs), name_bytes(name)); }
        let ghost data = self.disk(old(fs)).2;
        let di = fs.disk_inode_mut(id);
        let size = di.size();
        let file_count = size / DIRENT_SZ;
        if index == file_count - 1 {
            di.truncate_size(size - DIRENT_SZ);
        } else {
            let mut last_dirent = zero_bytes(DIRENT_SZ);
            let last_index = file_count - 1;
            let got = di.read_at(DIRENT_SZ * last_index, last_dirent.as_mut_slice());
            proof { assert(last_dirent@ =~= entry_bytes(data, last_index as int)); }
            di.write_at(DIRENT_SZ * index, last_dirent.as_slice());
            proof {
                assert(last_dirent@.take(32) =~= last_dirent@);
            }
            di.truncate_size(size - DIRENT_SZ);
        }
        proof {
            lemma_dir_remove(data, index as int);
            assert(fs@[id as int].2 =~= dir_without_entry(data, index as int));
            let e2 = dir_entries(fs@[id as int].2);
            let e1 = dir_entries(data);
            assert forall|k: int| 0 <= k < e2.len() implies (#[trigger] e2[k]).1 < old(fs)@.len() by {
                if k == index { assert(e2[k] == e1[e1.len() - 1]); } else { assert(e2[k] == e1[k]); }
            }
            old(fs).lemma_update_wf(fs, id as int);
            if dirs_distinct(old(fs)@) {
                assert(names_distinct(dir_entries(data)));
                lemma_remove_keeps_names_distinct(data, index as int);
                lemma_dirs_distinct_update(old(fs)@, id as int, fs@[id as int]);
                assert(fs@ =~= old(fs)@.update(id as int, fs@[id as int]));
            }
        }
        Some(())
    }

    /// The index of the first entry with the name.
    fn find_dirent_index(&self, name: &str, disk_inode: &DiskInode) -> (r: Option<usize>)
        requires
            dir_wf(disk_inode.data@),
        ensures
            match r {
                Some(i) => lookup_index(dir_entries(disk_inode.data@), name_bytes(name)) == Some(i as int),
                None => lookup_index(dir_entries(disk_inode.data@), name_bytes(name)) is None,
            },
            r is Some <==> lookup(dir_entries(disk_inode.data@), name_bytes(name)) is Some,
    {
        let size = disk_inode.size();
        let file_count = size / DIRENT_SZ;
        let nb = name.as_bytes();
        let mut target_dirent = zero_bytes(DIRENT_SZ);
        let ghost entries = dir_entries(disk_inode.data@);
        proof {
            lemma_lookup(entries, nb@);
        }
        let mut i: usize = 0;
        while i < file_count
            invariant
                i <= file_count,
                file_count * 32 <= size,
                size == disk_inode.data@.len(),
                file_count == entry_count(disk_inode.data@),
                entries == dir_entries(disk_inode.data@),
                target_dirent@.len() == DIRENT_SZ,
                nb@ == name_bytes(name),
                forall|j: int| 0 <= j < i ==> entries[j].0 != nb@,
            decreases file_count - i,
        {
            let got = disk_inode.read_at(DIRENT_SZ * i, target_dirent.as_mut_slice());
            proof {
                assert(target_dirent@ =~= entry_bytes(disk_inode.data@, i as int));
            }
            if dirent_name_eq(&target_dirent, nb) {
                proof {
                    assert(entries[i as int].0 == nb@);
                    lemma_lookup(entries, nb@);
                    match lookup_index(entries, nb@) {
                        Some(k) => { if k > i { } }
                        None => {}
                    }
                }
                return Some(i);
            }
            i = i + 1;
        }
        None
    }

    /// 创建硬链接
    pub fn create_hardlink(&self, fs: &mut EasyFileSystem, new_path: &str, old_inode: &Inode) -> (r: Option<Inode>)
        requires
            self.wf(old(fs)),
            old_inode.wf(old(fs)),
            self.is_dir_in(old(fs)) && lookup(self.entries(old(fs)), name_bytes(new_path)) is None
                && !old_inode.is_dir_in(old(fs)) ==> {
                &&& name_bytes(new_path).len() <= NAME_LENGTH_LIMIT
                &&& entry_count(self.disk(old(fs)).2) * 32 + 32 <= MAX_FILE_SIZE
                &&& old_inode.disk(old(fs)).1 < u32::MAX
            },
        ensures
            final(fs).wf(),
            final(fs).start() == old(fs).start(),
            r is Some <==> self.is_dir_in(old(fs)) && lookup(self.entries(old(fs)), name_bytes(new_path)) is None
                && !old_inode.is_dir_in(old(fs)),
            r is None ==> final(fs)@ == old(fs)@,
            r is Some ==> {
                &&& final(fs)@ == link_spec(old(fs)@, self.id(old(fs)), name_bytes(new_path), old_inode.id(old(fs)))
                &&& r->0.id(final(fs)) == old_inode.id(old(fs))
                &&& r->0.wf(final(fs))
            },
            dirs_distinct(old(fs)@) && no_zero(name_bytes(new_path)) ==> dirs_distinct(final(fs)@),
    {
        let parent_inode = self;
        let filename = new_path;
        if !parent_inode.is_dir(fs) {
            return None;
        }
        if parent_inode.find(fs, filename).is_some() {
            return None;
        }
        if old_inode.is_dir(fs) {
            return None;
        }
        let old_inode_id = old_inode.get_inode_id(fs);
        match parent_inode.add_dir_entry(fs, filename, old_inode_id) {
            Some(()) => {},
            None => {
                return None;
            },
        }
        proof {
            assert(old_inode.id(fs) != self.id(fs));
        }
        old_inode.inc_nlink(fs);
        proof {
            if dirs_distinct(old(fs)@) && no_zero(name_bytes(new_path)) {
                lemma_dirs_distinct_link(old(fs)@, self.id(old(fs)), name_bytes(new_path), old_inode.id(old(fs)));
            }
        }
        Some(Inode { block_id: old_inode.block_id, block_offset: old_inode.block_offset })
    }

    /// 删除指定路径的文件（unlink 功能）
    pub fn unlink(&self, fs: &mut EasyFileSystem, path: &str) -> (r: isize)
        requires
            self.wf(old(fs)),
            self.is_dir_in(old(fs)),
            unlink_nlink_ok(old(fs), self.entries(old(fs)), name_bytes(path)),
        ensures
            final(fs).wf(),
            final(fs).start() == old(fs).start(),
            r == 0 || r == -1,
            r == 0 <==> match lookup(self.entries(old(fs)), name_bytes(path)) {
                Some(t) => old(fs)@[t as int].0 != DiskInodeType::Directory,
                None => false,
            },
            r == -1 ==> final(fs)@ == old(fs)@,
            r == 0 ==> final(fs)@ == unlink_spec(old(fs)@, self.id(old(fs)), self.entries(old(fs)), name_bytes(path)),
            dirs_distinct(old(fs)@) ==> dirs_distinct(final(fs)@),
    {
        let parent_inode = self;
        let filename = path;
        let target_inode = match parent_inode.find(fs, filename) {
            Some(inode) => inode,
            None => {
                return -1;
            },
        };
        if target_inode.is_dir(fs) {
            return -1;
        }
        let ghost t = target_inode.id(fs);
        proof { assert(t != self.id(fs)); }
        if parent_inode.remove_dir_entry(fs, filename).is_none() {
            return -1;
        }
        let before_nlink = target_inode.get_nlink(fs);
        target_inode.dec_nlink(fs);
        let after_nlink = target_inode.get_nlink(fs);
        if after_nlink == 0 {
            target_inode.clear(fs);
        }
        proof {
            if dirs_distinct(old(fs)@) {
                lemma_lookup(self.entries(old(fs)), name_bytes(path));
                lemma_dirs_distinct_unlink(old(fs)@, self.id(old(fs)), name_bytes(path));
            }
        }
        0
    }

    /// 解析路径，返回父目录路径和文件名
    pub fn parse_path(path: &str) -> (r: Option<(String, String)>)
        ensures
            match parse_path_spec(path@) {
                Some((parent, file)) => r matches Some((p, f)) && p@ == parent && f@ == file,
                None => r is None,
            },
    {
        let cs = chars_of(path);
        let n = cs.len();
        let mut lo: usize = 0;
        while lo < n && cs[lo] == '/'
            invariant
                lo <= n,
                n == path@.len(),
                cs@ == path@,
                first_kept(path@, 0) == first_kept(path@, lo as int),
            decreases n - lo,
        {
            lo = lo + 1;
        }
        let mut hi: usize = n;
        while hi > 0 && cs[hi - 1] == '/'
            invariant
                hi <= n,
                n == path@.len(),
                cs@ == path@,
                end_kept(path@, n as int) == end_kept(path@, hi as int),
            decreases hi,
        {
            hi = hi - 1;
        }
        if lo >= hi {
            return None;
        }
        let ghost t = path@.subrange(lo as int, hi as int);
        let mut j: usize = hi;
        while j > lo && cs[j - 1] != '/'
            invariant
                lo <= j <= hi <= n,
                n == path@.len(),
                cs@ == path@,
                t == path@.subrange(lo as int, hi as int),
                last_slash(t, t.len() as int) == last_slash(t, j - lo),
            decreases j,
        {
            j = j - 1;
        }
        if j > lo {
            let last_slash_at = j - 1;
            let mut parent_path = String::new();
            string_push(&mut parent_path, '/');
            let mut k = lo;
            while k < last_slash_at
                invariant
                    lo <= k <= last_slash_at < n,
                    n == path@.len(),
                    cs@ == path@,
                    parent_path@ == seq!['/'] + path@.subrange(lo as int, k as int),
                decreases last_slash_at - k,
            {
                string_push(&mut parent_path, cs[k]);
                proof { assert(parent_path@ =~= seq!['/'] + path@.subrange(lo as int, k + 1)); }
                k = k + 1;
            }
            let mut filename = String::new();
            let mut k = last_slash_at + 1;
            while k < hi
                invariant
                    last_slash_at + 1 <= k <= hi <= n,
                    n == path@.len(),
                    cs@ == path@,
                    filename@ == path@.subrange(last_slash_at + 1, k as int),
                decreases hi - k,
            {
                string_push(&mut filename, cs[k]);
                proof { assert(filename@ =~= path@.subrange(last_slash_at + 1, k + 1)); }
                k = k + 1;
            }
            proof {
                assert(t.subrange(0, last_slash_at - lo) =~= path@.subrange(lo as int, last_slash_at as int));
                assert(t.subrange(last_slash_at - lo + 1, t.len() as int) =~= path@.subrange(last_slash_at + 1, hi as int));
            }
            if filename.as_str().is_empty() {
                return None;
            }
            Some((parent_path, filename))
        } else {
            let mut root = String::new();
            string_push(&mut root, '/');
            let mut name = String::new();
            let mut k = lo;
            while k < hi
                invariant
                    lo <= k <= hi <= n,
                    n == path@.len(),
                    cs@ == path@,
                    name@ == path@.subrange(lo as int, k as int),
                decreases hi - k,
            {
                string_push(&mut name, cs[k]);
                proof { assert(name@ =~= path@.subrange(lo as int, k + 1)); }
                k = k + 1;
            }
            proof { assert(root@ =~= seq!['/']); }
            Some((root, name))
        }
    }

    /// 判断当前 inode 是否为目录
    pub fn is_dir(&self, fs: &EasyFileSystem) -> (r: bool)
        requires
            self.wf(fs),
        ensures
            r == self.is_dir_in(fs),
    {
        fs.disk_inode(self.get_inode_id(fs)).is_dir()
    }

    /// 判断当前 inode 是否为文件
    pub fn is_file(&self, fs: &EasyFileSystem) -> (r: bool)
        requires
            self.wf(fs),
        ensures
            r == (self.disk(fs).0 == DiskInodeType::File),
    {
        fs.disk_inode(self.get_inode_id(fs)).is_file()
    }

    /// 获取硬链接计数
    pub fn get_nlink(&self, fs: &EasyFileSystem) -> (r: u32)
        requires
            self.wf(fs),
        ensures
            r == self.disk(fs).1,
    {
        fs.disk_inode(self.get_inode_id(fs)).nlink
    }

    /// 获取文件大小（公共方法）
    pub fn get_size(&self, fs: &EasyFileSystem) -> (r: u64)
        requires
            self.wf(fs),
        ensures
            r == self.disk(fs).2.len(),
    {
        fs.disk_inode(self.get_inode_id(fs)).size() as u64
    }
}

/// The bytes of the entry for `name` and `inode_id`.
fn dirent_new(name: &[u8], inode_id: u32) -> (r: Vec<u8>)
    requires
        name@.len() <= NAME_LENGTH_LIMIT,
    ensures
        r@ == encode_entry(name@, inode_id),
{
    let mut v: Vec<u8> = Vec::new();
    let mut k: usize = 0;
    while k < name.len()
        invariant
            k <= name@.len(),
            v@ == name@.take(k as int),
        decreases name@.len() - k,
    {
        v.push(name[k]);
        proof { assert(v@ =~= name@.take(k + 1)); }
        k = k + 1;
    }
    while v.len() < 28
        invariant
            name@.len() <= v@.len() <= 28,
            v@ == name@ + Seq::new((v@.len() - name@.len()) as nat, |j: int| 0u8),
        decreases 28 - v@.len(),
    {
        v.push(0u8);
        proof { assert(v@ =~= name@ + Seq::new((v@.len() - name@.len()) as nat, |j: int| 0u8)); }
    }
    v.push((inode_id & 0xff) as u8);
    v.push(((inode_id >> 8u32) & 0xff) as u8);
    v.push(((inode_id >> 16u32) & 0xff) as u8);
    v.push(((inode_id >> 24u32) & 0xff) as u8);
    proof { assert(v@ =~= encode_entry(name@, inode_id)); }
    v
}

/// The bytes of a new directory: the entry "." for the directory itself
/// and the entry ".." for its parent.
pub open spec fn dot_entries(self_id: u32, parent_id: u32) -> Seq<u8> {
    encode_entry(seq![46u8], self_id) + encode_entry(seq![46u8, 46u8], parent_id)
}

/// A new directory is well formed and lists "." and "..".
pub proof fn lemma_dot_entries(self_id: u32, parent_id: u32)
    ensures
        dir_wf(dot_entries(self_id, parent_id)),
        dir_entries(dot_entries(self_id, parent_id)) == seq![(seq![46u8], self_id), (seq![46u8, 46u8], parent_id)],
        names_distinct(dir_entries(dot_entries(self_id, parent_id))),
{
    let d = dot_entries(self_id, parent_id);
    let n1 = seq![46u8];
    let n2 = seq![46u8, 46u8];
    assert(no_zero(n1));
    assert(no_zero(n2));
    lemma_encode_entry(n1, self_id);
    lemma_encode_entry(n2, parent_id);
    assert(entry_bytes(d, 0) =~= encode_entry(n1, self_id));
    assert(entry_bytes(d, 1) =~= encode_entry(n2, parent_id));
    assert(valid_utf8(n1)) by { reveal_with_fuel(valid_utf8, 3); }
    assert(valid_utf8(n2)) by { reveal_with_fuel(valid_utf8, 4); }
    assert(dir_entries(d) =~= seq![(n1, self_id), (n2, parent_id)]);
    assert(n1.len() != n2.len());
}

/// The directory after an entry is written behind its last whole entry.
pub open spec fn dir_with_entry(data: Seq<u8>, name: Seq<u8>, id: u32) -> Seq<u8> {
    data.take(entry_count(data) * 32) + encode_entry(name, id)
}

/// Adds the entry `name -> inode_id` behind the last whole entry of
/// directory `dir_id`.
fn push_dirent(fs: &mut EasyFileSystem, dir_id: u32, name: &str, inode_id: u32)
    requires
        old(fs).wf(),
        dir_id < old(fs)@.len(),
        old(fs)@[dir_id as int].0 == DiskInodeType::Directory,
        name_bytes(name).len() <= NAME_LENGTH_LIMIT,
        inode_id < old(fs)@.len(),
        entry_count(old(fs)@[dir_id as int].2) * 32 + 32 <= MAX_FILE_SIZE,
    ensures
        final(fs).wf(),
        final(fs).start() == old(fs).start(),
        final(fs)@ == old(fs)@.update(dir_id as int, (DiskInodeType::Directory, old(fs)@[dir_id as int].1,
            dir_with_entry(old(fs)@[dir_id as int].2, name_bytes(name), inode_id))),
        dir_entries(final(fs)@[dir_id as int].2) == dir_entries(old(fs)@[dir_id as int].2).push(
            (entry_name(encode_entry(name_bytes(name), inode_id)), inode_id)),
        no_zero(name_bytes(name)) ==> entry_name(encode_entry(name_bytes(name), inode_id)) == name_bytes(name),
{
    let nb = name.as_bytes();
    let dirent = dirent_new(nb, inode_id);
    let di = fs.disk_inode_mut(dir_id);
    let file_count = di.size() / DIRENT_SZ;
    let new_size = (file_count + 1) * DIRENT_SZ;
    di.increase_size(new_size as u32);
    di.write_at(file_count * DIRENT_SZ, dirent.as_slice());
    proof {
        let d0 = old(fs)@[dir_id as int].2;
        vstd::utf8::encode_utf8_valid_utf8(name@);
        lemma_encoded_entry_wf(nb@, inode_id);
        lemma_dir_append(d0, encode_entry(nb@, inode_id));
        let grown = if new_size <= d0.len() { d0 } else { d0 + Seq::new((new_size - d0.len()) as nat, |j: int| 0u8) };
        assert(fs@[dir_id as int].2 =~= dir_with_entry(d0, nb@, inode_id));
        old(fs).lemma_update_wf(fs, dir_id as int);
    }
}

/// `n` zero bytes.
fn zero_bytes(n: usize) -> (r: Vec<u8>)
    ensures
        r@ == Seq::new(n as nat, |j: int| 0u8),
{
    let mut v: Vec<u8> = Vec::new();
    while v.len() < n
        invariant
            v@.len() <= n,
            v@ == Seq::new(v@.len(), |j: int| 0u8),
        decreases n - v@.len(),
    {
        v.push(0u8);
        proof { assert(v@ =~= Seq::new(v@.len(), |j: int| 0u8)); }
    }
    v
}

/// Whether the name stored in an entry is `name`.
fn dirent_name_eq(dirent: &Vec<u8>, name: &[u8]) -> (r: bool)
    requires
        dirent@.len() == DIRENT_SZ,
    ensures
        r == (entry_name(dirent@) == name@),
{
    let mut len: usize = 0;
    while len < 28 && dirent[len] != 0
        invariant
            len <= 28,
            dirent@.len() == DIRENT_SZ,
            first_zero_from(dirent@, 0) == first_zero_from(dirent@, len as int),
        decreases 28 - len,
    {
        len = len + 1;
    }
    proof { assert(name_len(dirent@) == len); }
    if len != name.len() {
        proof { assert(entry_name(dirent@).len() != name@.len()); }
        return false;
    }
    let mut k: usize = 0;
    while k < len
        invariant
            k <= len,
            len == name@.len(),
            len <= 28,
            name_len(dirent@) == len,
            dirent@.len() == DIRENT_SZ,
            forall|j: int| 0 <= j < k ==> dirent@[j] == name@[j],
        decreases len - k,
    {
        if dirent[k] != name[k] {
            proof {
                assert(dirent@.take(len as int)[k as int] != name@[k as int]);
                assert(entry_name(dirent@) == dirent@.take(len as int));
                assert(entry_name(dirent@) != name@);
            }
            return false;
        }
        k = k + 1;
    }
    proof { assert(dirent@.take(len as int) =~= name@); }
    true
}

/// The inode number stored in an entry.
fn dirent_inode(dirent: &Vec<u8>) -> (r: u32)
    requires
        dirent@.len() == DIRENT_SZ,
    ensures
        r == entry_inode(dirent@),
{
    (dirent[28] as u32) | ((dirent[29] as u32) << 8u32) | ((dirent[30] as u32) << 16u32) | ((dirent[31] as u32) << 24u32)
}

/// A directory grown with zeros to at least `size` bytes.
pub open spec fn grown(data: Seq<u8>, size: int) -> Seq<u8> {
    if size <= data.len() {
        data
    } else {
        data + Seq::new((size - data.len()) as nat, |j: int| 0u8)
    }
}

/// The directory after entry `idx` is removed: the last entry moves into
/// its place and the last 32 bytes go.
pub open spec fn dir_without_entry(data: Seq<u8>, idx: int) -> Seq<u8> {
    let fc = entry_count(data);
    let moved = if idx == fc - 1 { data } else { splice_bytes(data, idx * 32, entry_bytes(data, fc - 1)) };
    moved.take(data.len() - 32)
}

/// Unlinking a file found under the name needs a link to drop.
pub open spec fn unlink_nlink_ok(fs: &EasyFileSystem, entries: Seq<(Seq<u8>, u32)>, name: Seq<u8>) -> bool {
    match lookup(entries, name) {
        Some(t) => fs@[t as int].0 != DiskInodeType::Directory ==> fs@[t as int].1 > 0,
        None => true,
    }
}

/// The inodes after an entry `name` for inode `id` is added to directory
/// `dir` and the link count of `id` grows.
pub open spec fn link_spec(
    inodes: Seq<(DiskInodeType, u32, Seq<u8>)>,
    dir: int,
    name: Seq<u8>,
    id: int,
) -> Seq<(DiskInodeType, u32, Seq<u8>)> {
    let i1 = inodes.update(dir, (DiskInodeType::Directory, inodes[dir].1, dir_with_entry(inodes[dir].2, name, id as u32)));
    i1.update(id, (i1[id].0, (i1[id].1 + 1) as u32, i1[id].2))
}

/// The inodes after the file found under `name` in directory `dir` is
/// unlinked: the entry goes, the link count drops, and a file left with no
/// link loses its bytes.
pub open spec fn unlink_spec(
    inodes: Seq<(DiskInodeType, u32, Seq<u8>)>,
    dir: int,
    entries: Seq<(Seq<u8>, u32)>,
    name: Seq<u8>,
) -> Seq<(DiskInodeType, u32, Seq<u8>)> {
    let t = lookup(entries, name)->0 as int;
    let i1 = inodes.update(dir, (DiskInodeType::Directory, inodes[dir].1, dir_without_entry(
        inodes[dir].2,
        lookup_index(entries, name)->0,
    )));
    let n = (i1[t].1 - 1) as u32;
    i1.update(t, (i1[t].0, n, if n == 0 { Seq::empty() } else { i1[t].2 }))
}

/// The bytes of the name stored in an entry.
fn dirent_name(dirent: &Vec<u8>) -> (r: Vec<u8>)
    requires
        dirent@.len() == DIRENT_SZ,
    ensures
        r@ == entry_name(dirent@),
{
    let mut len: usize = 0;
    while len < 28 && dirent[len] != 0
        invariant
            len <= 28,
            dirent@.len() == DIRENT_SZ,
            first_zero_from(dirent@, 0) == first_zero_from(dirent@, len as int),
        decreases 28 - len,
    {
        len = len + 1;
    }
    let mut v: Vec<u8> = Vec::new();
    let mut k: usize = 0;
    while k < len
        invariant
            k <= len <= 28,
            dirent@.len() == DIRENT_SZ,
            v@ == dirent@.take(k as int),
        decreases len - k,
    {
        v.push(dirent[k]);
        proof { assert(v@ =~= dirent@.take(k + 1)); }
        k = k + 1;
    }
    v
}

/// Calls `String::from_utf8`, which gives a string of the bytes exactly when
/// they are UTF-8.
#[verifier::external_body]
fn string_from_utf8(bytes: Vec<u8>) -> (r: Option<String>)
    ensures
        r is Some <==> valid_utf8(bytes@),
        r is Some ==> r->0@ == decode_utf8(bytes@),
{
    match String::from_utf8(bytes) {
        Ok(s) => Some(s),
        Err(_) => None,
    }
}

/// The first index at or after `k` whose character is not `/`, or the length.
pub open spec fn first_kept(s: Seq<char>, k: int) -> int
    decreases s.len() - k,
{
    if k >= s.len() || k < 0 {
        s.len() as int
    } else if s[k] != '/' {
        k
    } else {
        first_kept(s, k + 1)
    }
}

/// One past the last index below `k` whose character is not `/`, or 0.
pub open spec fn end_kept(s: Seq<char>, k: int) -> int
    decreases k,
{
    if k <= 0 || k > s.len() {
        0
    } else if s[k - 1] != '/' {
        k
    } else {
        end_kept(s, k - 1)
    }
}

/// The index of the last `/` below `k`.
pub open spec fn last_slash(s: Seq<char>, k: int) -> Option<int>
    decreases k,
{
    if k <= 0 || k > s.len() {
        None
    } else if s[k - 1] == '/' {
        Some(k - 1)
    } else {
        last_slash(s, k - 1)
    }
}

/// The path with every `/` at either end removed.
pub open spec fn trim_slashes(s: Seq<char>) -> Seq<char> {
    let lo = first_kept(s, 0);
    let hi = end_kept(s, s.len() as int);
    if lo < hi {
        s.subrange(lo, hi)
    } else {
        Seq::empty()
    }
}

/// The parent directory path (with a leading `/`) and the file name of a
/// path; `None` for a path of slashes only.
pub open spec fn parse_path_spec(path: Seq<char>) -> Option<(Seq<char>, Seq<char>)> {
    let t = trim_slashes(path);
    if t.len() == 0 {
        None
    } else {
        match last_slash(t, t.len() as int) {
            Some(i) => {
                let file = t.subrange(i + 1, t.len() as int);
                if file.len() == 0 {
                    None
                } else {
                    Some((seq!['/'] + t.subrange(0, i), file))
                }
            },
            None => Some((seq!['/'], t)),
        }
    }
}

/// Calls `String::push`, which appends the character.
#[verifier::external_body]
pub(crate) fn string_push(s: &mut String, c: char)
    ensures
        final(s)@ == old(s)@.push(c),
{
    s.push(c);
}

fn chars_of(path: &str) -> (r: Vec<char>)
    ensures
        r@ == path@,
{
    let mut cs: Vec<char> = Vec::new();
    for c in it: path.chars()
        invariant
            cs@ == it.seq().take(it.index() as int),
    {
        cs.push(c);
    }
    cs
}

/// After an entry for `name` is added to a directory that had none, looking
/// `name` up finds it, and every other name is found as before.
pub proof fn lemma_find_after_add(data: Seq<u8>, name: Seq<u8>, id: u32, other: Seq<u8>)
    requires
        lookup(dir_entries(data), name) is None,
        name.len() <= NAME_LENGTH_LIMIT,
        no_zero(name),
    ensures
        lookup(dir_entries(dir_with_entry(data, name, id)), name) == Some(id),
        other != name ==> lookup(dir_entries(dir_with_entry(data, name, id)), other) == lookup(dir_entries(data), other),
{
    lemma_encode_entry(name, id);
    lemma_dir_append(data, encode_entry(name, id));
    lemma_lookup_push(dir_entries(data), (name, id), name);
    lemma_lookup_push(dir_entries(data), (name, id), other);
}

/// Adding an entry under a name that no entry has, and that holds no zero
/// byte, and then removing that name again, gives back the entries of the
/// directory, and its bytes up to its last whole entry: all of them when it
/// held whole entries only.
pub proof fn lemma_remove_undoes_add(data: Seq<u8>, name: Seq<u8>, id: u32)
    requires
        lookup(dir_entries(data), name) is None,
        name.len() <= NAME_LENGTH_LIMIT,
        no_zero(name),
    ensures
        ({
            let d2 = dir_with_entry(data, name, id);
            let d3 = dir_without_entry(d2, lookup_index(dir_entries(d2), name)->0);
            &&& lookup(dir_entries(d2), name) == Some(id)
            &&& lookup_index(dir_entries(d2), name) == Some(entry_count(data))
            &&& d3 == data.take(entry_count(data) * 32)
            &&& dir_entries(d3) == dir_entries(data)
            &&& data.len() % 32 == 0 ==> d3 == data
        }),
{
    let fc = entry_count(data);
    let d2 = dir_with_entry(data, name, id);
    lemma_encode_entry(name, id);
    lemma_dir_append(data, encode_entry(name, id));
    let entries = dir_entries(data);
    let entries2 = dir_entries(d2);
    assert(entries2 == entries.push((name, id)));
    lemma_lookup(entries, name);
    lemma_lookup(entries2, name);
    assert(entries2[fc] == (name, id));
    assert(lookup_index(entries2, name) == Some(fc)) by {
        match lookup_index(entries2, name) {
            Some(k) => {
                if k < fc {
                    assert(entries2[k] == entries[k]);
                }
                if k > fc {
                    assert(entries2[fc].0 == name);
                }
            },
            None => {
                assert(entries2[fc].0 == name);
            },
        }
    }
    let d3 = dir_without_entry(d2, fc);
    assert(d3 =~= data.take(fc * 32));
    assert forall|k: int| 0 <= k < fc implies entry_bytes(d3, k) == entry_bytes(data, k) by {
        assert(entry_bytes(d3, k) =~= entry_bytes(data, k));
    }
    assert(dir_entries(d3) =~= entries);
    if data.len() % 32 == 0 {
        assert(d3 =~= data);
    }
}

/// Linking a new name to a file and unlinking that name again gives back
/// the inodes there were, but that the directory keeps its bytes up to its
/// last whole entry only: its entries are those it had, and when it held
/// whole entries only, every inode is as it was. The file needs a link.
pub proof fn lemma_unlink_undoes_link(inodes: Seq<(DiskInodeType, u32, Seq<u8>)>, dir: int, name: Seq<u8>, id: int)
    requires
        0 <= dir < inodes.len(),
        0 <= id < inodes.len(),
        dir != id,
        inodes[dir].0 == DiskInodeType::Directory,
        lookup(dir_entries(inodes[dir].2), name) is None,
        name.len() <= NAME_LENGTH_LIMIT,
        no_zero(name),
        0 < inodes[id].1 < u32::MAX,
        id <= u32::MAX,
    ensures
        ({
            let linked = link_spec(inodes, dir, name, id);
            let data = inodes[dir].2;
            let r = unlink_spec(linked, dir, dir_entries(linked[dir].2), name);
            &&& lookup(dir_entries(linked[dir].2), name) == Some(id as u32)
            &&& r == inodes.update(dir, (DiskInodeType::Directory, inodes[dir].1, data.take(entry_count(data) * 32)))
            &&& dir_entries(r[dir].2) == dir_entries(data)
            &&& data.len() % 32 == 0 ==> r == inodes
        }),
{
    let data = inodes[dir].2;
    let linked = link_spec(inodes, dir, name, id);
    assert(linked[dir].2 == dir_with_entry(data, name, id as u32));
    lemma_remove_undoes_add(data, name, id as u32);
    let r = unlink_spec(linked, dir, dir_entries(linked[dir].2), name);
    assert(r =~= inodes.update(dir, (DiskInodeType::Directory, inodes[dir].1, data.take(entry_count(data) * 32))));
    if data.len() % 32 == 0 {
        assert(r =~= inodes);
    }
}

/// No two entries of a directory have the same name.
pub open spec fn names_distinct(entries: Seq<(Seq<u8>, u32)>) -> bool {
    forall|i: int, j: int| 0 <= i < j < entries.len() ==> #[trigger] entries[i].0 != #[trigger] entries[j].0
}

/// No directory among the inodes has two entries with the same name.
pub open spec fn dirs_distinct(inodes: Seq<(DiskInodeType, u32, Seq<u8>)>) -> bool {
    forall|i: int| #![trigger inodes[i]]
        0 <= i < inodes.len() && inodes[i].0 == DiskInodeType::Directory ==> names_distinct(dir_entries(inodes[i].2))
}

/// Replacing an inode by one that is no directory, or a directory with
/// distinct names, keeps the names of every directory distinct.
proof fn lemma_dirs_distinct_update(inodes: Seq<(DiskInodeType, u32, Seq<u8>)>, i: int, x: (DiskInodeType, u32, Seq<u8>))
    requires
        dirs_distinct(inodes),
        0 <= i < inodes.len(),
        x.0 == DiskInodeType::Directory ==> names_distinct(dir_entries(x.2)),
    ensures
        dirs_distinct(inodes.update(i, x)),
{
    let u = inodes.update(i, x);
    assert forall|j: int| 0 <= j < u.len() && u[j].0 == DiskInodeType::Directory implies names_distinct(dir_entries(u[j].2)) by {
        if j != i {
            assert(u[j] == inodes[j]);
        }
    }
}

/// Adding an inode that is no directory, or a directory with distinct
/// names, keeps the names of every directory distinct.
proof fn lemma_dirs_distinct_push(inodes: Seq<(DiskInodeType, u32, Seq<u8>)>, x: (DiskInodeType, u32, Seq<u8>))
    requires
        dirs_distinct(inodes),
        x.0 == DiskInodeType::Directory ==> names_distinct(dir_entries(x.2)),
    ensures
        dirs_distinct(inodes.push(x)),
{
    let u = inodes.push(x);
    assert forall|j: int| 0 <= j < u.len() && u[j].0 == DiskInodeType::Directory implies names_distinct(dir_entries(u[j].2)) by {
        if j < inodes.len() {
            assert(u[j] == inodes[j]);
        }
    }
}

/// Adding an entry under a new name that holds no zero byte to directory
/// `dir` keeps the names of every directory distinct.
proof fn lemma_dirs_distinct_add(inodes: Seq<(DiskInodeType, u32, Seq<u8>)>, dir: int, n: u32, name: Seq<u8>, id: u32)
    requires
        dirs_distinct(inodes),
        0 <= dir < inodes.len(),
        inodes[dir].0 == DiskInodeType::Directory,
        lookup(dir_entries(inodes[dir].2), name) is None,
        name.len() <= NAME_LENGTH_LIMIT,
        no_zero(name),
    ensures
        dirs_distinct(inodes.update(dir, (DiskInodeType::Directory, n, dir_with_entry(inodes[dir].2, name, id)))),
{
    assert(names_distinct(dir_entries(inodes[dir].2)));
    lemma_add_keeps_names_distinct(inodes[dir].2, name, id);
    lemma_dirs_distinct_update(inodes, dir, (DiskInodeType::Directory, n, dir_with_entry(inodes[dir].2, name, id)));
}

/// Linking a new name that holds no zero byte keeps the names of every
/// directory distinct.
proof fn lemma_dirs_distinct_link(inodes: Seq<(DiskInodeType, u32, Seq<u8>)>, dir: int, name: Seq<u8>, id: int)
    requires
        dirs_distinct(inodes),
        0 <= dir < inodes.len(),
        0 <= id < inodes.len(),
        inodes[dir].0 == DiskInodeType::Directory,
        lookup(dir_entries(inodes[dir].2), name) is None,
        name.len() <= NAME_LENGTH_LIMIT,
        no_zero(name),
    ensures
        dirs_distinct(link_spec(inodes, dir, name, id)),
{
    lemma_dirs_distinct_add(inodes, dir, inodes[dir].1, name, id as u32);
    let i1 = inodes.update(dir, (DiskInodeType::Directory, inodes[dir].1, dir_with_entry(inodes[dir].2, name, id as u32)));
    assert(i1[id].0 == DiskInodeType::Directory ==> names_distinct(dir_entries(i1[id].2)));
    lemma_dirs_distinct_update(i1, id, (i1[id].0, (i1[id].1 + 1) as u32, i1[id].2));
}

/// Unlinking a name found in directory `dir` keeps the names of every
/// directory distinct.
proof fn lemma_dirs_distinct_unlink(inodes: Seq<(DiskInodeType, u32, Seq<u8>)>, dir: int, name: Seq<u8>)
    requires
        dirs_distinct(inodes),
        0 <= dir < inodes.len(),
        inodes[dir].0 == DiskInodeType::Directory,
        lookup(dir_entries(inodes[dir].2), name) is Some,
        lookup(dir_entries(inodes[dir].2), name)->0 < inodes.len(),
    ensures
        dirs_distinct(unlink_spec(inodes, dir, dir_entries(inodes[dir].2), name)),
{
    let entries = dir_entries(inodes[dir].2);
    lemma_lookup(entries, name);
    let idx = lookup_index(entries, name)->0;
    assert(names_distinct(dir_entries(inodes[dir].2)));
    lemma_remove_keeps_names_distinct(inodes[dir].2, idx);
    let i1 = inodes.update(dir, (DiskInodeType::Directory, inodes[dir].1, dir_without_entry(inodes[dir].2, idx)));
    lemma_dirs_distinct_update(inodes, dir, i1[dir]);
    let t = lookup(entries, name)->0 as int;
    let n = (i1[t].1 - 1) as u32;
    assert(dir_entries(Seq::<u8>::empty()) =~= Seq::<(Seq<u8>, u32)>::empty());
    assert(i1[t].0 == DiskInodeType::Directory ==> names_distinct(dir_entries(i1[t].2)));
    lemma_dirs_distinct_update(i1, t, (i1[t].0, n, if n == 0 { Seq::empty() } else { i1[t].2 }));
}

/// Adding an entry under a name that no entry has, and that holds no zero
/// byte, keeps the names of a directory distinct.
pub proof fn lemma_add_keeps_names_distinct(data: Seq<u8>, name: Seq<u8>, id: u32)
    requires
        names_distinct(dir_entries(data)),
        lookup(dir_entries(data), name) is None,
        name.len() <= NAME_LENGTH_LIMIT,
        no_zero(name),
    ensures
        names_distinct(dir_entries(dir_with_entry(data, name, id))),
{
    lemma_encode_entry(name, id);
    lemma_dir_append(data, encode_entry(name, id));
    lemma_lookup(dir_entries(data), name);
    let e = dir_entries(data);
    let e2 = dir_entries(dir_with_entry(data, name, id));
    assert forall|i: int, j: int| 0 <= i < j < e2.len() implies #[trigger] e2[i].0 != #[trigger] e2[j].0 by {
        if j < e.len() {
            assert(e2[i] == e[i] && e2[j] == e[j]);
        } else {
            assert(e2[i] == e[i]);
            assert(e2[j].0 == name);
        }
    }
}

/// Removing an entry keeps the names of a directory distinct.
pub proof fn lemma_remove_keeps_names_distinct(data: Seq<u8>, idx: int)
    requires
        names_distinct(dir_entries(data)),
        0 <= idx < entry_count(data),
    ensures
        names_distinct(dir_entries(dir_without_entry(data, idx))),
{
    lemma_dir_remove(data, idx);
    let e = dir_entries(data);
    let last = entry_count(data) - 1;
    let e2 = dir_entries(dir_without_entry(data, idx));
    assert(e2 == e.update(idx, e[last]).drop_last());
    assert forall|i: int, j: int| 0 <= i < j < e2.len() implies #[trigger] e2[i].0 != #[trigger] e2[j].0 by {
        let a = if i == idx { last } else { i };
        let b = if j == idx { last } else { j };
        assert(e2[i] == e[a]);
        assert(e2[j] == e[b]);
        assert(a != b);
        if a < b {
            assert(e[a].0 != e[b].0);
        } else {
            assert(e[b].0 != e[a].0);
        }
    }
}

} // verus!
