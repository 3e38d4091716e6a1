use std::collections::VecDeque;

use rcore_os::fs::file::{open_file, File, OSInode, OpenFlags, Stat, S_IFDIR, S_IFREG, STAT_SIZE};
use rcore_os::fs::layout::{DiskInode, DiskInodeType, EasyFileSystem};
use rcore_os::fs::vfs::Inode;

fn fresh() -> (EasyFileSystem, Inode) {
    let fs = EasyFileSystem::create(10);
    let root = Inode::root_inode(&fs);
    (fs, root)
}

fn read_all(inode: &Inode, fs: &EasyFileSystem, offset: usize, len: usize) -> Vec<u8> {
    let mut buf = vec![0u8; len];
    let n = inode.read_at(fs, offset, &mut buf);
    buf.truncate(n);
    buf
}

#[test]
fn a_new_file_system_holds_the_root_directory() {
    let (fs, root) = fresh();
    assert_eq!(fs.inode_count(), 1);
    assert_eq!(root.get_inode_id(&fs), 0);
    assert!(root.is_dir(&fs));
    assert!(!root.is_file(&fs));
    assert_eq!(root.get_size(&fs), 0);
    assert!(root.ls(&fs).is_empty());
    assert_eq!(fs.get_disk_inode_pos(0), (10, 0));
}

#[test]
fn disk_inode_positions_and_numbers() {
    let fs = EasyFileSystem::create(100);
    assert_eq!(fs.get_disk_inode_pos(5), (101, 128));
    assert_eq!(fs.get_disk_inode_pos(7), (101, 384));
    assert_eq!(fs.get_inode_id(101, 128), 5);
    assert_eq!(fs.get_inode_id(103, 0), 12);
    for id in [0u32, 1, 4, 9, 1023] {
        let (b, o) = fs.get_disk_inode_pos(id);
        assert_eq!(fs.get_inode_id(b, o), id);
    }
}

#[test]
fn create_then_find() {
    let (mut fs, root) = fresh();
    let a = root.create(&mut fs, "a").unwrap();
    assert_eq!(a.get_inode_id(&fs), 1);
    assert!(a.is_file(&fs));
    assert_eq!(a.get_nlink(&fs), 1);
    assert_eq!(a.get_size(&fs), 0);
    assert_eq!(root.find(&fs, "a").unwrap().get_inode_id(&fs), 1);
    assert!(root.find(&fs, "b").is_none());
    assert!(root.create(&mut fs, "a").is_none());
    let b = root.create(&mut fs, "b").unwrap();
    assert_eq!(b.get_inode_id(&fs), 2);
    assert_eq!(root.ls(&fs), vec!["a".to_string(), "b".to_string()]);
    assert_eq!(root.get_size(&fs), 64);
    let di: &DiskInode = fs.disk_inode(0);
    assert_eq!(root.find_inode_id("b", di), Some(2));
    assert_eq!(root.find_inode_id("c", di), None);
}

#[test]
fn names_up_to_the_limit() {
    let (mut fs, root) = fresh();
    let long = "abcdefghijklmnopqrstuvwxyz0";
    assert_eq!(long.len(), 27);
    root.create(&mut fs, long).unwrap();
    assert!(root.find(&fs, long).is_some());
    assert!(root.find(&fs, "abcdefghijklmnopqrstuvwxyz").is_none());
    root.create(&mut fs, "\u{e9}t\u{e9}").unwrap();
    assert_eq!(root.ls(&fs)[1], "\u{e9}t\u{e9}");
}

#[test]
fn write_then_read() {
    let (mut fs, root) = fresh();
    let f = root.create(&mut fs, "f").unwrap();
    assert_eq!(f.write_at(&mut fs, 0, b"hello"), 5);
    assert_eq!(f.get_size(&fs), 5);
    assert_eq!(read_all(&f, &fs, 0, 5), b"hello".to_vec());
    assert_eq!(read_all(&f, &fs, 3, 10), b"lo".to_vec());
    assert_eq!(read_all(&f, &fs, 5, 10), Vec::<u8>::new());
    assert_eq!(read_all(&f, &fs, 50, 10), Vec::<u8>::new());
    // a write past the end fills the gap with zeros
    assert_eq!(f.write_at(&mut fs, 8, b"xy"), 2);
    assert_eq!(read_all(&f, &fs, 0, 100), b"hello\0\0\0xy".to_vec());
    // a write inside overwrites
    assert_eq!(f.write_at(&mut fs, 1, b"EL"), 2);
    assert_eq!(read_all(&f, &fs, 0, 5), b"hELlo".to_vec());
    f.clear(&mut fs);
    assert_eq!(f.get_size(&fs), 0);
    assert_eq!(read_all(&f, &fs, 0, 5), Vec::<u8>::new());
}

#[test]
fn read_leaves_the_buffer_tail_alone() {
    let (mut fs, root) = fresh();
    let f = root.create(&mut fs, "f").unwrap();
    f.write_at(&mut fs, 0, b"ab");
    let mut buf = [9u8; 4];
    assert_eq!(f.read_at(&fs, 0, &mut buf), 2);
    assert_eq!(buf, [b'a', b'b', 9, 9]);
}

#[test]
fn hard_links_share_the_inode() {
    let (mut fs, root) = fresh();
    let a = root.create(&mut fs, "a").unwrap();
    a.write_at(&mut fs, 0, b"data");
    let b = root.create_hardlink(&mut fs, "b", &a).unwrap();
    assert_eq!(b.get_inode_id(&fs), a.get_inode_id(&fs));
    assert_eq!(a.get_nlink(&fs), 2);
    assert_eq!(root.find(&fs, "b").unwrap().get_inode_id(&fs), 1);
    assert_eq!(read_all(&root.find(&fs, "b").unwrap(), &fs, 0, 4), b"data".to_vec());
    assert_eq!(root.ls(&fs), vec!["a".to_string(), "b".to_string()]);
    // the name is taken
    assert!(root.create_hardlink(&mut fs, "a", &a).is_none());
    // a directory gets no link
    let d = root.create_dir(&mut fs, "d").unwrap();
    assert!(root.create_hardlink(&mut fs, "e", &d).is_none());
    assert!(root.find(&fs, "e").is_none());
}

#[test]
fn unlink_drops_a_link_and_the_last_one_the_bytes() {
    let (mut fs, root) = fresh();
    let a = root.create(&mut fs, "a").unwrap();
    a.write_at(&mut fs, 0, b"data");
    root.create_hardlink(&mut fs, "b", &a).unwrap();
    assert_eq!(root.unlink(&mut fs, "b"), 0);
    assert_eq!(a.get_nlink(&fs), 1);
    assert!(root.find(&fs, "b").is_none());
    assert_eq!(a.get_size(&fs), 4);
    assert_eq!(root.unlink(&mut fs, "b"), -1);
    assert_eq!(root.unlink(&mut fs, "a"), 0);
    assert_eq!(a.get_nlink(&fs), 0);
    assert_eq!(a.get_size(&fs), 0);
    assert!(root.ls(&fs).is_empty());
}

#[test]
fn unlink_refuses_directories() {
    let (mut fs, root) = fresh();
    root.create_dir(&mut fs, "d").unwrap();
    assert_eq!(root.unlink(&mut fs, "d"), -1);
    assert!(root.find(&fs, "d").is_some());
}

#[test]
fn link_then_unlink_gives_back_the_directory() {
    let (mut fs, root) = fresh();
    let a = root.create(&mut fs, "a").unwrap();
    let before = root.ls(&fs);
    root.create_hardlink(&mut fs, "b", &a).unwrap();
    assert_eq!(root.unlink(&mut fs, "b"), 0);
    assert_eq!(root.ls(&fs), before);
    assert_eq!(root.get_size(&fs), 32);
    assert_eq!(a.get_nlink(&fs), 1);
}

#[test]
fn create_dir_makes_a_directory() {
    let (mut fs, root) = fresh();
    let d = root.create_dir(&mut fs, "d").unwrap();
    assert!(d.is_dir(&fs));
    assert_eq!(d.get_nlink(&fs), 2);
    assert_eq!(d.get_size(&fs), 64);
    assert_eq!(d.ls(&fs), vec![".".to_string(), "..".to_string()]);
    assert_eq!(d.find(&fs, ".").unwrap().get_inode_id(&fs), 1);
    assert_eq!(d.find(&fs, "..").unwrap().get_inode_id(&fs), 0);
    assert_eq!(root.find(&fs, "d").unwrap().get_inode_id(&fs), 1);
    assert!(root.create_dir(&mut fs, "d").is_none());
    // a file in the new directory
    let f = d.create(&mut fs, "inner").unwrap();
    assert_eq!(d.find(&fs, "inner").unwrap().get_inode_id(&fs), f.get_inode_id(&fs));
    assert_eq!(d.ls(&fs), vec![".".to_string(), "..".to_string(), "inner".to_string()]);
    // a directory inside the new one names it as its parent
    let e = d.create_dir(&mut fs, "e").unwrap();
    assert_eq!(e.find(&fs, "..").unwrap().get_inode_id(&fs), d.get_inode_id(&fs));
    assert!(root.find(&fs, "inner").is_none());
}

#[test]
fn removing_an_entry_moves_the_last_one_into_its_place() {
    let (mut fs, root) = fresh();
    root.create(&mut fs, "a").unwrap();
    root.create(&mut fs, "b").unwrap();
    root.create(&mut fs, "c").unwrap();
    assert_eq!(root.remove_dir_entry(&mut fs, "a"), Some(()));
    assert_eq!(root.ls(&fs), vec!["c".to_string(), "b".to_string()]);
    assert_eq!(root.remove_dir_entry(&mut fs, "a"), None);
    assert_eq!(root.remove_dir_entry(&mut fs, "b"), Some(()));
    assert_eq!(root.ls(&fs), vec!["c".to_string()]);
    // a file is no directory
    let c = root.find(&fs, "c").unwrap();
    assert_eq!(c.remove_dir_entry(&mut fs, "x"), None);
}

#[test]
fn add_dir_entry_refuses_a_taken_name() {
    let (mut fs, root) = fresh();
    root.create(&mut fs, "a").unwrap();
    assert_eq!(root.add_dir_entry(&mut fs, "a", 0), None);
    assert_eq!(root.add_dir_entry(&mut fs, "z", 1), Some(()));
    assert_eq!(root.find(&fs, "z").unwrap().get_inode_id(&fs), 1);
}

#[test]
fn remove_dir_entry_undoes_add_dir_entry() {
    let (mut fs, root) = fresh();
    root.create(&mut fs, "a").unwrap();
    root.create(&mut fs, "b").unwrap();
    let before = root.ls(&fs);
    assert_eq!(root.add_dir_entry(&mut fs, "x", 1), Some(()));
    assert_eq!(root.remove_dir_entry(&mut fs, "x"), Some(()));
    assert_eq!(root.ls(&fs), before);
    assert_eq!(root.get_size(&fs), 64);
    // a partial entry at the end is not kept
    assert_eq!(root.write_at(&mut fs, 64, &[7u8; 5]), 5);
    assert_eq!(root.add_dir_entry(&mut fs, "y", 2), Some(()));
    assert_eq!(root.remove_dir_entry(&mut fs, "y"), Some(()));
    assert_eq!(root.ls(&fs), before);
    assert_eq!(root.get_size(&fs), 64);
}

#[test]
fn directory_names_stay_distinct() {
    let (mut fs, root) = fresh();
    let a = root.create(&mut fs, "a").unwrap();
    let d = root.create_dir(&mut fs, "d").unwrap();
    assert!(root.create(&mut fs, "a").is_none());
    assert!(root.create_dir(&mut fs, "d").is_none());
    assert!(root.create_hardlink(&mut fs, "a", &a).is_none());
    assert_eq!(root.add_dir_entry(&mut fs, "d", 0), None);
    assert!(d.create(&mut fs, "a").is_some());
    assert!(d.create_hardlink(&mut fs, "a", &a).is_none());
    assert_eq!(root.unlink(&mut fs, "a"), 0);
    assert!(root.create(&mut fs, "a").is_some());
    for dir in [&root, &d] {
        let mut names = dir.ls(&fs);
        let n = names.len();
        names.sort();
        names.dedup();
        assert_eq!(names.len(), n);
    }
}

#[test]
fn link_counts_move_by_one() {
    let (mut fs, root) = fresh();
    let a = root.create(&mut fs, "a").unwrap();
    a.inc_nlink(&mut fs);
    a.inc_nlink(&mut fs);
    assert_eq!(a.get_nlink(&fs), 3);
    a.dec_nlink(&mut fs);
    assert_eq!(a.get_nlink(&fs), 2);
}

#[test]
fn inode_from_its_position() {
    let (mut fs, root) = fresh();
    root.create(&mut fs, "a").unwrap();
    root.create(&mut fs, "b").unwrap();
    let (block, offset) = fs.get_disk_inode_pos(2);
    let b = Inode::new(block, offset);
    assert_eq!(b.get_inode_id(&fs), 2);
    assert_eq!(root.find(&fs, "b").unwrap().get_inode_id(&fs), b.get_inode_id(&fs));
}

#[test]
fn alloc_inode_numbers_in_order() {
    let mut fs = EasyFileSystem::create(0);
    assert_eq!(fs.alloc_inode(), 1);
    assert_eq!(fs.alloc_inode(), 2);
    assert_eq!(fs.inode_count(), 3);
    assert!(fs.disk_inode(2).is_file());
    assert_eq!(fs.disk_inode(2).size(), 0);
}

#[test]
fn disk_inode_sizes() {
    let mut di = DiskInode { type_: DiskInodeType::File, nlink: 1, data: Vec::new() };
    assert_eq!(di.write_at(0, b"abc"), 0);
    di.increase_size(6);
    assert_eq!(di.size(), 6);
    assert_eq!(di.write_at(2, b"xyz12"), 4);
    let mut buf = [0u8; 8];
    assert_eq!(di.read_at(0, &mut buf), 6);
    assert_eq!(&buf[..6], b"\0\0xyz1");
    di.truncate_size(3);
    assert_eq!(di.size(), 3);
    di.clear_size();
    assert_eq!(di.size(), 0);
    di.initialize(DiskInodeType::Directory);
    assert!(di.is_dir());
}

#[test]
fn parse_path_examples() {
    let p = |s: &str| Inode::parse_path(s);
    assert_eq!(p("file"), Some(("/".to_string(), "file".to_string())));
    assert_eq!(p("/file"), Some(("/".to_string(), "file".to_string())));
    assert_eq!(p("/dir/file"), Some(("/dir".to_string(), "file".to_string())));
    assert_eq!(p("a/b/c"), Some(("/a/b".to_string(), "c".to_string())));
    assert_eq!(p("//a//b//"), Some(("/a/".to_string(), "b".to_string())));
    assert_eq!(p("/"), None);
    assert_eq!(p(""), None);
    assert_eq!(p("///"), None);
}

#[test]
fn open_flags() {
    assert!(OpenFlags::from_bits(0x800).is_none());
    assert!(OpenFlags::from_bits(4).is_none());
    let f = |b: u32| OpenFlags::from_bits(b).unwrap();
    assert_eq!(f(OpenFlags::RDONLY).read_write(), (true, false));
    assert_eq!(f(OpenFlags::WRONLY).read_write(), (false, true));
    assert_eq!(f(OpenFlags::RDWR).read_write(), (true, true));
    assert_eq!(f(OpenFlags::CREATE).read_write(), (true, true));
    assert_eq!(f(OpenFlags::CREATE | OpenFlags::WRONLY).read_write(), (false, true));
    assert!(f(OpenFlags::CREATE | OpenFlags::TRUNC).contains(OpenFlags::TRUNC));
    assert!(!f(OpenFlags::CREATE).contains(OpenFlags::TRUNC));
}

#[test]
fn open_file_finds_creates_and_truncates() {
    let (mut fs, root) = fresh();
    let rd = OpenFlags::from_bits(OpenFlags::RDONLY).unwrap();
    assert!(open_file(&mut fs, &root, "f", rd).is_none());
    let cw = OpenFlags::from_bits(OpenFlags::CREATE | OpenFlags::WRONLY).unwrap();
    let os = open_file(&mut fs, &root, "f", cw).unwrap();
    assert!(!os.readable && os.writable && os.offset == 0);
    assert_eq!(os.inode.get_inode_id(&fs), 1);
    os.inode.write_at(&mut fs, 0, b"abc");
    // opened again for reading: the bytes stay
    let os = open_file(&mut fs, &root, "f", rd).unwrap();
    assert_eq!(os.inode.get_size(&fs), 3);
    // TRUNC empties it
    let t = OpenFlags::from_bits(OpenFlags::TRUNC | OpenFlags::RDWR).unwrap();
    let os = open_file(&mut fs, &root, "f", t).unwrap();
    assert_eq!(os.inode.get_size(&fs), 0);
    // CREATE on a file that exists empties it too
    os.inode.write_at(&mut fs, 0, b"xyz");
    let os = open_file(&mut fs, &root, "f", cw).unwrap();
    assert_eq!(os.inode.get_size(&fs), 0);
    assert_eq!(fs.inode_count(), 2);
}

#[test]
fn files_move_their_offset() {
    let (mut fs, root) = fresh();
    let inode = root.create(&mut fs, "f").unwrap();
    let mut console = Vec::new();
    let mut input = VecDeque::new();
    let mut f = File::Inode(OSInode::new(true, true, inode));
    assert!(f.readable() && f.writable());
    assert_eq!(f.write(&mut fs, &mut console, b"hello"), 5);
    assert_eq!(f.write(&mut fs, &mut console, b" world"), 6);
    assert!(console.is_empty());
    assert_eq!(f.read(&fs, &mut input, 4), Vec::<u8>::new());
    let mut g = File::Inode(OSInode::new(true, false, Inode::new(10, 128)));
    assert!(!g.writable());
    assert_eq!(g.read(&fs, &mut input, 4), b"hell".to_vec());
    assert_eq!(g.read(&fs, &mut input, 100), b"o world".to_vec());
    assert_eq!(g.read(&fs, &mut input, 100), Vec::<u8>::new());
    match g {
        File::Inode(os) => assert_eq!(os.offset, 11),
        _ => unreachable!(),
    }
}

#[test]
fn console_files() {
    let (mut fs, _root) = fresh();
    let mut console = Vec::new();
    let mut input: VecDeque<u8> = VecDeque::new();
    let mut out = File::Stdout;
    let mut inp = File::Stdin;
    assert!(out.writable() && !out.readable());
    assert!(inp.readable() && !inp.writable());
    assert_eq!(out.write(&mut fs, &mut console, b"hi"), 2);
    assert_eq!(out.write(&mut fs, &mut console, b"!"), 1);
    assert_eq!(console, b"hi!".to_vec());
    assert_eq!(inp.read(&fs, &mut input, 1), Vec::<u8>::new());
    input.push_back(b'x');
    input.push_back(b'y');
    assert_eq!(inp.read(&fs, &mut input, 1), vec![b'x']);
    assert_eq!(inp.read(&fs, &mut input, 1), vec![b'y']);
    assert!(input.is_empty());
}

#[test]
fn stat_of_files_and_directories() {
    let (mut fs, root) = fresh();
    let a = root.create(&mut fs, "a").unwrap();
    root.create_hardlink(&mut fs, "b", &a).unwrap();
    let st = OSInode::new(true, false, a).get_stat(&fs);
    assert_eq!(st, Stat { dev: 0, ino: 1, mode: S_IFREG, nlink: 2 });
    let d = root.create_dir(&mut fs, "d").unwrap();
    let st = OSInode::new(true, false, d).get_stat(&fs);
    assert_eq!(st, Stat { dev: 0, ino: 2, mode: S_IFDIR, nlink: 2 });
}

#[test]
fn stat_bytes_are_little_endian_with_padding() {
    let st = Stat { dev: 0x0102, ino: 7, mode: S_IFREG, nlink: 3 };
    let b = st.to_bytes();
    assert_eq!(b.len(), STAT_SIZE);
    assert_eq!(&b[0..8], &[2, 1, 0, 0, 0, 0, 0, 0]);
    assert_eq!(&b[8..16], &[7, 0, 0, 0, 0, 0, 0, 0]);
    assert_eq!(&b[16..20], &0o100000u32.to_le_bytes());
    assert_eq!(&b[20..24], &[3, 0, 0, 0]);
    assert!(b[24..].iter().all(|&x| x == 0));
}
