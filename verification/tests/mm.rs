use rcore_os::mm::address::{PhysPageNum, VirtAddr, VirtPageNum};
use rcore_os::mm::frame::PhysMem;
use rcore_os::mm::memory_set::{map_fresh, unmap_range};
use rcore_os::mm::page_table::PageTable;
use rcore_os::mm::pte::{PTEFlags, PageTableEntry};
use rcore_os::mm::user::{
    read_user_ranges, translated_and_write, translated_byte_buffer, translated_str, write_user_ranges,
    PhysRange,
};

fn flags(bits: u8) -> PTEFlags {
    PTEFlags::from_bits(bits).unwrap()
}

#[test]
fn pte_new_gives_back_its_fields() {
    let e = PageTableEntry::new(PhysPageNum(0x1234), flags(PTEFlags::V | PTEFlags::R | PTEFlags::X));
    assert_eq!(e.bits, (0x1234u64 << 10) | 0b1011);
    assert_eq!(e.ppn(), PhysPageNum(0x1234));
    assert_eq!(e.flags().bits(), 0b1011);
    assert!(e.is_valid());
    assert!(e.readable());
    assert!(!e.writable());
    assert!(e.executable());
    assert!(!e.user_visible());
}

#[test]
fn pte_empty_is_not_valid() {
    let e = PageTableEntry::empty();
    assert_eq!(e.bits, 0);
    assert!(!e.is_valid());
    assert_eq!(e.ppn(), PhysPageNum(0));
}

#[test]
fn pte_flag_sets() {
    let rw = flags(PTEFlags::R | PTEFlags::W);
    assert!(rw.contains(flags(PTEFlags::R)));
    assert!(!rw.contains(flags(PTEFlags::X)));
    assert_eq!(rw.union(flags(PTEFlags::U)).bits(), 0b10110);
    assert_eq!(rw.intersection(flags(PTEFlags::W | PTEFlags::X)).bits(), PTEFlags::W);
    assert_eq!(PTEFlags::empty().bits(), 0);
}

#[test]
fn addresses_split_into_page_and_offset() {
    let va = VirtAddr::from_u64(0x1234_5678);
    assert_eq!(va.floor(), VirtPageNum(0x12345));
    assert_eq!(va.page_offset(), 0x678);
    assert_eq!(VirtAddr::from_vpn(VirtPageNum(3)).0, 3 * 4096);
    assert_eq!(VirtAddr::from_u64(0xffff_ffc0_0000_1000).0, 0x40_0000_1000);
    assert_eq!(VirtAddr(0x40_0000_1000).to_u64(), 0xffff_ffc0_0000_1000);
    assert_eq!(VirtPageNum(0x12345).indexes(), [0, 0x91, 0x145]);
    let mut v = VirtPageNum(7);
    v.step();
    assert_eq!(v, VirtPageNum(8));
}

#[test]
fn frames_are_handed_out_zeroed_and_given_back_last_first() {
    let mut mem = PhysMem::new(4);
    assert_eq!(mem.len(), 4);
    assert_eq!(mem.free_frames(), 4);
    let a = mem.frame_alloc().unwrap();
    let b = mem.frame_alloc().unwrap();
    assert_eq!((a, b), (0, 1));
    mem.write_byte(a, 7, 42);
    assert_eq!(mem.read_byte(a, 7), 42);
    mem.frame_dealloc(a);
    assert!(!mem.is_allocated(a));
    assert!(mem.is_allocated(b));
    assert_eq!(mem.frame_alloc(), Some(a));
    assert_eq!(mem.read_byte(a, 7), 0);
    assert_eq!(mem.frame_alloc(), Some(2));
    assert_eq!(mem.frame_alloc(), Some(3));
    assert_eq!(mem.frame_alloc(), None);
    assert_eq!(mem.free_frames(), 0);
}

#[test]
fn map_translate_unmap() {
    let mut mem = PhysMem::new(16);
    let mut pt = PageTable::new(&mut mem);
    assert_eq!(pt.root_ppn(), PhysPageNum(0));
    assert!(mem.is_table_frame(0));
    let vpn = VirtPageNum(0x12345);
    assert!(pt.translate(&mem, vpn).is_none());
    pt.map(&mut mem, vpn, PhysPageNum(9), flags(PTEFlags::R | PTEFlags::W));
    let e = pt.translate(&mem, vpn).unwrap();
    assert_eq!(e.ppn(), PhysPageNum(9));
    assert_eq!(e.flags().bits(), PTEFlags::V | PTEFlags::R | PTEFlags::W);
    // the walk made a middle and a leaf table
    assert!(mem.is_table_frame(1));
    assert!(mem.is_table_frame(2));
    // a neighbouring page shares the tables but is not mapped
    assert!(!pt.translate(&mem, VirtPageNum(0x12346)).unwrap().is_valid());
    pt.unmap(&mut mem, vpn);
    assert!(!pt.translate(&mem, vpn).unwrap().is_valid());
    // mapping again after unmapping
    pt.map(&mut mem, vpn, PhysPageNum(10), flags(PTEFlags::R));
    assert_eq!(pt.translate(&mem, vpn).unwrap().ppn(), PhysPageNum(10));
}

#[test]
fn token_names_the_root() {
    let mut mem = PhysMem::new(8);
    let _first = PageTable::new(&mut mem);
    let pt = PageTable::new(&mut mem);
    let token = pt.token();
    assert_eq!(token, (8u64 << 60) | 1);
    assert_eq!(PageTable::from_token(token).root_ppn(), PhysPageNum(1));
}

#[test]
fn two_page_tables_do_not_share_mappings() {
    let mut mem = PhysMem::new(16);
    let mut a = PageTable::new(&mut mem);
    let b = PageTable::new(&mut mem);
    a.map(&mut mem, VirtPageNum(5), PhysPageNum(12), flags(PTEFlags::R));
    assert!(a.translate(&mem, VirtPageNum(5)).unwrap().is_valid());
    assert!(b.translate(&mem, VirtPageNum(5)).is_none());
}

#[test]
fn map_fresh_then_unmap_range() {
    let mut mem = PhysMem::new(32);
    let mut pt = PageTable::new(&mut mem);
    assert!(map_fresh(&mut pt, &mut mem, 4, 7, flags(PTEFlags::R | PTEFlags::W | PTEFlags::U)));
    for v in 4..7u64 {
        let e = pt.translate(&mem, VirtPageNum(v)).unwrap();
        assert!(e.is_valid() && e.readable() && e.writable() && e.user_visible());
        assert!(!mem.is_table_frame(e.ppn().0));
    }
    // a page of the range is mapped already: nothing happens
    assert!(!map_fresh(&mut pt, &mut mem, 6, 8, flags(PTEFlags::R)));
    assert!(pt.translate(&mem, VirtPageNum(7)).map_or(true, |e| !e.is_valid()));
    // a page of the range is not mapped: nothing happens
    assert!(!unmap_range(&mut pt, &mut mem, 5, 8));
    assert!(pt.translate(&mem, VirtPageNum(5)).unwrap().is_valid());
    let free = mem.free_frames();
    assert!(unmap_range(&mut pt, &mut mem, 4, 7));
    assert_eq!(mem.free_frames(), free + 3);
    for v in 4..7u64 {
        assert!(!pt.translate(&mem, VirtPageNum(v)).unwrap().is_valid());
    }
}

#[test]
fn map_fresh_needs_a_frame_a_page_and_the_tables() {
    // two pages under one leaf table take two frames and two tables
    let mut mem = PhysMem::new(4);
    let mut pt = PageTable::new(&mut mem);
    assert!(!map_fresh(&mut pt, &mut mem, 0, 2, flags(PTEFlags::R)));
    assert_eq!(mem.free_frames(), 3);
    let mut mem = PhysMem::new(5);
    let mut pt = PageTable::new(&mut mem);
    assert!(map_fresh(&mut pt, &mut mem, 0, 2, flags(PTEFlags::R)));
    assert_eq!(mem.free_frames(), 0);
    // the tables are there now: one more page takes one frame
    let mut mem = PhysMem::new(6);
    let mut pt = PageTable::new(&mut mem);
    assert!(map_fresh(&mut pt, &mut mem, 0, 2, flags(PTEFlags::R)));
    assert!(map_fresh(&mut pt, &mut mem, 2, 3, flags(PTEFlags::R)));
    // a page under another leaf table takes a table more
    let mut mem = PhysMem::new(6);
    let mut pt = PageTable::new(&mut mem);
    assert!(map_fresh(&mut pt, &mut mem, 511, 513, flags(PTEFlags::R)));
    assert_eq!(mem.free_frames(), 0);
}

fn user_space() -> (PhysMem, PageTable) {
    let mut mem = PhysMem::new(32);
    let mut pt = PageTable::new(&mut mem);
    assert!(map_fresh(&mut pt, &mut mem, 1, 3, flags(PTEFlags::R | PTEFlags::W | PTEFlags::U)));
    (mem, pt)
}

#[test]
fn byte_buffer_splits_at_pages() {
    let (mem, pt) = user_space();
    let rs = translated_byte_buffer(&mem, pt.token(), 0x1ff0, 0x20);
    assert_eq!(rs.len(), 2);
    let p1 = pt.translate(&mem, VirtPageNum(1)).unwrap().ppn().0;
    let p2 = pt.translate(&mem, VirtPageNum(2)).unwrap().ppn().0;
    assert_eq!(rs[0], PhysRange { ppn: p1, start: 0xff0, end: 4096 });
    assert_eq!(rs[1], PhysRange { ppn: p2, start: 0, end: 0x10 });
    assert!(translated_byte_buffer(&mem, pt.token(), 0x1000, 0).is_empty());
}

#[test]
fn user_ranges_read_back_what_was_written() {
    let (mut mem, pt) = user_space();
    let rs = translated_byte_buffer(&mem, pt.token(), 0x1ffe, 4);
    let n = write_user_ranges(&mut mem, &rs, &[1, 2, 3, 4, 5, 6]);
    assert_eq!(n, 4);
    assert_eq!(read_user_ranges(&mem, &rs), vec![1, 2, 3, 4]);
    let n = write_user_ranges(&mut mem, &rs, &[9]);
    assert_eq!(n, 1);
    assert_eq!(read_user_ranges(&mem, &rs), vec![9, 2, 3, 4]);
}

#[test]
fn write_across_pages() {
    let (mut mem, pt) = user_space();
    let data: Vec<u8> = (1..=16).collect();
    assert_eq!(translated_and_write(&mut mem, 0x1ff8, 0x2008, &pt, &data), 0);
    let rs = translated_byte_buffer(&mem, pt.token(), 0x1ff8, 16);
    assert_eq!(read_user_ranges(&mem, &rs), data);
}

#[test]
fn write_fails_on_an_unmapped_page() {
    let (mut mem, pt) = user_space();
    let data = [7u8; 16];
    // the first page is written, the next one is not mapped
    assert_eq!(translated_and_write(&mut mem, 0x2ff8, 0x3008, &pt, &data), -1);
    let rs = translated_byte_buffer(&mem, pt.token(), 0x2ff8, 8);
    assert_eq!(read_user_ranges(&mem, &rs), vec![7u8; 8]);
    // an empty range fails
    assert_eq!(translated_and_write(&mut mem, 0x1000, 0x1000, &pt, &data), -1);
}

#[test]
fn write_fails_on_a_read_only_page() {
    let mut mem = PhysMem::new(16);
    let mut pt = PageTable::new(&mut mem);
    assert!(map_fresh(&mut pt, &mut mem, 1, 2, flags(PTEFlags::R | PTEFlags::U)));
    assert_eq!(translated_and_write(&mut mem, 0x1000, 0x1010, &pt, &[1u8; 16]), -1);
}

#[test]
fn write_fails_on_an_invalid_entry() {
    let (mut mem, mut pt) = user_space();
    assert!(unmap_range(&mut pt, &mut mem, 2, 3));
    // the walk still reaches the leaf of page 2, whose entry is empty now
    let e = pt.translate(&mem, VirtPageNum(2)).unwrap();
    assert!(!e.is_valid());
    assert_eq!(translated_and_write(&mut mem, 0x1ffc, 0x2004, &pt, &[5u8; 8]), -1);
    let rs = translated_byte_buffer(&mem, pt.token(), 0x1ffc, 4);
    assert_eq!(read_user_ranges(&mem, &rs), vec![5u8; 4]);
}

#[test]
fn strings_end_at_the_zero_byte() {
    let (mut mem, pt) = user_space();
    let text = b"hello\0world\0";
    assert_eq!(translated_and_write(&mut mem, 0x1ffc, 0x1ffc + 12, &pt, text), 0);
    assert_eq!(translated_str(&mem, pt.token(), 0x1ffc), "hello");
    assert_eq!(translated_str(&mem, pt.token(), 0x2002), "world");
    assert_eq!(translated_str(&mem, pt.token(), 0x2007), "");
}

#[test]
fn string_bytes_become_characters_one_each() {
    let (mut mem, pt) = user_space();
    assert_eq!(translated_and_write(&mut mem, 0x1000, 0x1003, &pt, &[0x41, 0xe9, 0]), 0);
    let s = translated_str(&mem, pt.token(), 0x1000);
    assert_eq!(s, "A\u{e9}");
    assert_eq!(s.len(), 3);
}
