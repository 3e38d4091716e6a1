//! Page table entries of Sv39 and their flag bits.
use vstd::prelude::*;
use crate::mm::address::{PhysPageNum, PPN_MASK};

verus! {

/// The eight flag bits in the low byte of a page table entry.
#[derive(Clone, Copy, PartialEq, Eq, Structural, Debug)]
pub struct PTEFlags {
    /// The bits of the flags.
    pub bits: u8,
}

impl PTEFlags {
    /// Valid
    pub const V: u8 = 1u8;
    /// Readable
    pub const R: u8 = 2u8;
    /// Writable
    pub const W: u8 = 4u8;
    /// eXecutable
    pub const X: u8 = 8u8;
    /// User
    pub const U: u8 = 16u8;
    /// Global
    pub const G: u8 = 32u8;
    /// Accessed
    pub const A: u8 = 64u8;
    /// Dirty
    pub const D: u8 = 128u8;

    /// The flags with the given bits. Every bit of a byte names a flag, so
    /// this never fails.
    pub fn from_bits(bits: u8) -> (r: Option<PTEFlags>)
        ensures
            r == Some(PTEFlags { bits }),
    {
        Some(PTEFlags { bits })
    }

    /// The empty set of flags.
    pub fn empty() -> (r: PTEFlags)
        ensures
            r.bits == 0,
    {
        PTEFlags { bits: 0 }
    }

    /// The bits of the flags.
    pub fn bits(&self) -> (r: u8)
        ensures
            r == self.bits,
    {
        self.bits
    }

    /// The flags set in both.
    pub fn intersection(self, other: PTEFlags) -> (r: PTEFlags)
        ensures
            r.bits == self.bits & other.bits,
    {
        PTEFlags { bits: self.bits & other.bits }
    }

    /// The flags set in either.
    pub fn union(self, other: PTEFlags) -> (r: PTEFlags)
        ensures
            r.bits == self.bits | other.bits,
    {
        PTEFlags { bits: self.bits | other.bits }
    }

    /// Whether every flag of `other` is set here.
    pub fn contains(&self, other: PTEFlags) -> (r: bool)
        ensures
            r == (self.bits & other.bits == other.bits),
    {
        self.bits & other.bits == other.bits
    }
}

/// Whether the flag bit `flag` is set in the low byte of `bits`.
pub open spec fn has_flag(bits: u64, flag: u8) -> bool {
    (bits as u8) & flag != 0
}

/// The physical page number field of an entry.
pub open spec fn ppn_of(bits: u64) -> u64 {
    (bits >> 10u64) & PPN_MASK
}

/// The bits of the entry that `new` makes.
pub open spec fn entry_bits(ppn: u64, flags: u8) -> u64 {
    (ppn << 10u64) | (flags as u64)
}

/// A page table entry.
#[derive(Clone, Copy, PartialEq, Eq, Structural, Debug)]
pub struct PageTableEntry {
    /// Bits of the page table entry.
    pub bits: u64,
}

impl PageTableEntry {
    /// An entry that maps `ppn` with `flags`.
    pub fn new(ppn: PhysPageNum, flags: PTEFlags) -> (r: PageTableEntry)
        ensures
            r.bits == entry_bits(ppn.0, flags.bits),
    {
        PageTableEntry { bits: ppn.0 << 10u64 | flags.bits as u64 }
    }

    /// The empty entry.
    pub fn empty() -> (r: PageTableEntry)
        ensures
            r.bits == 0,
    {
        PageTableEntry { bits: 0 }
    }

    /// The physical page number that the entry points to.
    pub fn ppn(&self) -> (r: PhysPageNum)
        ensures
            r.0 == ppn_of(self.bits),
    {
        let b = self.bits;
        let v = b >> 10u64 & PPN_MASK;
        assert(v & 0xfff_ffff_ffffu64 == v) by (bit_vector)
            requires
                v == (b >> 10u64) & 0xfff_ffff_ffffu64,
        ;
        PhysPageNum::from_u64(v)
    }

    /// The flags of the entry.
    pub fn flags(&self) -> (r: PTEFlags)
        ensures
            r.bits == self.bits as u8,
    {
        PTEFlags::from_bits(self.bits as u8).unwrap()
    }

    /// Whether the entry is valid.
    pub fn is_valid(&self) -> (r: bool)
        ensures
            r == has_flag(self.bits, PTEFlags::V),
    {
        self.flags().intersection(PTEFlags { bits: PTEFlags::V }) != PTEFlags::empty()
    }

    /// Whether the page that the entry points to is readable.
    pub fn readable(&self) -> (r: bool)
        ensures
            r == has_flag(self.bits, PTEFlags::R),
    {
        self.flags().intersection(PTEFlags { bits: PTEFlags::R }) != PTEFlags::empty()
    }

    /// Whether the page that the entry points to is writable.
    pub fn writable(&self) -> (r: bool)
        ensures
            r == has_flag(self.bits, PTEFlags::W),
    {
        self.flags().intersection(PTEFlags { bits: PTEFlags::W }) != PTEFlags::empty()
    }

    /// Whether the page that the entry points to is executable.
    pub fn executable(&self) -> (r: bool)
        ensures
            r == has_flag(self.bits, PTEFlags::X),
    {
        self.flags().intersection(PTEFlags { bits: PTEFlags::X }) != PTEFlags::empty()
    }

    /// Whether the page that the entry points to can be used from user mode.
    pub fn user_visible(&self) -> (r: bool)
        ensures
            r == has_flag(self.bits, PTEFlags::U),
    {
        self.flags().intersection(PTEFlags { bits: PTEFlags::U }) != PTEFlags::empty()
    }
}

/// An entry made by `new` gives back its page number and its flags, as long
/// as the page number fits in the 44 bits of its field.
pub proof fn lemma_entry_fields(ppn: u64, flags: u8)
    requires
        ppn <= PPN_MASK,
    ensures
        ppn_of(entry_bits(ppn, flags)) == ppn,
        entry_bits(ppn, flags) as u8 == flags,
        has_flag(entry_bits(ppn, flags), PTEFlags::V) == (flags & PTEFlags::V != 0),
{
    assert(ppn <= 0xfff_ffff_ffffu64 ==> ((((ppn << 10u64) | (flags as u64)) >> 10u64) & 0xfff_ffff_ffffu64) == ppn) by (bit_vector);
    assert((((ppn << 10u64) | (flags as u64)) as u8) == flags) by (bit_vector);
}

/// The low byte of an entry made by `new` is its flags, whatever the page number.
pub proof fn lemma_entry_flags(ppn: u64, flags: u8)
    ensures
        entry_bits(ppn, flags) as u8 == flags,
        has_flag(entry_bits(ppn, flags), PTEFlags::V) == (flags & PTEFlags::V != 0),
{
    assert((((ppn << 10u64) | (flags as u64)) as u8) == flags) by (bit_vector);
}

/// The empty entry is not valid and carries no flag.
pub proof fn lemma_empty_entry()
    ensures
        forall|f: u8| !#[trigger] has_flag(0, f),
{
    assert forall|f: u8| !#[trigger] has_flag(0, f) by {
        assert((0u64 as u8) & f == 0) by (bit_vector);
    }
}

} // verus!
