//! Sv39 addresses and page numbers.
use vstd::prelude::*;

verus! {

/// Mask of the 39 significant bits of a virtual address.
pub const VA_MASK: u64 = 0x7f_ffff_ffff;
/// Mask of the 44 significant bits of a physical page number.
pub const PPN_MASK: u64 = 0xfff_ffff_ffff;

/// A physical page number.
#[derive(Clone, Copy, PartialEq, Eq, Structural, Debug)]
pub struct PhysPageNum(pub u64);

/// A virtual page number.
#[derive(Clone, Copy, PartialEq, Eq, Structural, Debug)]
pub struct VirtPageNum(pub u64);

/// A virtual address.
#[derive(Clone, Copy, PartialEq, Eq, Structural, Debug)]
pub struct VirtAddr(pub u64);

/// The three page-table indexes of a virtual page number, from the root down.
pub open spec fn vpn_index(vpn: u64, level: int) -> u64 {
    if level == 0 {
        (vpn >> 18u64) & 511u64
    } else if level == 1 {
        (vpn >> 9u64) & 511u64
    } else {
        vpn & 511u64
    }
}

/// The address of the first byte of a virtual page, sign-extended from bit 38.
pub open spec fn sign_extend(v: u64) -> u64 {
    if v >= 0x40_0000_0000u64 {
        v | !VA_MASK
    } else {
        v
    }
}

impl PhysPageNum {
    /// A physical page number made from the low 44 bits of `v`.
    pub fn from_u64(v: u64) -> (r: PhysPageNum)
        ensures
            r.0 == v & PPN_MASK,
    {
        PhysPageNum(v & PPN_MASK)
    }
}

impl VirtAddr {
    /// A virtual address made from the low 39 bits of `v`.
    pub fn from_u64(v: u64) -> (r: VirtAddr)
        ensures
            r.0 == v & VA_MASK,
    {
        VirtAddr(v & VA_MASK)
    }

    /// The address as a machine word, with bits above 38 copied from bit 38.
    pub fn to_u64(self) -> (r: u64)
        ensures
            r == sign_extend(self.0),
    {
        if self.0 >= 0x40_0000_0000u64 {
            self.0 | !VA_MASK
        } else {
            self.0
        }
    }

    /// The page that holds this address.
    pub fn floor(self) -> (r: VirtPageNum)
        ensures
            r.0 == self.0 / 4096,
    {
        VirtPageNum(self.0 / 4096)
    }

    /// The offset of this address inside its page.
    pub fn page_offset(self) -> (r: u64)
        ensures
            r == self.0 % 4096,
            r < 4096,
    {
        let v = self.0;
        assert(v & 4095u64 == v % 4096) by (bit_vector);
        v & 4095u64
    }

    /// The first address of a virtual page.
    pub fn from_vpn(vpn: VirtPageNum) -> (r: VirtAddr)
        requires
            vpn.0 < 0x10_0000_0000_0000,
        ensures
            r.0 == vpn.0 * 4096,
    {
        let v = vpn.0;
        assert(v < 0x10_0000_0000_0000 ==> v << 12u64 == v * 4096) by (bit_vector);
        VirtAddr(v << 12u64)
    }
}

impl VirtPageNum {
    /// The indexes into the root, middle and leaf page tables.
    pub fn indexes(self) -> (r: [u64; 3])
        ensures
            r@.len() == 3,
            forall|l: int| 0 <= l < 3 ==> r@[l] == vpn_index(self.0, l) && r@[l] < 512,
    {
        let vpn = self.0;
        let idx: [u64; 3] = [(vpn >> 18u64) & 511u64, (vpn >> 9u64) & 511u64, vpn & 511u64];
        assert((vpn >> 18u64) & 511u64 < 512) by (bit_vector);
        assert((vpn >> 9u64) & 511u64 < 512) by (bit_vector);
        assert(vpn & 511u64 < 512) by (bit_vector);
        idx
    }

    /// Moves to the next page.
    pub fn step(&mut self)
        requires
            old(self).0 < u64::MAX,
        ensures
            final(self).0 == old(self).0 + 1,
    {
        self.0 = self.0 + 1;
    }
}

} // verus!
