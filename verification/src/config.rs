//! Constants of the kernel.
use vstd::prelude::*;

verus! {

/// Size of a page in bytes.
pub const PAGE_SIZE: usize = 4096;
/// Number of offset bits in a virtual or physical address.
pub const PAGE_SIZE_BITS: usize = 12;
/// Width of a virtual address under Sv39.
pub const VA_WIDTH_SV39: usize = 39;
/// Width of a physical page number under Sv39.
pub const PPN_WIDTH_SV39: usize = 44;
/// First address above the user part of an address space.
pub const USER_SPACE_END: u64 = 0x40_0000_0000;

} // verus!
