//! Physical and virtual addresses, with the 9-bit page-table indices a
//! 4-level walk extracts from a virtual address.

use vstd::prelude::*;

verus! {

/// Mask selecting the 40-bit physical frame number field of a page-table
/// entry (bits 12..52).
pub const PHYS_FRAME_MASK: u64 = 0x000F_FFFF_FFFF_F000;

/// A physical address.
#[derive(Clone, Copy, PartialEq, Eq, Structural)]
pub struct PhysAddr {
    pub addr: u64,
}

impl PhysAddr {
    pub fn new(addr: u64) -> (r: PhysAddr)
        ensures
            r.addr == addr,
    {
        PhysAddr { addr }
    }

    pub fn as_u64(&self) -> (r: u64)
        ensures
            r == self.addr,
    {
        self.addr
    }
}

/// A virtual address.
#[derive(Clone, Copy, PartialEq, Eq, Structural)]
pub struct VirtAddr {
    pub addr: u64,
}

/// Index into the top-level table (bits 39..48 of the address).
pub open spec fn spec_p4_index(addr: u64) -> u64 {
    (addr >> 39) & 0x1FF
}

/// Index into the third-level table (bits 30..39).
pub open spec fn spec_p3_index(addr: u64) -> u64 {
    (addr >> 30) & 0x1FF
}

/// Index into the second-level table (bits 21..30).
pub open spec fn spec_p2_index(addr: u64) -> u64 {
    (addr >> 21) & 0x1FF
}

/// Index into the leaf table (bits 12..21).
pub open spec fn spec_p1_index(addr: u64) -> u64 {
    (addr >> 12) & 0x1FF
}

impl VirtAddr {
    pub fn new(addr: u64) -> (r: VirtAddr)
        ensures
            r.addr == addr,
    {
        VirtAddr { addr }
    }

    pub fn as_u64(&self) -> (r: u64)
        ensures
            r == self.addr,
    {
        self.addr
    }

    pub fn p4_index(&self) -> (r: usize)
        ensures
            r == spec_p4_index(self.addr),
            r < 512,
    {
        proof {
            let a: u64 = self.addr;
            assert((a >> 39) & 0x1FF < 512) by (bit_vector);
        }
        ((self.addr >> 39) & 0x1FF) as usize
    }

    pub fn p3_index(&self) -> (r: usize)
        ensures
            r == spec_p3_index(self.addr),
            r < 512,
    {
        proof {
            let a: u64 = self.addr;
            assert((a >> 30) & 0x1FF < 512) by (bit_vector);
        }
        ((self.addr >> 30) & 0x1FF) as usize
    }

    pub fn p2_index(&self) -> (r: usize)
        ensures
            r == spec_p2_index(self.addr),
            r < 512,
    {
        proof {
            let a: u64 = self.addr;
            assert((a >> 21) & 0x1FF < 512) by (bit_vector);
        }
        ((self.addr >> 21) & 0x1FF) as usize
    }

    pub fn p1_index(&self) -> (r: usize)
        ensures
            r == spec_p1_index(self.addr),
            r < 512,
    {
        proof {
            let a: u64 = self.addr;
            assert((a >> 12) & 0x1FF < 512) by (bit_vector);
        }
        ((self.addr >> 12) & 0x1FF) as usize
    }
}

} // verus!
