//! The four-level page-table model: entries with their flag bits, tables of
//! 512 entries, and a mapper whose walks are verified against the record of
//! installed mappings. Loading the table root into the CPU and invalidating
//! translation caches are the hardware side.

use vstd::prelude::*;

verus! {

use crate::addr::{PhysAddr, VirtAddr, PHYS_FRAME_MASK};

pub const ENTRIES_PER_TABLE: usize = 512;

/// One 64-bit page-table entry.
#[derive(Clone, Copy, PartialEq, Eq, Structural)]
pub struct PageTableEntry {
    pub bits: u64,
}

pub const PTE_PRESENT: u64 = 1;

pub const PTE_WRITABLE: u64 = 2;

pub const PTE_USER: u64 = 4;

pub const PTE_WRITE_THROUGH: u64 = 8;

pub const PTE_NO_CACHE: u64 = 16;

impl PageTableEntry {
    pub fn new() -> (r: PageTableEntry)
        ensures
            r.bits == 0,
    {
        PageTableEntry { bits: 0 }
    }

    pub fn is_present(&self) -> (r: bool)
        ensures
            r == (self.bits & PTE_PRESENT != 0),
    {
        (self.bits & PTE_PRESENT) != 0
    }

    /// Install a frame address and flag set: the 40-bit frame number field
    /// takes the address, the rest takes the flags.
    pub fn set_addr(&mut self, addr: PhysAddr, flags: u64)
        ensures
            final(self).bits == (addr.addr & PHYS_FRAME_MASK) | flags,
    {
        self.bits = (addr.addr & PHYS_FRAME_MASK) | flags;
    }

    pub fn get_addr(&self) -> (r: PhysAddr)
        ensures
            r.addr == self.bits & PHYS_FRAME_MASK,
    {
        PhysAddr { addr: self.bits & PHYS_FRAME_MASK }
    }

    pub fn clear(&mut self)
        ensures
            final(self).bits == 0,
    {
        self.bits = 0;
    }
}

/// A leaf table: 512 entries.
pub struct PageTable {
    pub entries: Vec<PageTableEntry>,
}

pub open spec fn page_table_wf(t: PageTable) -> bool {
    t.entries@.len() == ENTRIES_PER_TABLE
}

impl PageTable {
    pub fn new() -> (r: PageTable)
        ensures
            page_table_wf(r),
            forall|i: int| 0 <= i < ENTRIES_PER_TABLE ==> (#[trigger] r.entries@[i]).bits == 0,
    {
        let mut entries: Vec<PageTableEntry> = Vec::new();
        let mut i: usize = 0;
        while i < ENTRIES_PER_TABLE
            invariant
                i <= ENTRIES_PER_TABLE,
                entries@.len() == i,
                forall|j: int| 0 <= j < i ==> (#[trigger] entries@[j]).bits == 0,
            decreases ENTRIES_PER_TABLE - i,
        {
            entries.push(PageTableEntry { bits: 0 });
            i += 1;
        }
        PageTable { entries }
    }

    pub fn zero(&mut self)
        requires
            page_table_wf(*old(self)),
        ensures
            page_table_wf(*final(self)),
            forall|i: int|
                0 <= i < ENTRIES_PER_TABLE ==> (#[trigger] final(self).entries@[i]).bits == 0,
    {
        let mut i: usize = 0;
        while i < ENTRIES_PER_TABLE
            invariant
                i <= ENTRIES_PER_TABLE,
                page_table_wf(*self),
                forall|j: int| 0 <= j < i ==> (#[trigger] self.entries@[j]).bits == 0,
            decreases ENTRIES_PER_TABLE - i,
        {
            self.entries[i] = PageTableEntry { bits: 0 };
            i += 1;
        }
    }
}

/// A second-level table: present children are leaf tables.
pub struct TableL2 {
    pub slots: Vec<Option<PageTable>>,
}

/// A third-level table: present children are second-level tables.
pub struct TableL3 {
    pub slots: Vec<Option<TableL2>>,
}

/// The four-level mapping structure, owned whole: absent children stand
/// for non-present intermediate entries.
pub struct Mapper {
    pub l4: Vec<Option<TableL3>>,
}

pub open spec fn l2_wf(t: TableL2) -> bool {
    t.slots@.len() == ENTRIES_PER_TABLE && forall|i: int|
        0 <= i < ENTRIES_PER_TABLE ==> (#[trigger] t.slots@[i] matches Option::Some(pt)
            ==> page_table_wf(pt))
}

pub open spec fn l3_wf(t: TableL3) -> bool {
    t.slots@.len() == ENTRIES_PER_TABLE && forall|i: int|
        0 <= i < ENTRIES_PER_TABLE ==> (#[trigger] t.slots@[i] matches Option::Some(t2) ==> l2_wf(
            t2,
        ))
}

pub open spec fn mapper_wf(m: Mapper) -> bool {
    m.l4@.len() == ENTRIES_PER_TABLE && forall|i: int|
        0 <= i < ENTRIES_PER_TABLE ==> (#[trigger] m.l4@[i] matches Option::Some(t3) ==> l3_wf(t3))
}

/// The leaf entry a four-level walk reaches for the four indices, or zero
/// where an intermediate table is absent.
pub open spec fn spec_l1_entry(m: Mapper, a: int, b: int, c: int, d: int) -> u64 {
    match m.l4@[a] {
        Option::Some(t3) => match t3.slots@[b] {
            Option::Some(t2) => match t2.slots@[c] {
                Option::Some(pt) => pt.entries@[d].bits,
                Option::None => 0u64,
            },
            Option::None => 0u64,
        },
        Option::None => 0u64,
    }
}

/// The 36-bit page number of a virtual address.
pub open spec fn spec_page_of(v: u64) -> u64 {
    (v >> 12) & 0xF_FFFF_FFFF
}

/// The leaf entry recorded for page number `pn`: its base-512 digits are
/// the four walk indices.
pub open spec fn spec_entry_of_page(m: Mapper, pn: u64) -> u64 {
    spec_l1_entry(
        m,
        ((pn >> 27) & 0x1FF) as int,
        ((pn >> 18) & 0x1FF) as int,
        ((pn >> 9) & 0x1FF) as int,
        (pn & 0x1FF) as int,
    )
}

/// What a walk of the tables translates `v` to: the installed frame and the
/// entry's flag bits, or nothing when no present leaf entry is reached.
pub open spec fn spec_translate(m: Mapper, v: u64) -> Option<(u64, u64)> {
    let e = spec_entry_of_page(m, spec_page_of(v));
    if e & PTE_PRESENT != 0 {
        Option::Some((e & PHYS_FRAME_MASK, e))
    } else {
        Option::None
    }
}

/// The four walk indices of an address are the digits of its page number.
proof fn lemma_indices_are_page_digits(v: u64)
    ensures
        crate::addr::spec_p4_index(v) == (spec_page_of(v) >> 27) & 0x1FF,
        crate::addr::spec_p3_index(v) == (spec_page_of(v) >> 18) & 0x1FF,
        crate::addr::spec_p2_index(v) == (spec_page_of(v) >> 9) & 0x1FF,
        crate::addr::spec_p1_index(v) == spec_page_of(v) & 0x1FF,
{
    assert((v >> 39) & 0x1FF == (((v >> 12) & 0xF_FFFF_FFFF) >> 27) & 0x1FF) by (bit_vector);
    assert((v >> 30) & 0x1FF == (((v >> 12) & 0xF_FFFF_FFFF) >> 18) & 0x1FF) by (bit_vector);
    assert((v >> 21) & 0x1FF == (((v >> 12) & 0xF_FFFF_FFFF) >> 9) & 0x1FF) by (bit_vector);
    assert((v >> 12) & 0x1FF == ((v >> 12) & 0xF_FFFF_FFFF) & 0x1FF) by (bit_vector);
}

/// Two page numbers agree exactly when their four digits agree.
proof fn lemma_page_digits_injective(p1: u64, p2: u64)
    requires
        p1 < 0x10_0000_0000,
        p2 < 0x10_0000_0000,
        (p1 >> 27) & 0x1FF == (p2 >> 27) & 0x1FF,
        (p1 >> 18) & 0x1FF == (p2 >> 18) & 0x1FF,
        (p1 >> 9) & 0x1FF == (p2 >> 9) & 0x1FF,
        p1 & 0x1FF == p2 & 0x1FF,
    ensures
        p1 == p2,
{
    assert(p1 == p2) by (bit_vector)
        requires
            p1 < 0x10_0000_0000,
            p2 < 0x10_0000_0000,
            (p1 >> 27) & 0x1FF == (p2 >> 27) & 0x1FF,
            (p1 >> 18) & 0x1FF == (p2 >> 18) & 0x1FF,
            (p1 >> 9) & 0x1FF == (p2 >> 9) & 0x1FF,
            p1 & 0x1FF == p2 & 0x1FF,
    ;
}

impl TableL2 {
    fn new() -> (r: TableL2)
        ensures
            l2_wf(r),
            forall|i: int| 0 <= i < ENTRIES_PER_TABLE ==> #[trigger] r.slots@[i] is None,
    {
        let mut slots: Vec<Option<PageTable>> = Vec::new();
        let mut i: usize = 0;
        while i < ENTRIES_PER_TABLE
            invariant
                i <= ENTRIES_PER_TABLE,
                slots@.len() == i,
                forall|j: int| 0 <= j < i ==> #[trigger] slots@[j] is None,
            decreases ENTRIES_PER_TABLE - i,
        {
            slots.push(Option::None);
            i += 1;
        }
        TableL2 { slots }
    }
}

impl TableL3 {
    fn new() -> (r: TableL3)
        ensures
            l3_wf(r),
            forall|i: int| 0 <= i < ENTRIES_PER_TABLE ==> #[trigger] r.slots@[i] is None,
    {
        let mut slots: Vec<Option<TableL2>> = Vec::new();
        let mut i: usize = 0;
        while i < ENTRIES_PER_TABLE
            invariant
                i <= ENTRIES_PER_TABLE,
                slots@.len() == i,
                forall|j: int| 0 <= j < i ==> #[trigger] slots@[j] is None,
            decreases ENTRIES_PER_TABLE - i,
        {
            slots.push(Option::None);
            i += 1;
        }
        TableL3 { slots }
    }
}

impl Mapper {
    /// An empty mapping structure: nothing is mapped.
    pub fn new() -> (r: Mapper)
        ensures
            mapper_wf(r),
            forall|pn: u64| spec_entry_of_page(r, pn) == 0,
    {
        let mut l4: Vec<Option<TableL3>> = Vec::new();
        let mut i: usize = 0;
        while i < ENTRIES_PER_TABLE
            invariant
                i <= ENTRIES_PER_TABLE,
                l4@.len() == i,
                forall|j: int| 0 <= j < i ==> #[trigger] l4@[j] is None,
            decreases ENTRIES_PER_TABLE - i,
        {
            l4.push(Option::None);
            i += 1;
        }
        let m = Mapper { l4 };
        proof {
            assert forall|pn: u64| spec_entry_of_page(m, pn) == 0 by {
                assert(0 <= ((pn >> 27) & 0x1FF) < 512) by (bit_vector);
            }
        }
        m
    }

    /// Install a mapping for the page of `virt`: walk the four levels,
    /// growing absent intermediate tables, and write the leaf entry. Every
    /// other page's leaf entry stays exactly as it was.
    pub fn map_page(&mut self, virt: VirtAddr, phys: PhysAddr, flags: u64) -> (r: Option<()>)
        requires
            mapper_wf(*old(self)),
        ensures
            mapper_wf(*final(self)),
            r is Some,
            spec_entry_of_page(*final(self), spec_page_of(virt.addr)) == (phys.addr
                & PHYS_FRAME_MASK) | flags | PTE_PRESENT,
            forall|pn: u64|
                pn < 0x10_0000_0000 && pn != spec_page_of(virt.addr) ==> spec_entry_of_page(
                    *final(self),
                    pn,
                ) == spec_entry_of_page(*old(self), pn),
    {
        let a = virt.p4_index();
        let b = virt.p3_index();
        let c = virt.p2_index();
        let d = virt.p1_index();
        let new_bits: u64 = (phys.addr & PHYS_FRAME_MASK) | flags | PTE_PRESENT;
        let slot3 = &mut self.l4[a];
        if slot3.is_none() {
            *slot3 = Option::Some(TableL3::new());
        }
        match slot3 {
            Option::Some(t3) => {
                let slot2 = &mut t3.slots[b];
                if slot2.is_none() {
                    *slot2 = Option::Some(TableL2::new());
                }
                match slot2 {
                    Option::Some(t2) => {
                        let slot1 = &mut t2.slots[c];
                        if slot1.is_none() {
                            *slot1 = Option::Some(PageTable::new());
                        }
                        match slot1 {
                            Option::Some(pt) => {
                                pt.entries[d] = PageTableEntry { bits: new_bits };
                            },
                            Option::None => {},
                        }
                    },
                    Option::None => {},
                }
            },
            Option::None => {},
        }
        proof {
            let va = virt.addr;
            let vp = spec_page_of(va);
            lemma_indices_are_page_digits(va);
            assert(spec_page_of(va) < 0x10_0000_0000) by (bit_vector);
            assert(spec_entry_of_page(*self, vp) == new_bits);
            assert forall|pn: u64|
                pn < 0x10_0000_0000 && pn != vp implies spec_entry_of_page(*self, pn)
                == spec_entry_of_page(*old(self), pn) by {
                assert((pn >> 27) & 0x1FF < 512 && (pn >> 18) & 0x1FF < 512 && (pn >> 9) & 0x1FF
                    < 512 && pn & 0x1FF < 512) by (bit_vector);
                let qa = ((pn >> 27) & 0x1FF) as int;
                let qb = ((pn >> 18) & 0x1FF) as int;
                let qc = ((pn >> 9) & 0x1FF) as int;
                let qd = (pn & 0x1FF) as int;
                if qa == a && qb == b && qc == c && qd == d {
                    lemma_page_digits_injective(pn, vp);
                } else {
                    if qa != a {
                        assert(self.l4@[qa] == old(self).l4@[qa]);
                    }
                }
            }
        }
        Option::Some(())
    }

    /// Remove the mapping for the page of `virt` and hand back the frame it
    /// pointed at; an unmapped page gives nothing back and changes nothing.
    pub fn unmap_page(&mut self, virt: VirtAddr) -> (r: Option<PhysAddr>)
        requires
            mapper_wf(*old(self)),
        ensures
            mapper_wf(*final(self)),
            match r {
                Option::Some(p) => {
                    &&& spec_translate(*old(self), virt.addr) matches Option::Some(t) && p.addr
                        == t.0
                    &&& spec_entry_of_page(*final(self), spec_page_of(virt.addr)) == 0
                    &&& forall|pn: u64|
                        pn < 0x10_0000_0000 && pn != spec_page_of(virt.addr)
                            ==> spec_entry_of_page(*final(self), pn) == spec_entry_of_page(
                            *old(self),
                            pn,
                        )
                },
                Option::None => {
                    &&& spec_translate(*old(self), virt.addr) is None
                    &&& *final(self) == *old(self)
                },
            },
    {
        let a = virt.p4_index();
        let b = virt.p3_index();
        let c = virt.p2_index();
        let d = virt.p1_index();
        proof {
            lemma_indices_are_page_digits(virt.addr);
        }
        let mut bits: u64 = 0;
        match &self.l4[a] {
            Option::Some(t3) => {
                match &t3.slots[b] {
                    Option::Some(t2) => {
                        match &t2.slots[c] {
                            Option::Some(pt) => {
                                bits = pt.entries[d].bits;
                            },
                            Option::None => {},
                        }
                    },
                    Option::None => {},
                }
            },
            Option::None => {},
        }
        proof {
            assert(bits == spec_entry_of_page(*self, spec_page_of(virt.addr)));
        }
        if bits & PTE_PRESENT == 0 {
            return Option::None;
        }
        let slot3 = &mut self.l4[a];
        match slot3 {
            Option::Some(t3) => {
                let slot2 = &mut t3.slots[b];
                match slot2 {
                    Option::Some(t2) => {
                        let slot1 = &mut t2.slots[c];
                        match slot1 {
                            Option::Some(pt) => {
                                pt.entries[d] = PageTableEntry { bits: 0 };
                            },
                            Option::None => {},
                        }
                    },
                    Option::None => {},
                }
            },
            Option::None => {},
        }
        proof {
            let va = virt.addr;
            let vp = spec_page_of(va);
            assert(spec_page_of(va) < 0x10_0000_0000) by (bit_vector);
            assert(spec_entry_of_page(*self, vp) == 0);
            assert forall|pn: u64|
                pn < 0x10_0000_0000 && pn != vp implies spec_entry_of_page(*self, pn)
                == spec_entry_of_page(*old(self), pn) by {
                assert((pn >> 27) & 0x1FF < 512 && (pn >> 18) & 0x1FF < 512 && (pn >> 9) & 0x1FF
                    < 512 && pn & 0x1FF < 512) by (bit_vector);
                let qa = ((pn >> 27) & 0x1FF) as int;
                let qb = ((pn >> 18) & 0x1FF) as int;
                let qc = ((pn >> 9) & 0x1FF) as int;
                let qd = (pn & 0x1FF) as int;
                if qa == a as int && qb == b as int && qc == c as int && qd == d as int {
                    lemma_page_digits_injective(pn, vp);
                } else {
                    if qa != a as int {
                        assert(self.l4@[qa] == old(self).l4@[qa]);
                    }
                }
            }
        }
        Option::Some(PhysAddr { addr: bits & PHYS_FRAME_MASK })
    }
}

/// Page count covering `size` bytes.
pub open spec fn spec_pages_of(size: int) -> int {
    (size + 0xFFF) / 0x1000
}

/// The leaf entry a range mapping leaves for page `pn`: the corresponding
/// frame inside the range, the old entry outside it.
pub open spec fn spec_range_entry(
    m0: Mapper,
    phys: u64,
    flags: u64,
    base: u64,
    pages: int,
    pn: u64,
) -> u64 {
    if base <= pn < base + pages {
        (((phys + (pn - base) * 4096) as u64) & PHYS_FRAME_MASK) | flags | PTE_PRESENT
    } else {
        spec_entry_of_page(m0, pn)
    }
}

/// What a range unmap guarantees for page `pn`: nothing present inside the
/// range, the old entry outside it.
pub open spec fn spec_range_cleared(m0: Mapper, m: Mapper, base: u64, pages: int, pn: u64) -> bool {
    if base <= pn < base + pages {
        spec_entry_of_page(m, pn) & PTE_PRESENT == 0
    } else {
        spec_entry_of_page(m, pn) == spec_entry_of_page(m0, pn)
    }
}

/// Stepping a virtual address one page forward steps its page number.
proof fn lemma_page_step(v: u64)
    requires
        v + 4096 < 0x1_0000_0000_0000,
    ensures
        spec_page_of((v + 4096) as u64) == spec_page_of(v) + 1,
{
    assert((((v + 4096) as u64) >> 12) & 0xF_FFFF_FFFF == ((v >> 12) & 0xF_FFFF_FFFF) + 1) by (
    bit_vector)
        requires
            v + 4096 < 0x1_0000_0000_0000,
    ;
}

impl Mapper {
    /// Map `size` bytes (rounded up to whole pages) from `virt_start` onto
    /// the frames from `phys_start` on, page by page. Pages outside the
    /// range keep their leaf entries.
    pub fn map_range(
        &mut self,
        virt_start: VirtAddr,
        phys_start: PhysAddr,
        size: usize,
        flags: u64,
    ) -> (r: Option<()>)
        requires
            mapper_wf(*old(self)),
            virt_start.addr + spec_pages_of(size as int) * 4096 <= 0x1_0000_0000_0000,
            phys_start.addr + spec_pages_of(size as int) * 4096 <= u64::MAX,
            size + 0xFFF <= usize::MAX,
        ensures
            mapper_wf(*final(self)),
            r is Some,
            forall|pn: u64|
                pn < 0x10_0000_0000 ==> #[trigger] spec_entry_of_page(*final(self), pn)
                    == spec_range_entry(
                    *old(self),
                    phys_start.addr,
                    flags,
                    spec_page_of(virt_start.addr),
                    spec_pages_of(size as int),
                    pn,
                ),
    {
        let pages: usize = (size + 0xFFF) / 0x1000;
        let ghost base = spec_page_of(virt_start.addr);
        let mut current_virt: u64 = virt_start.addr;
        let mut current_phys: u64 = phys_start.addr;
        let mut i: usize = 0;
        proof {
            assert(pages * 4096 == spec_pages_of(size as int) * 4096);
            let va = virt_start.addr;
            assert((va >> 12) & 0xF_FFFF_FFFF < 0x10_0000_0000) by (bit_vector);
        }
        while i < pages
            invariant
                i <= pages,
                mapper_wf(*self),
                base == spec_page_of(virt_start.addr),
                base < 0x10_0000_0000,
                current_virt == virt_start.addr + i * 4096,
                current_phys == phys_start.addr + i * 4096,
                virt_start.addr + pages * 4096 <= 0x1_0000_0000_0000,
                phys_start.addr + pages * 4096 <= u64::MAX,
                i < pages ==> spec_page_of(current_virt) == base + i,
                forall|pn: u64|
                    pn < 0x10_0000_0000 ==> #[trigger] spec_entry_of_page(*self, pn)
                        == spec_range_entry(
                        *old(self),
                        phys_start.addr,
                        flags,
                        base,
                        i as int,
                        pn,
                    ),
            decreases pages - i,
        {
            proof {
                assert(i * 4096 + 4096 == (i + 1) * 4096 && (i + 1) * 4096 <= pages * 4096) by (
                nonlinear_arith)
                    requires
                        0 <= i < pages,
                ;
            }
            let ghost pre = *self;
            self.map_page(VirtAddr { addr: current_virt }, PhysAddr { addr: current_phys }, flags);
            proof {
                if i + 1 < pages {
                    assert((i + 1) * 4096 + 4096 <= pages * 4096) by (nonlinear_arith)
                        requires
                            i + 2 <= pages,
                    ;
                    lemma_page_step(current_virt);
                }
                assert forall|pn: u64|
                    pn < 0x10_0000_0000 implies #[trigger] spec_entry_of_page(*self, pn)
                    == spec_range_entry(
                    *old(self),
                    phys_start.addr,
                    flags,
                    base,
                    i + 1,
                    pn,
                ) by {
                    if pn == base + i {
                        assert((pn - base) * 4096 == i * 4096) by (nonlinear_arith)
                            requires
                                pn == base + i,
                        ;
                    } else {
                        assert(spec_entry_of_page(*self, pn) == spec_entry_of_page(pre, pn));
                    }
                }
            }
            current_virt = current_virt + 4096;
            current_phys = current_phys + 4096;
            i += 1;
        }
        Option::Some(())
    }

    /// Unmap `size` bytes (rounded up to whole pages) from `virt_start` on:
    /// afterwards no page in the range has a present leaf entry, and pages
    /// outside the range are untouched.
    pub fn unmap_range(&mut self, virt_start: VirtAddr, size: usize)
        requires
            mapper_wf(*old(self)),
            virt_start.addr + spec_pages_of(size as int) * 4096 <= 0x1_0000_0000_0000,
            size + 0xFFF <= usize::MAX,
        ensures
            mapper_wf(*final(self)),
            forall|pn: u64|
                pn < 0x10_0000_0000 ==> #[trigger] spec_range_cleared(
                    *old(self),
                    *final(self),
                    spec_page_of(virt_start.addr),
                    spec_pages_of(size as int),
                    pn,
                ),
    {
        let pages: usize = (size + 0xFFF) / 0x1000;
        let ghost base = spec_page_of(virt_start.addr);
        let mut current_virt: u64 = virt_start.addr;
        let mut i: usize = 0;
        proof {
            assert(pages * 4096 == spec_pages_of(size as int) * 4096);
            let va = virt_start.addr;
            assert((va >> 12) & 0xF_FFFF_FFFF < 0x10_0000_0000) by (bit_vector);
        }
        while i < pages
            invariant
                i <= pages,
                mapper_wf(*self),
                base == spec_page_of(virt_start.addr),
                base < 0x10_0000_0000,
                current_virt == virt_start.addr + i * 4096,
                virt_start.addr + pages * 4096 <= 0x1_0000_0000_0000,
                i < pages ==> spec_page_of(current_virt) == base + i,
                forall|pn: u64|
                    pn < 0x10_0000_0000 ==> #[trigger] spec_range_cleared(
                        *old(self),
                        *self,
                        base,
                        i as int,
                        pn,
                    ),
            decreases pages - i,
        {
            proof {
                assert(i * 4096 + 4096 == (i + 1) * 4096 && (i + 1) * 4096 <= pages * 4096) by (
                nonlinear_arith)
                    requires
                        0 <= i < pages,
                ;
            }
            let ghost pre = *self;
            let unmapped = self.unmap_page(VirtAddr { addr: current_virt });
            proof {
                if i + 1 < pages {
                    assert((i + 1) * 4096 + 4096 <= pages * 4096) by (nonlinear_arith)
                        requires
                            i + 2 <= pages,
                    ;
                    lemma_page_step(current_virt);
                }
                if unmapped is None {
                    assert(*self == pre);
                    assert(spec_entry_of_page(*self, (base + i) as u64) & PTE_PRESENT == 0);
                } else {
                    assert(spec_entry_of_page(*self, (base + i) as u64) == 0);
                    assert(0u64 & PTE_PRESENT == 0u64) by (bit_vector);
                }
                assert forall|pn: u64|
                    pn < 0x10_0000_0000 implies #[trigger] spec_range_cleared(
                    *old(self),
                    *self,
                    base,
                    i + 1,
                    pn,
                ) by {
                    if pn != base + i {
                        assert(spec_entry_of_page(*self, pn) == spec_entry_of_page(pre, pn));
                        assert(spec_range_cleared(*old(self), pre, base, i as int, pn));
                    }
                }
            }
            current_virt = current_virt + 4096;
            i += 1;
        }
    }
}

impl Mapper {
    /// Walk the tables for `v`: the installed frame and flags, or nothing
    /// when no present leaf entry is reached.
    pub fn translate(&self, virt: VirtAddr) -> (r: Option<(u64, u64)>)
        requires
            mapper_wf(*self),
        ensures
            r == spec_translate(*self, virt.addr),
    {
        let a = virt.p4_index();
        let b = virt.p3_index();
        let c = virt.p2_index();
        let d = virt.p1_index();
        proof {
            lemma_indices_are_page_digits(virt.addr);
        }
        let mut bits: u64 = 0;
        match &self.l4[a] {
            Option::Some(t3) => {
                match &t3.slots[b] {
                    Option::Some(t2) => {
                        match &t2.slots[c] {
                            Option::Some(pt) => {
                                bits = pt.entries[d].bits;
                            },
                            Option::None => {},
                        }
                    },
                    Option::None => {},
                }
            },
            Option::None => {},
        }
        proof {
            assert(bits == spec_entry_of_page(*self, spec_page_of(virt.addr)));
        }
        if bits & PTE_PRESENT != 0 {
            Option::Some((bits & PHYS_FRAME_MASK, bits))
        } else {
            Option::None
        }
    }
}

/// Two leaf-table slots hold the same mapping data.
pub open spec fn l2_same(a: TableL2, b: TableL2) -> bool {
    a.slots@.len() == ENTRIES_PER_TABLE && b.slots@.len() == ENTRIES_PER_TABLE && forall|c: int|
        0 <= c < ENTRIES_PER_TABLE ==> match (#[trigger] a.slots@[c], b.slots@[c]) {
            (Option::Some(x), Option::Some(y)) => x.entries@ == y.entries@,
            (Option::None, Option::None) => true,
            _ => false,
        }
}

/// Two third-level subtrees hold the same mapping data.
pub open spec fn l3_same(a: TableL3, b: TableL3) -> bool {
    a.slots@.len() == ENTRIES_PER_TABLE && b.slots@.len() == ENTRIES_PER_TABLE && forall|c: int|
        0 <= c < ENTRIES_PER_TABLE ==> match (#[trigger] a.slots@[c], b.slots@[c]) {
            (Option::Some(x), Option::Some(y)) => l2_same(x, y),
            (Option::None, Option::None) => true,
            _ => false,
        }
}

fn copy_page_table(src: &PageTable) -> (r: PageTable)
    requires
        page_table_wf(*src),
    ensures
        page_table_wf(r),
        r.entries@ == src.entries@,
{
    let mut entries: Vec<PageTableEntry> = Vec::new();
    let mut i: usize = 0;
    while i < ENTRIES_PER_TABLE
        invariant
            i <= ENTRIES_PER_TABLE,
            page_table_wf(*src),
            entries@ == src.entries@.subrange(0, i as int),
        decreases ENTRIES_PER_TABLE - i,
    {
        entries.push(src.entries[i]);
        proof {
            assert(entries@ =~= src.entries@.subrange(0, i + 1));
        }
        i += 1;
    }
    proof {
        assert(entries@ =~= src.entries@);
    }
    PageTable { entries }
}

fn copy_l2(src: &TableL2) -> (r: TableL2)
    requires
        l2_wf(*src),
    ensures
        l2_wf(r),
        l2_same(r, *src),
{
    let mut slots: Vec<Option<PageTable>> = Vec::new();
    let mut i: usize = 0;
    while i < ENTRIES_PER_TABLE
        invariant
            i <= ENTRIES_PER_TABLE,
            l2_wf(*src),
            slots@.len() == i,
            forall|c: int|
                0 <= c < i ==> match (#[trigger] slots@[c], src.slots@[c]) {
                    (Option::Some(x), Option::Some(y)) => x.entries@ == y.entries@
                        && page_table_wf(x),
                    (Option::None, Option::None) => true,
                    _ => false,
                },
        decreases ENTRIES_PER_TABLE - i,
    {
        match &src.slots[i] {
            Option::Some(pt) => {
                slots.push(Option::Some(copy_page_table(pt)));
            },
            Option::None => {
                slots.push(Option::None);
            },
        }
        i += 1;
    }
    TableL2 { slots }
}

fn copy_l3(src: &TableL3) -> (r: TableL3)
    requires
        l3_wf(*src),
    ensures
        l3_wf(r),
        l3_same(r, *src),
{
    let mut slots: Vec<Option<TableL2>> = Vec::new();
    let mut i: usize = 0;
    while i < ENTRIES_PER_TABLE
        invariant
            i <= ENTRIES_PER_TABLE,
            l3_wf(*src),
            slots@.len() == i,
            forall|c: int|
                0 <= c < i ==> match (#[trigger] slots@[c], src.slots@[c]) {
                    (Option::Some(x), Option::Some(y)) => l2_same(x, y) && l2_wf(x),
                    (Option::None, Option::None) => true,
                    _ => false,
                },
        decreases ENTRIES_PER_TABLE - i,
    {
        match &src.slots[i] {
            Option::Some(t2) => {
                slots.push(Option::Some(copy_l2(t2)));
            },
            Option::None => {
                slots.push(Option::None);
            },
        }
        i += 1;
    }
    TableL3 { slots }
}

impl Mapper {
    /// A fresh per-process top-level structure: the lower half (top-level
    /// slots below 256) is empty, the upper half carries the kernel's
    /// mappings. Ownership forbids sharing tables, so the kernel half is
    /// copied as of this call rather than aliased: later changes to the
    /// kernel mapper do not show through.
    pub fn create_user_pml4(&self) -> (r: Mapper)
        requires
            mapper_wf(*self),
        ensures
            mapper_wf(r),
            forall|pn: u64|
                #[trigger] spec_entry_of_page(r, pn) == (if (pn >> 27) & 0x1FF >= 256 {
                    spec_entry_of_page(*self, pn)
                } else {
                    0u64
                }),
    {
        let mut l4: Vec<Option<TableL3>> = Vec::new();
        let mut a: usize = 0;
        while a < ENTRIES_PER_TABLE
            invariant
                a <= ENTRIES_PER_TABLE,
                mapper_wf(*self),
                l4@.len() == a,
                forall|c: int| 0 <= c < a && c < 256 ==> #[trigger] l4@[c] is None,
                forall|c: int|
                    256 <= c < a ==> match (#[trigger] l4@[c], self.l4@[c]) {
                        (Option::Some(x), Option::Some(y)) => l3_same(x, y) && l3_wf(x),
                        (Option::None, Option::None) => true,
                        _ => false,
                    },
            decreases ENTRIES_PER_TABLE - a,
        {
            if a < 256 {
                l4.push(Option::None);
            } else {
                match &self.l4[a] {
                    Option::Some(t3) => {
                        l4.push(Option::Some(copy_l3(t3)));
                    },
                    Option::None => {
                        l4.push(Option::None);
                    },
                }
            }
            a += 1;
        }
        let r = Mapper { l4 };
        proof {
            assert forall|pn: u64| #[trigger] spec_entry_of_page(r, pn) == (if (pn >> 27) & 0x1FF
                >= 256 {
                spec_entry_of_page(*self, pn)
            } else {
                0u64
            }) by {
                assert((pn >> 27) & 0x1FF < 512 && (pn >> 18) & 0x1FF < 512 && (pn >> 9) & 0x1FF
                    < 512 && pn & 0x1FF < 512) by (bit_vector);
                let qa = ((pn >> 27) & 0x1FF) as int;
                let qb = ((pn >> 18) & 0x1FF) as int;
                let qc = ((pn >> 9) & 0x1FF) as int;
                let qd = (pn & 0x1FF) as int;
                if qa >= 256 {
                    match (r.l4@[qa], self.l4@[qa]) {
                        (Option::Some(x3), Option::Some(y3)) => {
                            match (x3.slots@[qb], y3.slots@[qb]) {
                                (Option::Some(x2), Option::Some(y2)) => {
                                    assert(l2_same(x2, y2));
                                },
                                _ => {},
                            }
                        },
                        _ => {},
                    }
                }
            }
        }
        r
    }
}

} // verus!
