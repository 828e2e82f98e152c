//! The MMIO arena: a half-open interval of virtual addresses handed out by
//! a bump pointer, each grant mapped uncached onto the device's frames.

use vstd::prelude::*;

verus! {

use crate::vmm::{
    Mapper,
    mapper_wf,
    spec_pages_of,
    spec_range_entry,
    spec_page_of,
    PTE_WRITABLE,
    PTE_NO_CACHE,
    PTE_WRITE_THROUGH,
};
use crate::addr::{PhysAddr, VirtAddr};

/// The arena's bounds and its bump pointer.
pub struct MmioArena {
    pub lower: u64,
    pub upper: u64,
    pub current: u64,
}

pub open spec fn arena_wf(a: MmioArena) -> bool {
    a.lower <= a.current <= a.upper
}

/// Set the virtual range MMIO mappings are drawn from.
pub fn mmio_map_range(lower: u64, upper: u64) -> (a: MmioArena)
    requires
        lower <= upper,
    ensures
        arena_wf(a),
        a.lower == lower,
        a.upper == upper,
        a.current == lower,
{
    MmioArena { lower, upper, current: lower }
}

/// Bytes a grant of `size` takes: whole pages.
pub open spec fn spec_grant_len(size: u64) -> int {
    spec_pages_of(size as int) * 0x1000
}

/// Map `size` bytes of device memory at `addr` into the arena: the grant
/// starts at the bump pointer, is page-rounded, and is mapped writable,
/// uncached and write-through. Exhaustion reports an error and changes
/// nothing.
pub fn map_mmio(arena: &mut MmioArena, mapper: &mut Mapper, addr: u64, size: u64) -> (r: Result<
    u64,
    &'static str,
>)
    requires
        arena_wf(*old(arena)),
        mapper_wf(*old(mapper)),
        size + 0xFFF <= usize::MAX,
        old(arena).upper + 0x1000 < 0x1_0000_0000_0000,
        addr + spec_grant_len(size) <= u64::MAX,
    ensures
        arena_wf(*final(arena)),
        mapper_wf(*final(mapper)),
        final(arena).lower == old(arena).lower,
        final(arena).upper == old(arena).upper,
        match r {
            Result::Ok(v) => {
                &&& old(arena).current + spec_grant_len(size) <= old(arena).upper
                &&& v == old(arena).current
                &&& final(arena).current == v + spec_grant_len(size)
                &&& forall|pn: u64|
                    pn < 0x10_0000_0000 ==> #[trigger] crate::vmm::spec_entry_of_page(
                        *final(mapper),
                        pn,
                    ) == spec_range_entry(
                        *old(mapper),
                        addr,
                        PTE_WRITABLE | PTE_NO_CACHE | PTE_WRITE_THROUGH,
                        spec_page_of(v),
                        spec_pages_of(size as int),
                        pn,
                    )
            },
            Result::Err(m) => {
                &&& m@ == "MMIO region exhausted"@
                &&& old(arena).current + spec_grant_len(size) > old(arena).upper
                &&& *final(arena) == *old(arena)
                &&& *final(mapper) == *old(mapper)
            },
        },
{
    let pages_needed: u64 = (size + 0xFFF) / 0x1000;
    proof {
        assert(pages_needed * 0x1000 == spec_grant_len(size)) by (nonlinear_arith)
            requires
                pages_needed == (size + 0xFFF) as int / 0x1000,
                spec_grant_len(size) == ((size + 0xFFF) as int / 0x1000) * 0x1000,
        ;
        vstd::arithmetic::div_mod::lemma_fundamental_div_mod((size + 0xFFF) as int, 0x1000);
        assert(pages_needed * 0x1000 <= size + 0xFFF) by (nonlinear_arith)
            requires
                (size + 0xFFF) as int == 0x1000 * pages_needed + ((size + 0xFFF) as int % 0x1000),
                0 <= (size + 0xFFF) as int % 0x1000,
        ;
    }
    let total_size: u64 = pages_needed * 0x1000;
    if total_size > arena.upper || arena.current > arena.upper - total_size {
        return Result::Err("MMIO region exhausted");
    }
    let virt_addr = arena.current;
    let sz: usize = total_size as usize;
    proof {
        assert(spec_pages_of(sz as int) * 0x1000 == sz) by (nonlinear_arith)
            requires
                sz == spec_grant_len(size),
                sz % 0x1000 == 0,
                spec_pages_of(sz as int) == (sz + 0xFFF) as int / 0x1000,
        ;
        assert(total_size % 0x1000 == 0) by (nonlinear_arith)
            requires
                total_size == pages_needed * 0x1000,
        ;
        assert(spec_pages_of(sz as int) == spec_pages_of(size as int)) by (nonlinear_arith)
            requires
                sz == spec_pages_of(size as int) * 0x1000,
                sz % 0x1000 == 0,
                spec_pages_of(sz as int) == (sz + 0xFFF) as int / 0x1000,
                spec_pages_of(size as int) >= 0,
        ;
    }
    let mapped = mapper.map_range(
        VirtAddr { addr: virt_addr },
        PhysAddr { addr },
        sz,
        PTE_WRITABLE | PTE_NO_CACHE | PTE_WRITE_THROUGH,
    );
    arena.current = arena.current + total_size;
    Result::Ok(virt_addr)
}

/// Space the arena still has.
pub fn mmio_remaining(arena: &MmioArena) -> (r: u64)
    ensures
        r == (if arena.upper >= arena.current {
            arena.upper - arena.current
        } else {
            0
        }),
{
    if arena.upper >= arena.current {
        arena.upper - arena.current
    } else {
        0
    }
}

/// Grants observed from successive arena states: each begins where the
/// bump pointer stood and ends where it stands next, so any two are
/// disjoint and later grants lie strictly above earlier ones.
pub open spec fn grants_chained(grants: Seq<(u64, u64)>) -> bool {
    forall|k: int|
        0 <= k < grants.len() - 1 ==> (#[trigger] grants[k]).0 + grants[k].1 <= grants[k + 1].0
}

/// Consecutive arena grants are strictly increasing and pairwise disjoint:
/// an earlier grant ends at or before a later one begins.
pub proof fn lemma_mmio_grants_disjoint(grants: Seq<(u64, u64)>, i: int, j: int)
    requires
        grants_chained(grants),
        forall|k: int| 0 <= k < grants.len() ==> (#[trigger] grants[k]).1 > 0,
        0 <= i < j < grants.len(),
    ensures
        grants[i].0 + grants[i].1 <= grants[j].0,
        grants[i].0 < grants[j].0,
    decreases j - i,
{
    if i + 1 == j {
    } else {
        lemma_mmio_grants_disjoint(grants, i + 1, j);
    }
}

} // verus!
