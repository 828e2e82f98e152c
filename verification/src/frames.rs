//! The boot-time frame allocator: a free list of 4 KiB-aligned physical
//! frames gathered from the bootloader's memory map, handed out from the
//! top of the list.

use vstd::prelude::*;

verus! {

use crate::addr::PhysAddr;
use crate::PAGE_SIZE;

/// One entry of the bootloader's memory map, as plain values.
#[derive(Clone, Copy, PartialEq, Eq, Structural)]
pub struct MemoryRegion {
    pub base: u64,
    pub length: u64,
    pub usable: bool,
}

/// A page-aligned frame wholly inside one usable region.
pub open spec fn frame_in_region(r: MemoryRegion, f: u64) -> bool {
    &&& f % PAGE_SIZE == 0
    &&& r.usable
    &&& r.base <= f
    &&& f + PAGE_SIZE <= r.base + r.length
}

/// A frame the allocator may hand out: page-aligned and wholly inside a
/// usable region of the memory map.
pub open spec fn frame_in_map(regions: Seq<MemoryRegion>, f: u64) -> bool {
    exists|k: int| 0 <= k < regions.len() && frame_in_region(#[trigger] regions[k], f)
}

/// Two page-aligned values within a page of one another are the same.
proof fn lemma_aligned_unique(a: u64, b: u64)
    requires
        a % PAGE_SIZE == 0,
        b % PAGE_SIZE == 0,
        a <= b < a + PAGE_SIZE,
    ensures
        a == b,
{
    vstd::arithmetic::div_mod::lemma_fundamental_div_mod(a as int, PAGE_SIZE as int);
    vstd::arithmetic::div_mod::lemma_fundamental_div_mod(b as int, PAGE_SIZE as int);
    assert(a == b) by (nonlinear_arith)
        requires
            a as int == 4096 * (a as int / 4096) + a as int % 4096,
            b as int == 4096 * (b as int / 4096) + b as int % 4096,
            a % 4096 == 0,
            b % 4096 == 0,
            PAGE_SIZE == 4096,
            a <= b < a + 4096,
    ;
}

/// The free list of frames.
pub struct FrameAllocator {
    pub free: Vec<u64>,
}

pub open spec fn allocator_wf(fa: FrameAllocator, regions: Seq<MemoryRegion>) -> bool {
    forall|i: int| 0 <= i < fa.free@.len() ==> frame_in_map(regions, #[trigger] fa.free@[i])
}

impl FrameAllocator {
    /// Gather every whole page of every usable region into the free list:
    /// nothing else, and nothing less.
    pub fn init(regions: &Vec<MemoryRegion>) -> (fa: FrameAllocator)
        requires
            forall|k: int|
                0 <= k < regions@.len() ==> (#[trigger] regions@[k]).base + regions@[k].length
                    <= u64::MAX,
        ensures
            allocator_wf(fa, regions@),
            forall|f: u64| frame_in_map(regions@, f) ==> fa.free@.contains(f),
    {
        let mut free: Vec<u64> = Vec::new();
        let mut k: usize = 0;
        while k < regions.len()
            invariant
                k <= regions@.len(),
                forall|q: int|
                    0 <= q < regions@.len() ==> (#[trigger] regions@[q]).base + regions@[q].length
                        <= u64::MAX,
                forall|i: int| 0 <= i < free@.len() ==> frame_in_map(regions@, #[trigger] free@[i]),
                forall|f: u64, q: int|
                    0 <= q < k && #[trigger] frame_in_region(regions@[q], f) ==> free@.contains(
                        f,
                    ),
            decreases regions@.len() - k,
        {
            let region = regions[k];
            let ghost pre_outer = free@;
            if region.usable && region.length >= PAGE_SIZE && region.base <= u64::MAX
                - PAGE_SIZE {
                let end = region.base + region.length;
                let start: u64 = if region.base % PAGE_SIZE == 0 {
                    region.base
                } else {
                    region.base + (PAGE_SIZE - region.base % PAGE_SIZE)
                };
                let mut frame: u64 = start;
                proof {
                    assert(start % PAGE_SIZE == 0) by (nonlinear_arith)
                        requires
                            PAGE_SIZE == 4096,
                            start == (if region.base % 4096 == 0 {
                                region.base as int
                            } else {
                                region.base + (4096 - region.base % 4096)
                            }),
                    ;
                }
                while frame % PAGE_SIZE == 0 && end >= PAGE_SIZE && frame <= end - PAGE_SIZE
                    invariant
                        k < regions@.len(),
                        region == regions@[k as int],
                        region.usable,
                        end == region.base + region.length,
                        start % PAGE_SIZE == 0,
                        frame % PAGE_SIZE == 0,
                        region.base <= start < region.base + PAGE_SIZE,
                        start <= frame,
                        end <= u64::MAX,
                        forall|i: int|
                            0 <= i < free@.len() ==> frame_in_map(regions@, #[trigger] free@[i]),
                        forall|f: u64, q: int|
                            0 <= q < k && #[trigger] frame_in_region(regions@[q], f)
                                ==> free@.contains(f),
                        forall|f: u64|
                            #[trigger] frame_in_region(region, f) && f < frame ==> free@.contains(
                                f,
                            ),
                    decreases end - frame,
                {
                    let ghost pre = free@;
                    free.push(frame);
                    proof {
                        assert(frame_in_map(regions@, frame)) by {
                            assert(frame_in_region(regions@[k as int], frame));
                        }
                        assert forall|f: u64| pre.contains(f) implies free@.contains(f) by {
                            let i = choose|i: int| 0 <= i < pre.len() && pre[i] == f;
                            assert(free@[i] == f);
                        }
                        assert(free@.contains(frame)) by {
                            assert(free@[free@.len() - 1] == frame);
                        }
                        assert forall|f: u64|
                            #[trigger] frame_in_region(region, f) && f < frame
                                + PAGE_SIZE implies free@.contains(f) by {
                            if f >= frame {
                                lemma_aligned_unique(frame, f);
                            }
                        }
                    }
                    frame = frame + PAGE_SIZE;
                }
                proof {
                    assert forall|f: u64| #[trigger] frame_in_region(region, f) implies
                        free@.contains(f) by {
                        if f >= frame {
                            // an in-region frame above the scan's stop would
                            // stick out past the region's end
                            assert(f + PAGE_SIZE <= end);
                            assert(frame > end - PAGE_SIZE);
                        } else if f < start {
                            // aligned and at or above the base means at or
                            // above the aligned start
                            lemma_aligned_unique(f, start);
                        }
                    }
                }
            } else {
                proof {
                    assert forall|f: u64| !frame_in_region(region, f) by {
                        if frame_in_region(region, f) {
                            assert(region.length >= PAGE_SIZE);
                            assert(region.base <= f && f + PAGE_SIZE <= region.base
                                + region.length <= u64::MAX);
                        }
                    }
                }
            }
            k += 1;
        }
        proof {
            assert forall|f: u64| frame_in_map(regions@, f) implies free@.contains(f) by {
                let q = choose|q: int|
                    0 <= q < regions@.len() && frame_in_region(#[trigger] regions@[q], f);
                assert(frame_in_region(regions@[q], f));
            }
        }
        FrameAllocator { free }
    }

    /// Hand out the frame on top of the free list; nothing is left to give
    /// exactly when the list is empty. Frames stay within whatever memory
    /// map the list was built from.
    pub fn alloc_frame(&mut self) -> (r: Option<PhysAddr>)
        ensures
            forall|regions: Seq<MemoryRegion>|
                allocator_wf(*old(self), regions) ==> allocator_wf(*final(self), regions),
            match r {
                Option::Some(p) => {
                    &&& old(self).free@.len() > 0
                    &&& p.addr == old(self).free@.last()
                    &&& final(self).free@ == old(self).free@.subrange(
                        0,
                        old(self).free@.len() - 1,
                    )
                    &&& forall|regions: Seq<MemoryRegion>|
                        allocator_wf(*old(self), regions) ==> frame_in_map(regions, p.addr)
                },
                Option::None => old(self).free@.len() == 0 && final(self).free@ == old(
                    self,
                ).free@,
            },
    {
        match self.free.pop() {
            Option::Some(f) => {
                proof {
                    assert forall|regions: Seq<MemoryRegion>|
                        allocator_wf(*old(self), regions) implies allocator_wf(
                        *self,
                        regions,
                    ) && frame_in_map(regions, f) by {
                        assert(frame_in_map(regions, old(self).free@[old(self).free@.len() - 1]));
                        assert forall|i: int| 0 <= i < self.free@.len() implies frame_in_map(
                            regions,
                            #[trigger] self.free@[i],
                        ) by {
                            assert(self.free@[i] == old(self).free@[i]);
                        }
                    }
                }
                Option::Some(PhysAddr { addr: f })
            },
            Option::None => Option::None,
        }
    }

    /// Return a frame to the free list.
    pub fn free_frame(&mut self, frame: PhysAddr)
        ensures
            final(self).free@ == old(self).free@.push(frame.addr),
            forall|regions: Seq<MemoryRegion>|
                allocator_wf(*old(self), regions) && frame_in_map(regions, frame.addr)
                    ==> allocator_wf(*final(self), regions),
    {
        self.free.push(frame.addr);
        proof {
            assert forall|regions: Seq<MemoryRegion>|
                allocator_wf(*old(self), regions) && frame_in_map(regions, frame.addr) implies
                allocator_wf(*self, regions) by {
                assert forall|i: int| 0 <= i < self.free@.len() implies frame_in_map(
                    regions,
                    #[trigger] self.free@[i],
                ) by {
                    if i < old(self).free@.len() {
                        assert(self.free@[i] == old(self).free@[i]);
                    } else {
                        assert(self.free@[i] == frame.addr);
                    }
                }
            }
        }
    }
}

} // verus!
