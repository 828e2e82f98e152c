use eucalypt_core::addr::{PhysAddr, VirtAddr};
use eucalypt_core::elf::{is_elf, parse_elf_header, read_u16_le, read_u32_le, read_u64_le};
use eucalypt_core::frames::{FrameAllocator, MemoryRegion};
use eucalypt_core::idt::idt_gate_words;
use eucalypt_core::mmio::{map_mmio, mmio_map_range, mmio_remaining};
use eucalypt_core::process::setup_initial_stack;
use eucalypt_core::vmm::{Mapper, PTE_PRESENT, PTE_WRITABLE};

#[test]
fn map_then_walk_yields_installed_frame_and_flags() {
    let mut m = Mapper::new();
    let v = VirtAddr { addr: 0xFFFF_8000_1234_5000u64 };
    let v2 = VirtAddr { addr: 0xFFFF_8000_1234_6000u64 };
    assert!(m.translate(v).is_none());
    m.map_page(v, PhysAddr { addr: 0xABC000 }, PTE_WRITABLE);
    let (frame, flags) = m.translate(v).unwrap();
    assert_eq!(frame, 0xABC000);
    assert_eq!(flags, 0xABC000 | PTE_WRITABLE | PTE_PRESENT);
    // the neighbouring page is untouched
    assert!(m.translate(v2).is_none());
    // unmapping returns the frame and clears the walk
    let freed = m.unmap_page(v).unwrap();
    assert_eq!(freed.addr, 0xABC000);
    assert!(m.translate(v).is_none());
    assert!(m.unmap_page(v).is_none());
}

#[test]
fn map_range_covers_every_page() {
    let mut m = Mapper::new();
    let base = 0x4000_0000u64;
    m.map_range(VirtAddr { addr: base }, PhysAddr { addr: 0x10_0000 }, 3 * 4096, PTE_WRITABLE);
    for k in 0..3u64 {
        let (frame, _) = m.translate(VirtAddr { addr: base + k * 4096 }).unwrap();
        assert_eq!(frame, 0x10_0000 + k * 4096);
    }
    assert!(m.translate(VirtAddr { addr: base + 3 * 4096 }).is_none());
    m.unmap_range(VirtAddr { addr: base }, 3 * 4096);
    for k in 0..3u64 {
        assert!(m.translate(VirtAddr { addr: base + k * 4096 }).is_none());
    }
}

#[test]
fn mmio_grants_are_increasing_and_disjoint_until_exhaustion() {
    let n = 4u64;
    let lower = 0x900_0000u64;
    let mut arena = mmio_map_range(lower, lower + n * 4096);
    let mut mapper = Mapper::new();
    let mut grants = Vec::new();
    for i in 0..n {
        let v = map_mmio(&mut arena, &mut mapper, 0xFE00_0000 + i * 4096, 4096).unwrap();
        grants.push(v);
    }
    // the arena is sized to n pages: the next call must fail
    assert_eq!(
        map_mmio(&mut arena, &mut mapper, 0xFE10_0000, 4096),
        Err("MMIO region exhausted")
    );
    assert_eq!(mmio_remaining(&arena), 0);
    for w in grants.windows(2) {
        assert!(w[0] + 4096 <= w[1], "grants overlap: {:x} {:x}", w[0], w[1]);
    }
    // and each grant is mapped
    for (i, v) in grants.iter().enumerate() {
        let (frame, _) = mapper.translate(VirtAddr { addr: *v }).unwrap();
        assert_eq!(frame, 0xFE00_0000 + (i as u64) * 4096);
    }
}

#[test]
fn mmio_rounds_odd_sizes_up_to_pages() {
    let mut arena = mmio_map_range(0x1000, 0x1000 + 3 * 4096);
    let mut mapper = Mapper::new();
    let v1 = map_mmio(&mut arena, &mut mapper, 0xFEE0_0000, 100).unwrap();
    let v2 = map_mmio(&mut arena, &mut mapper, 0xFEE1_0000, 4097).unwrap();
    assert_eq!(v1, 0x1000);
    assert_eq!(v2, 0x1000 + 4096); // 100 bytes took one whole page
    assert_eq!(mmio_remaining(&arena), 0); // 4097 bytes took the other two
}

#[test]
fn frame_allocator_hands_out_aligned_frames_from_usable_regions() {
    let regions = vec![
        MemoryRegion { base: 0x1000, length: 0x3000, usable: true },
        MemoryRegion { base: 0x8000, length: 0x2000, usable: false },
        MemoryRegion { base: 0x10800, length: 0x2800, usable: true },
    ];
    let mut fa = FrameAllocator::init(&regions);
    // 3 frames from the first region, 2 aligned ones from the third
    assert_eq!(fa.free.len(), 5);
    let mut seen = Vec::new();
    while let Some(f) = fa.alloc_frame() {
        assert_eq!(f.addr % 4096, 0);
        seen.push(f.addr);
    }
    assert_eq!(seen.len(), 5);
    assert!(seen.contains(&0x1000));
    assert!(seen.contains(&0x11000));
    assert!(!seen.contains(&0x8000));
    fa.free_frame(PhysAddr { addr: 0x2000 });
    assert_eq!(fa.alloc_frame().unwrap().addr, 0x2000);
    assert!(fa.alloc_frame().is_none());
}

#[test]
fn initial_stack_frame_layout() {
    let top = 0x100000u64;
    let (rsp, frame) = setup_initial_stack(top, 0xDEAD, 0xBEEF);
    assert_eq!(rsp, top - 160);
    assert_eq!(frame.len(), 20);
    assert_eq!(frame[13], 0xDEAD); // entry pointer where the trampoline looks
    assert_eq!(frame[15], 0xBEEF); // return address: the trampoline
    assert_eq!(frame[16], 0x08); // code selector
    assert_eq!(frame[17], 0x202); // flags with interrupts enabled
    assert_eq!(frame[18], top); // stack pointer
    assert_eq!(frame[19], 0x10); // data selector
    assert_eq!(frame[0], 0);
}

#[test]
fn little_endian_field_readers() {
    let bytes = [0x78u8, 0x56, 0x34, 0x12, 0xEF, 0xCD, 0xAB, 0x89];
    assert_eq!(read_u16_le(&bytes, 0), 0x5678);
    assert_eq!(read_u32_le(&bytes, 0), 0x12345678);
    assert_eq!(read_u64_le(&bytes, 0), 0x89ABCDEF_12345678);
    assert_eq!(read_u16_le(&bytes, 3), 0xEF12);
}

#[test]
fn elf_header_parsing() {
    let mut image = vec![0u8; 64];
    image[0] = 0x7F;
    image[1] = b'E';
    image[2] = b'L';
    image[3] = b'F';
    image[24] = 0x00; // entry point 0x40_1000
    image[25] = 0x10;
    image[26] = 0x40;
    image[56] = 3; // three program headers
    assert!(is_elf(&image));
    assert!(!is_elf(b"\x7fELG"));
    let h = parse_elf_header(&image);
    assert_eq!(h.e_entry, 0x40_1000);
    assert_eq!(h.e_phnum, 3);
    assert_eq!(h.e_ident[0], 0x7F);
}

#[test]
fn virtual_address_indices() {
    let v = VirtAddr { addr: (3u64 << 39) | (5u64 << 30) | (7u64 << 21) | (9u64 << 12) | 0x123 };
    assert_eq!(v.p4_index(), 3);
    assert_eq!(v.p3_index(), 5);
    assert_eq!(v.p2_index(), 7);
    assert_eq!(v.p1_index(), 9);
}

#[test]
fn user_top_level_copies_kernel_half_only() {
    let mut kernel = Mapper::new();
    let upper = VirtAddr { addr: 0x8000_0000_1000u64 }; // top-level slot 256
    let lower = VirtAddr { addr: 0x0000_0000_1000u64 };
    kernel.map_page(upper, PhysAddr { addr: 0x333000 }, PTE_WRITABLE);
    kernel.map_page(lower, PhysAddr { addr: 0x444000 }, PTE_WRITABLE);
    let user = kernel.create_user_pml4();
    let (frame, _) = user.translate(upper).unwrap();
    assert_eq!(frame, 0x333000);
    // the lower half starts empty for every process
    assert!(user.translate(lower).is_none());
    // and the copy is as of the call: the kernel keeps both
    assert!(kernel.translate(lower).is_some());
}

#[test]
fn idt_gate_word_packing() {
    let (low, high) = idt_gate_words(0xFFFF_8000_1234_5678);
    assert_eq!(low, 0x5678 | 0x80000 | 0x8E00_0000_0000 | (0x1234u64 << 48));
    assert_eq!(high, 0xFFFF_8000);
    let (low0, high0) = idt_gate_words(0);
    assert_eq!(low0, 0x80000 | 0x8E00_0000_0000);
    assert_eq!(high0, 0);
}
