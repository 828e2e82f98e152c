//! The interrupt-descriptor table's raw gate layout. Installing the table
//! and its handlers is hardware work; the 128-bit descriptor a raw entry
//! holds is computed and verified here.

use vstd::prelude::*;

verus! {

/// Vector base the first interrupt controller is redirected to.
pub const PIC_1_OFFSET: u8 = 32;

/// Vector base of the second controller, directly above the first.
pub const PIC_2_OFFSET: u8 = 40;

/// Vector the timer interrupt is delivered on, well above the controller
/// range.
pub const APIC_TIMER_VECTOR: u8 = 0xEF;

/// The two 64-bit words of a raw interrupt gate for `handler`. The low
/// word carries the handler address's bits 0..16 and 16..32 at its ends,
/// the kernel code segment 0x08, and the mark 0x8E for a present ring-0
/// interrupt gate; the high word carries the address's upper half.
pub fn idt_gate_words(handler: u64) -> (r: (u64, u64))
    ensures
        r.0 == (handler & 0xFFFF) | 0x80000 | 0x8E00_0000_0000 | ((handler & 0xFFFF_0000) << 32),
        r.1 == handler >> 32,
{
    let low = (handler & 0xFFFF) | (0x08u64 << 16) | (0x8E00u64 << 32) | ((handler & 0xFFFF_0000)
        << 32);
    let high = handler >> 32;
    proof {
        assert(0x08u64 << 16 == 0x80000u64 && 0x8E00u64 << 32 == 0x8E00_0000_0000u64)
            by (bit_vector);
    }
    (low, high)
}

} // verus!
