//! Verified core of a small x86_64 kernel: virtual-memory management,
//! MMIO arena and frame allocation, a round-robin scheduler with a fixed
//! process table, an ATA (PIO) driver modelled over an in-memory device,
//! and a FAT12 filesystem driver on top of it.
//!
//! Hardware effects (port I/O, model-specific registers, the boot
//! protocol handoff) cannot be performed here; every algorithm and rule
//! is verified over explicit models of the data those effects carry.

pub mod addr;
pub mod elf;
pub mod fat12;
pub mod ide;
pub mod idt;
pub mod process;
pub mod sched;
pub mod vmm;
pub mod mmio;
pub mod frames;

use vstd::prelude::*;

verus! {

/// Size of one 4 KiB page, shared by the memory subsystems.
pub const PAGE_SIZE: u64 = 4096;

} // verus!
