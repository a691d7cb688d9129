//! Architecture-generic virtual-memory core: hierarchical page tables for a
//! RISC-V Sv48 style MMU, the mapping engine that builds them, the region
//! walker that mutates and queries them, and the kernel/process address-space
//! abstractions on top.
//!
//! Table pages live in an explicit arena (the page-table allocator doubles as
//! the "physical memory" that holds them); a descriptor's frame-number field
//! names either a mapped physical frame or the arena slot of a child table.
use vstd::prelude::*;

pub mod descriptor;
pub mod errors;
pub mod fixmap;
pub mod laws;
pub mod level;
pub mod map;
pub mod model;
pub mod perms;
pub mod pool;
pub mod space;
pub mod tlb;
pub mod trapframe;
pub mod walk;

verus! {

/// Base-two logarithm of the translation granule.
pub const PAGE_SHIFT: u64 = 12;

/// Smallest mappable unit, in bytes.
pub const PAGE_SIZE: u64 = 4096;

/// Descriptors held by one table page.
pub const DESCRIPTORS_PER_PAGE: usize = 512;

/// Mask applied to a virtual-address chunk to extract one level's index.
pub const LEVEL_MASK: u64 = 511;

/// Returns whether `addr` lies on a page boundary.
pub fn is_page_aligned(addr: u64) -> (r: bool)
    ensures
        r == (addr % 4096 == 0),
{
    addr % PAGE_SIZE == 0
}

} // verus!
