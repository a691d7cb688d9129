//! The four levels of an Sv48 hierarchy, as runtime values and as typed
//! markers.
//!
//! The engine itself works on a numeric depth (0 at the root, 3 at the leaf
//! level); the marker types describe the same levels in the type-level style
//! of the hierarchy's consumers.
use vstd::prelude::*;

use crate::descriptor::{
    desc_perms, desc_ppn, desc_swap_marked, desc_valid, MemoryType, PageDescriptor, PPN_LIMIT,
};
use crate::map::MemRegion;
use crate::model::{applied_perms, level_pages, level_shift, vpn_index, vpn_of, VPN_LIMIT};
use crate::perms::PtePermissions;

verus! {

/// Exec mirror of the model's per-level index extraction, over a virtual
/// page number.
pub fn index_of(vpn: u64, level: usize) -> (r: usize)
    requires
        level <= 3,
    ensures
        r as int == vpn_index(vpn, level as int),
        r < 512,
{
    let sh: u64 = 27 - 9 * (level as u64);
    let masked = (vpn >> sh) & 0x1ff;
    proof {
        assert((vpn >> sh) & 0x1ff < 512) by (bit_vector);
    }
    masked as usize
}

/// Exec mirror of the model's per-level coverage, in smallest pages.
pub fn pages_of_level(level: usize) -> (r: u64)
    requires
        level <= 3,
    ensures
        r == level_pages(level as int),
{
    if level == 0 {
        0x800_0000
    } else if level == 1 {
        0x4_0000
    } else if level == 2 {
        0x200
    } else {
        1
    }
}

/// The virtual page number of the page holding `va`: its 36 Sv48 index
/// bits. Always below `VPN_LIMIT`.
pub fn vpn_of_va(va: u64) -> (r: u64)
    ensures
        r == vpn_of(va),
        r < VPN_LIMIT,
{
    let r = (va >> 12) & 0xf_ffff_ffff;
    proof {
        let x = va;
        assert((x >> 12) & 0xf_ffff_ffff < 0x10_0000_0000u64) by (bit_vector);
    }
    r
}

/// One level of the page-table hierarchy: its depth, its index extraction,
/// the bytes one of its entries covers, and whether the walk ends here in
/// standard 4 KiB paging.
pub trait PgTable: Sized {
    /// Depth of this level, 0 at the root.
    spec fn spec_level() -> int;

    /// Exec view of the depth.
    fn level() -> (r: usize)
        ensures
            r as int == Self::spec_level(),
            r <= 3,
    ;

    /// Returns the index of this level for a given virtual address.
    fn index(va: u64) -> (r: usize)
        ensures
            r as int == vpn_index(vpn_of(va), Self::spec_level()),
            r < 512,
    ;

    /// Returns the bytes covered by one entry at this level.
    fn page_size() -> (r: u64)
        ensures
            r == level_pages(Self::spec_level()) * 4096,
    ;

    /// Returns true if this level is the last level of the walk.
    fn is_leaf() -> (r: bool)
        ensures
            r == (Self::spec_level() == 3),
    ;
}

/// The root level: indices in bits 39..=47 of an address, 512 GiB per entry.
pub struct L0Table;

/// The first intermediate level: 1 GiB per entry.
pub struct L1Table;

/// The second intermediate level: 2 MiB per entry.
pub struct L2Table;

/// The leaf level of standard 4 KiB paging.
pub struct L3Table;

impl PgTable for L0Table {
    open spec fn spec_level() -> int {
        0
    }

    fn level() -> (r: usize) {
        0
    }

    fn index(va: u64) -> (r: usize) {
        index_of(vpn_of_va(va), 0)
    }

    fn page_size() -> (r: u64) {
        0x80_0000_0000u64
    }

    fn is_leaf() -> (r: bool) {
        false
    }
}

impl PgTable for L1Table {
    open spec fn spec_level() -> int {
        1
    }

    fn level() -> (r: usize) {
        1
    }

    fn index(va: u64) -> (r: usize) {
        index_of(vpn_of_va(va), 1)
    }

    fn page_size() -> (r: u64) {
        0x4000_0000u64
    }

    fn is_leaf() -> (r: bool) {
        false
    }
}

impl PgTable for L2Table {
    open spec fn spec_level() -> int {
        2
    }

    fn level() -> (r: usize) {
        2
    }

    fn index(va: u64) -> (r: usize) {
        index_of(vpn_of_va(va), 2)
    }

    fn page_size() -> (r: u64) {
        0x20_0000u64
    }

    fn is_leaf() -> (r: bool) {
        false
    }
}

impl PgTable for L3Table {
    open spec fn spec_level() -> int {
        3
    }

    fn level() -> (r: usize) {
        3
    }

    fn index(va: u64) -> (r: usize) {
        index_of(vpn_of_va(va), 3)
    }

    fn page_size() -> (r: u64) {
        4096u64
    }

    fn is_leaf() -> (r: bool) {
        true
    }
}

/// A level whose entries may terminate the walk as a leaf: the block size
/// it maps, the alignment test for mapping at it, and the leaf construction
/// itself.
pub trait PaMapper: PgTable {
    /// Returns the base-two logarithm of the bytes one leaf at this level
    /// maps.
    fn map_shift() -> (r: u64)
        ensures
            r == 12 + 9 * (3 - Self::spec_level()),
            level_pages(Self::spec_level()) * 4096 == (1u64 << r),
    ;

    /// Whether a prefix of the region could be mapped by one leaf at this
    /// level: both addresses sit on the level's block boundary and the
    /// region covers a whole block.
    fn could_map(region: MemRegion, va: u64) -> (r: bool)
        ensures
            r == (region.start as int % (level_pages(Self::spec_level()) * 4096) == 0 && va as int % (
            level_pages(Self::spec_level()) * 4096) == 0 && region.size >= level_pages(
                Self::spec_level(),
            ) * 4096),
    ;

    /// Constructs a valid leaf mapping the block-aligned physical address.
    fn new_map_pa(page_address: u64, memory_type: MemoryType, perms: PtePermissions) -> (r:
        PageDescriptor)
        requires
            page_address as int % (level_pages(Self::spec_level()) * 4096) == 0,
            page_address / 4096 < PPN_LIMIT,
        ensures
            desc_valid(r.bits),
            desc_ppn(r.bits) == page_address / 4096,
            desc_perms(r.bits) == applied_perms(perms),
            !desc_swap_marked(r.bits),
    ;

    /// Returns the physical address a leaf at this level maps.
    fn mapped_address(d: PageDescriptor) -> (r: Option<u64>)
        ensures
            r == d.spec_mapped_frame(),
    ;
}

impl PaMapper for L0Table {
    fn map_shift() -> (r: u64) {
        proof {
            assert(1u64 << 39 == 0x80_0000_0000u64) by (bit_vector);
        }
        39
    }

    fn could_map(region: MemRegion, va: u64) -> (r: bool) {
        let bytes: u64 = 0x80_0000_0000;
        region.start % bytes == 0 && va % bytes == 0 && region.size >= bytes
    }

    fn new_map_pa(page_address: u64, memory_type: MemoryType, perms: PtePermissions) -> (r:
        PageDescriptor) {
        PageDescriptor::new_map_pa(page_address / 4096, memory_type, perms)
    }

    fn mapped_address(d: PageDescriptor) -> (r: Option<u64>) {
        d.mapped_address()
    }
}

impl PaMapper for L1Table {
    fn map_shift() -> (r: u64) {
        proof {
            assert(1u64 << 30 == 0x4000_0000u64) by (bit_vector);
        }
        30
    }

    fn could_map(region: MemRegion, va: u64) -> (r: bool) {
        let bytes: u64 = 0x4000_0000;
        region.start % bytes == 0 && va % bytes == 0 && region.size >= bytes
    }

    fn new_map_pa(page_address: u64, memory_type: MemoryType, perms: PtePermissions) -> (r:
        PageDescriptor) {
        PageDescriptor::new_map_pa(page_address / 4096, memory_type, perms)
    }

    fn mapped_address(d: PageDescriptor) -> (r: Option<u64>) {
        d.mapped_address()
    }
}

impl PaMapper for L2Table {
    fn map_shift() -> (r: u64) {
        proof {
            assert(1u64 << 21 == 0x20_0000u64) by (bit_vector);
        }
        21
    }

    fn could_map(region: MemRegion, va: u64) -> (r: bool) {
        let bytes: u64 = 0x20_0000;
        region.start % bytes == 0 && va % bytes == 0 && region.size >= bytes
    }

    fn new_map_pa(page_address: u64, memory_type: MemoryType, perms: PtePermissions) -> (r:
        PageDescriptor) {
        PageDescriptor::new_map_pa(page_address / 4096, memory_type, perms)
    }

    fn mapped_address(d: PageDescriptor) -> (r: Option<u64>) {
        d.mapped_address()
    }
}

impl PaMapper for L3Table {
    fn map_shift() -> (r: u64) {
        proof {
            assert(1u64 << 12 == 4096u64) by (bit_vector);
        }
        12
    }

    fn could_map(region: MemRegion, va: u64) -> (r: bool) {
        let bytes: u64 = 4096;
        region.start % bytes == 0 && va % bytes == 0 && region.size >= bytes
    }

    fn new_map_pa(page_address: u64, memory_type: MemoryType, perms: PtePermissions) -> (r:
        PageDescriptor) {
        PageDescriptor::new_map_pa(page_address / 4096, memory_type, perms)
    }

    fn mapped_address(d: PageDescriptor) -> (r: Option<u64>) {
        d.mapped_address()
    }
}

} // verus!
