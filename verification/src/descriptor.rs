//! One page-table entry: a fixed-width 64-bit value in the RISC-V Sv48 layout.
//!
//! Bit layout: V=0, R=1, W=2, X=3, U=4, G=5, A=6, D=7, software-defined
//! COW=8, frame number in bits 10..=53, memory-type (Svpbmt) in bits 61..=62,
//! and a software-defined swapped marker in bit 63 (meaningful only while the
//! valid bit is clear).
//!
//! A descriptor is in exactly one of four states: invalid (valid bit clear,
//! swapped bit clear), swapped (valid clear, swapped set), table (valid set,
//! R/W/X all clear, frame names a child table), or leaf (valid set, at least
//! one of R/W/X set, frame names mapped physical memory).
use vstd::prelude::*;

use crate::perms::PtePermissions;

verus! {

/// Mask of the frame-number field after shifting right by 10.
pub const PPN_MASK: u64 = 0xfff_ffff_ffff;

/// First frame number that no longer fits the 44-bit field.
pub const PPN_LIMIT: u64 = 0x1000_0000_0000;

/// Software-defined marker for an entry whose mapping was evicted to backing
/// store; lives in a bit the hardware ignores while the entry is invalid.
pub const SWAPPED_MASK: u64 = 1u64 << 63;

/// True when the hardware would treat the entry as present.
pub open spec fn desc_valid(d: u64) -> bool {
    d & 1 == 1
}

/// True when the entry is a pointer to a child table: valid with R/W/X clear.
pub open spec fn desc_is_table(d: u64) -> bool {
    desc_valid(d) && d & 0xe == 0
}

/// True when the entry terminates the walk: valid with some of R/W/X set.
pub open spec fn desc_is_leaf(d: u64) -> bool {
    desc_valid(d) && d & 0xe != 0
}

/// True when the entry carries the software swapped marker.
pub open spec fn desc_swap_marked(d: u64) -> bool {
    d & (1u64 << 63) != 0
}

/// The 44-bit frame-number field: a mapped frame for a leaf, a child table
/// for a table entry.
pub open spec fn desc_ppn(d: u64) -> u64 {
    (d >> 10) & 0xfff_ffff_ffff
}

/// Permission view of a leaf entry. The read bit is reported as granted
/// whenever the entry is mappable at all, mirroring how permissions are
/// applied when a leaf is built.
pub open spec fn desc_perms(d: u64) -> PtePermissions {
    PtePermissions {
        read: true,
        write: d & 4 != 0,
        execute: d & 8 != 0,
        user: d & 16 != 0,
        cow: d & 256 != 0,
    }
}

/// True when the entry requests strongly-ordered, non-cacheable (device)
/// attributes through the Svpbmt field.
pub open spec fn desc_is_device(d: u64) -> bool {
    (d >> 61) & 3 == 2
}

/// Memory-type policy applied when a leaf is built: `Normal` memory is
/// cacheable, `Device` memory is strongly ordered and non-cacheable.
#[derive(Clone, Copy, Debug, PartialEq, Eq, Structural)]
pub enum MemoryType {
    Device,
    Normal,
}

/// The three observable states of a bottom-level entry.
#[derive(Clone, Copy, Debug, PartialEq, Eq, Structural)]
pub enum L3DescriptorState {
    Invalid,
    Swapped,
    Valid,
}

/// A single page-table entry.
#[derive(Clone, Copy, Debug, PartialEq, Eq, Structural)]
pub struct PageDescriptor {
    pub bits: u64,
}

/// Behaviour shared by every kind of page-table entry.
pub trait PageTableEntry: Sized + Copy {
    /// The raw encoded value, for specification purposes.
    spec fn raw(self) -> u64;

    /// Returns `true` if the entry is valid (V bit set).
    fn is_valid(self) -> (r: bool)
        ensures
            r == desc_valid(self.raw()),
    ;

    /// Returns the raw value of this page descriptor.
    fn as_raw(self) -> (r: u64)
        ensures
            r == self.raw(),
    ;

    /// Builds the descriptor carrying a raw value.
    fn from_raw(v: u64) -> (r: Self)
        ensures
            r.raw() == v,
    ;

    /// Returns a new invalid page descriptor.
    fn invalid() -> (r: Self)
        ensures
            r.raw() == 0,
    ;
}

/// Behaviour of descriptors that can point to a next-level table.
pub trait TableMapper: PageTableEntry {
    /// Returns the frame number of the next-level table, if this entry is a
    /// table entry.
    fn next_table_address(self) -> (r: Option<u64>)
        ensures
            r == if desc_is_table(self.raw()) {
                Some(desc_ppn(self.raw()))
            } else {
                Option::<u64>::None
            },
    ;

    /// Creates a new entry that points to the child table in frame `ppn`.
    fn new_next_table(ppn: u64) -> (r: Self)
        requires
            ppn < PPN_LIMIT,
        ensures
            desc_is_table(r.raw()),
            desc_ppn(r.raw()) == ppn,
            !desc_swap_marked(r.raw()),
    ;
}

impl PageTableEntry for PageDescriptor {
    open spec fn raw(self) -> u64 {
        self.bits
    }

    fn is_valid(self) -> (r: bool) {
        self.bits & 1 == 1
    }

    fn as_raw(self) -> (r: u64) {
        self.bits
    }

    fn from_raw(v: u64) -> (r: Self) {
        PageDescriptor { bits: v }
    }

    fn invalid() -> (r: Self) {
        PageDescriptor { bits: 0 }
    }
}

impl TableMapper for PageDescriptor {
    fn next_table_address(self) -> (r: Option<u64>) {
        if self.bits & 1 == 1 && self.bits & 0xe == 0 {
            Some((self.bits >> 10) & PPN_MASK)
        } else {
            None
        }
    }

    fn new_next_table(ppn: u64) -> (r: Self) {
        let bits: u64 = 1 | (ppn << 10);
        proof {
            assert(bits & 1 == 1 && bits & 0xe == 0 && (bits >> 10) & 0xfff_ffff_ffff == ppn
                && bits & (1u64 << 63) == 0) by (bit_vector)
                requires
                    bits == 1 | (ppn << 10),
                    ppn < 0x1000_0000_0000u64,
            ;
        }
        PageDescriptor { bits }
    }
}

impl PageDescriptor {
    /// Builds a valid leaf mapping frame `ppn` with the given memory type and
    /// permissions. The read, accessed and dirty bits are always set; the
    /// requested write/execute/user/cow bits are applied on top.
    pub fn new_map_pa(ppn: u64, memory_type: MemoryType, perms: PtePermissions) -> (r: Self)
        requires
            ppn < PPN_LIMIT,
        ensures
            desc_is_leaf(r.bits),
            !desc_is_table(r.bits),
            desc_ppn(r.bits) == ppn,
            desc_perms(r.bits) == (PtePermissions {
                read: true,
                write: perms.write,
                execute: perms.execute,
                user: perms.user,
                cow: perms.cow,
            }),
            r.bits & 2 != 0,
            !desc_swap_marked(r.bits),
            desc_is_device(r.bits) == (memory_type == MemoryType::Device),
    {
        let pbmt: u64 = match memory_type {
            MemoryType::Device => 2u64 << 61,
            MemoryType::Normal => 0,
        };
        let base: u64 = 1 | (1 << 6) | (1 << 7) | (ppn << 10) | pbmt;
        let with_perms = PageDescriptor { bits: base }.set_permissions(perms);
        proof {
            let b = base;
            assert(b & 1 == 1 && (b >> 10) & 0xfff_ffff_ffff == ppn && b & (1u64 << 63) == 0 && ((
            b >> 61) & 3 == 2) == (pbmt == 2u64 << 61)) by (bit_vector)
                requires
                    b == 1 | (1u64 << 6) | (1u64 << 7) | (ppn << 10) | pbmt,
                    ppn < 0x1000_0000_0000u64,
                    pbmt == 2u64 << 61 || pbmt == 0,
            ;
            assert(2u64 << 61 != 0) by (bit_vector);
        }
        with_perms
    }

    /// Frame number this entry maps, if it is a mappable leaf.
    pub open spec fn spec_mapped_frame(self) -> Option<u64> {
        if desc_valid(self.bits) && (self.bits & 2 != 0 || self.bits & 8 != 0) {
            Some(desc_ppn(self.bits))
        } else {
            None
        }
    }

    /// Frame number mapped by this entry, if it is a mappable leaf.
    pub fn mapped_address(self) -> (r: Option<u64>)
        ensures
            r == self.spec_mapped_frame(),
    {
        if self.bits & 1 == 1 && (self.bits & 2 != 0 || self.bits & 8 != 0) {
            Some((self.bits >> 10) & PPN_MASK)
        } else {
            None
        }
    }

    /// Permission view of this entry, if it is a mappable leaf.
    pub fn permissions(self) -> (r: Option<PtePermissions>)
        ensures
            r == if desc_valid(self.bits) && (self.bits & 2 != 0 || self.bits & 8 != 0) {
                Some(desc_perms(self.bits))
            } else {
                Option::<PtePermissions>::None
            },
    {
        if self.bits & 1 != 1 {
            return None;
        }
        let w = self.bits & 4 != 0;
        let x = self.bits & 8 != 0;
        if self.bits & 2 == 0 && !x {
            return None;
        }
        let user = self.bits & 16 != 0;
        let cow = self.bits & 256 != 0;
        Some(PtePermissions::from_raw_bits(true, w, x, user, cow))
    }

    /// Rewrites the permission bits, forcing the read bit on, and leaves
    /// every other field (validity, frame, memory type, swapped marker)
    /// unchanged.
    pub fn set_permissions(self, perms: PtePermissions) -> (r: Self)
        ensures
            desc_valid(r.bits) == desc_valid(self.bits),
            desc_ppn(r.bits) == desc_ppn(self.bits),
            desc_swap_marked(r.bits) == desc_swap_marked(self.bits),
            desc_is_device(r.bits) == desc_is_device(self.bits),
            desc_valid(r.bits) ==> desc_is_leaf(r.bits),
            r.bits & 2 != 0,
            desc_perms(r.bits) == (PtePermissions {
                read: true,
                write: perms.write,
                execute: perms.execute,
                user: perms.user,
                cow: perms.cow,
            }),
    {
        let w: u64 = if perms.write {
            4
        } else {
            0
        };
        let x: u64 = if perms.execute {
            8
        } else {
            0
        };
        let u: u64 = if perms.user {
            16
        } else {
            0
        };
        let c: u64 = if perms.cow {
            256
        } else {
            0
        };
        let extra: u64 = w | x | u | c;
        let bits: u64 = (self.bits & !0x11eu64) | 2 | extra;
        proof {
            let a = self.bits;
            let b = bits;
            let e = extra;
            let wg = w;
            let xg = x;
            let ug = u;
            let cg = c;
            assert((wg | xg | ug | cg) & !0x11cu64 == 0 && ((wg | xg | ug | cg) & 4 != 0) == (wg
                == 4) && ((wg | xg | ug | cg) & 8 != 0) == (xg == 8) && ((wg | xg | ug | cg) & 16
                != 0) == (ug == 16) && ((wg | xg | ug | cg) & 256 != 0) == (cg == 256)) by (bit_vector)
                requires
                    wg == 4 || wg == 0,
                    xg == 8 || xg == 0,
                    ug == 16 || ug == 0,
                    cg == 256 || cg == 0,
            ;
            assert((b & 1 == 1) == (a & 1 == 1) && (b >> 10) & 0xfff_ffff_ffff == (a >> 10)
                & 0xfff_ffff_ffff && (b & (1u64 << 63) != 0) == (a & (1u64 << 63) != 0) && ((b
            >> 61) & 3) == ((a >> 61) & 3) && b & 2 != 0 && (b & 4 != 0) == (e & 4 != 0) && (b & 8
                != 0) == (e & 8 != 0) && (b & 16 != 0) == (e & 16 != 0) && (b & 256 != 0) == (e
                & 256 != 0) && b & 0xe != 0) by (bit_vector)
                requires
                    b == (a & !0x11eu64) | 2 | e,
                    e & !0x11cu64 == 0,
            ;
        }
        PageDescriptor { bits }
    }

    /// Clears the valid bit and sets the swapped marker, recording that the
    /// mapping was evicted to backing store rather than torn down.
    pub fn mark_as_swapped(self) -> (r: Self)
        ensures
            !desc_valid(r.bits),
            desc_swap_marked(r.bits),
            desc_ppn(r.bits) == desc_ppn(self.bits),
            desc_perms(r.bits) == desc_perms(self.bits),
            desc_is_device(r.bits) == desc_is_device(self.bits),
    {
        let bits: u64 = (self.bits & !1u64) | (1u64 << 63);
        proof {
            let a = self.bits;
            let b = bits;
            assert(b & 1 != 1 && b & (1u64 << 63) != 0 && (b >> 10) & 0xfff_ffff_ffff == (a >> 10)
                & 0xfff_ffff_ffff && (b & 4 != 0) == (a & 4 != 0) && (b & 8 != 0) == (a & 8 != 0)
                && (b & 16 != 0) == (a & 16 != 0) && (b & 256 != 0) == (a & 256 != 0) && ((b >> 61)
                & 3) == ((a >> 61) & 3)) by (bit_vector)
                requires
                    b == (a & !1u64) | (1u64 << 63),
            ;
        }
        PageDescriptor { bits }
    }

    /// Distinguishes the three bottom-level states: valid, swapped-out, or
    /// never mapped.
    pub fn state(self) -> (r: L3DescriptorState)
        ensures
            r == if desc_valid(self.bits) {
                L3DescriptorState::Valid
            } else if desc_swap_marked(self.bits) {
                L3DescriptorState::Swapped
            } else {
                L3DescriptorState::Invalid
            },
    {
        if self.bits & 1 == 1 {
            L3DescriptorState::Valid
        } else if self.bits & SWAPPED_MASK != 0 {
            L3DescriptorState::Swapped
        } else {
            L3DescriptorState::Invalid
        }
    }
}

} // verus!
