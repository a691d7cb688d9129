//! The fixmap: a small set of reserved virtual slots used to map arbitrary
//! physical pages before a full linear map exists.
//!
//! The fixmap owns a private spine of table pages — one per level, with two
//! bottom tables: one window for the flattened device tree, one for the
//! temporary page-table window — wired under the root at `FIXMAP_BASE`.
//! Temporarily mapping a table page writes one bottom-level entry and hands
//! back a guard naming the reserved virtual address; `unmap_temp_page`
//! clears the entry again when the caller is done with the window.
use vstd::prelude::*;

use crate::descriptor::{
    desc_is_table, desc_ppn, desc_valid, MemoryType, PageDescriptor, PageTableEntry, TableMapper,
    PPN_LIMIT,
};
use crate::errors::MapError;
use crate::level::index_of;
use crate::model::{desc_is_mappable, lemma_vpn_index_bounds, refs_closed, vpn_index, vpn_of};
use crate::perms::PtePermissions;
use crate::pool::{PageAllocator, PageTableMapper};
use crate::tlb::TLBInvalidator;

verus! {

/// Base of the fixmap window.
pub const FIXMAP_BASE: u64 = 0xffff_9000_0000_0000;

/// Reserved virtual address of the temporary page-table window: the first
/// slot of the second bottom-level table.
pub const FIXMAP_PGTABLE_TMP: u64 = 0xffff_9000_0020_0000;

/// Scoped handle to the temporary window; holds the virtual address the
/// mapped page answers to while the window is installed.
pub struct TempFixmapGuard {
    va: u64,
}

impl TempFixmapGuard {
    /// The reserved virtual address the page is reachable under.
    pub fn get_va(&self) -> (r: u64)
        ensures
            r == self.view_va(),
    {
        self.va
    }

    /// Spec view of the guarded address.
    pub closed spec fn view_va(&self) -> u64 {
        self.va
    }
}

/// The fixmap's spine: the frame numbers of its dedicated table pages.
pub struct Fixmap {
    l1: usize,
    l2: usize,
    l3_dtb: usize,
    l3_tmp: usize,
    ready: bool,
}

impl Fixmap {
    /// True once `setup_fixmaps` wired the spine into a root.
    pub closed spec fn is_ready(&self) -> bool {
        self.ready
    }

    /// Frame number of the bottom-level table holding the temporary
    /// window.
    pub closed spec fn tmp_table(&self) -> usize {
        self.l3_tmp
    }

    /// Frame number of the bottom-level table holding the device-tree
    /// window.
    pub closed spec fn dtb_table(&self) -> usize {
        self.l3_dtb
    }

    /// An unwired fixmap; `setup_fixmaps` allocates and links its tables.
    pub fn new() -> (r: Self)
        ensures
            !r.is_ready(),
    {
        Fixmap { l1: 0, l2: 0, l3_dtb: 0, l3_tmp: 0, ready: false }
    }

    /// Returns the reserved virtual address of a fixmap slot: slot 0 opens
    /// the device-tree window, every other slot the temporary page-table
    /// window.
    pub fn va_for_slot(slot: usize) -> (r: u64)
        ensures
            r == if slot == 0 {
                FIXMAP_BASE
            } else {
                FIXMAP_PGTABLE_TMP
            },
    {
        if slot == 0 {
            FIXMAP_BASE
        } else {
            FIXMAP_PGTABLE_TMP
        }
    }

    /// Allocates the fixmap's spine and wires it under `root_base`: the
    /// root gains a table entry for the fixmap's first-level table, which
    /// points to its second-level table, which points to the two
    /// bottom-level windows.
    pub fn setup_fixmaps<M: PageAllocator, I: TLBInvalidator>(
        &mut self,
        root_base: usize,
        mapper: &mut M,
        invalidator: &mut I,
    ) -> (r: Result<(), MapError>)
        requires
            (root_base as int) < old(mapper).tables().len(),
            old(mapper).tables().len() + 4 <= usize::MAX,
            old(mapper).tables().len() + 4 <= PPN_LIMIT,
            refs_closed(old(mapper).tables()),
        ensures
            old(mapper).tables().len() <= final(mapper).tables().len(),
            refs_closed(final(mapper).tables()),
            final(mapper).infallible() == old(mapper).infallible(),
            r == Err::<(), MapError>(MapError::NoMemory) ==> !old(mapper).infallible(),
            r is Ok ==> final(self).is_ready() && (final(self).tmp_table() as int) < final(mapper).tables().len(),
            r is Ok ==> crate::model::descend(
                final(mapper).tables(),
                root_base as int,
                0,
                crate::model::vpn_of(FIXMAP_BASE),
                3,
            ) == Some(final(self).dtb_table() as int) && crate::model::descend(
                final(mapper).tables(),
                root_base as int,
                0,
                crate::model::vpn_of(FIXMAP_PGTABLE_TMP),
                3,
            ) == Some(final(self).tmp_table() as int),
    {
        let ghost prev_l1 = mapper.tables();
        let l1 = match mapper.allocate_page_table() {
            Ok(t) => t,
            Err(e) => {
                return Err(e);
            },
        };
        proof {
            crate::model::lemma_refs_closed_push_zero(prev_l1);
        }
        let ghost prev_l2 = mapper.tables();
        let l2 = match mapper.allocate_page_table() {
            Ok(t) => t,
            Err(e) => {
                return Err(e);
            },
        };
        proof {
            crate::model::lemma_refs_closed_push_zero(prev_l2);
        }
        let ghost prev_l3_dtb = mapper.tables();
        let l3_dtb = match mapper.allocate_page_table() {
            Ok(t) => t,
            Err(e) => {
                return Err(e);
            },
        };
        proof {
            crate::model::lemma_refs_closed_push_zero(prev_l3_dtb);
        }
        let ghost prev_l3_tmp = mapper.tables();
        let l3_tmp = match mapper.allocate_page_table() {
            Ok(t) => t,
            Err(e) => {
                return Err(e);
            },
        };
        proof {
            crate::model::lemma_refs_closed_push_zero(prev_l3_tmp);
        }
        proof {
            lemma_vpn_index_bounds(vpn_of(FIXMAP_BASE), 0);
            lemma_vpn_index_bounds(vpn_of(FIXMAP_BASE), 1);
            lemma_vpn_index_bounds(vpn_of(FIXMAP_BASE), 2);
            lemma_vpn_index_bounds(vpn_of(FIXMAP_PGTABLE_TMP), 2);
        }
        let base_vpn = crate::level::vpn_of_va(FIXMAP_BASE);
        let tmp_vpn = crate::level::vpn_of_va(FIXMAP_PGTABLE_TMP);
        let e1 = PageDescriptor::new_next_table(l1 as u64);
        let e2 = PageDescriptor::new_next_table(l2 as u64);
        let e3 = PageDescriptor::new_next_table(l3_dtb as u64);
        let e4 = PageDescriptor::new_next_table(l3_tmp as u64);
        mapper.write_entry(root_base, index_of(base_vpn, 0), e1.as_raw());
        mapper.write_entry(l1, index_of(base_vpn, 1), e2.as_raw());
        mapper.write_entry(l2, index_of(base_vpn, 2), e3.as_raw());
        mapper.write_entry(l2, index_of(tmp_vpn, 2), e4.as_raw());
        proof {
            let nt = mapper.tables();
            let ot = old(mapper).tables();
            let bvpn = vpn_of(FIXMAP_BASE);
            let tvpn = vpn_of(FIXMAP_PGTABLE_TMP);
            assert((bvpn >> 27) & 0x1ff == (tvpn >> 27) & 0x1ff && (bvpn >> 18) & 0x1ff == (tvpn
                >> 18) & 0x1ff && (bvpn >> 9) & 0x1ff != (tvpn >> 9) & 0x1ff && (bvpn >> 0) & 0x1ff
                == (tvpn >> 0) & 0x1ff) by (bit_vector)
                requires
                    bvpn == (0xffff_9000_0000_0000u64 >> 12) & 0xf_ffff_ffff,
                    tvpn == (0xffff_9000_0020_0000u64 >> 12) & 0xf_ffff_ffff,
            ;
            assert((root_base as int) < (l1 as int) && (l1 as int) < (l2 as int) && (
            l2 as int) < (l3_dtb as int) && (l3_dtb as int) < (l3_tmp as int));
            assert(nt[root_base as int][vpn_index(bvpn, 0)] == e1.bits);
            assert(nt[root_base as int][vpn_index(tvpn, 0)] == e1.bits);
            assert(nt[l1 as int][vpn_index(bvpn, 1)] == e2.bits);
            assert(nt[l1 as int][vpn_index(tvpn, 1)] == e2.bits);
            assert(nt[l2 as int][vpn_index(bvpn, 2)] == e3.bits);
            assert(nt[l2 as int][vpn_index(tvpn, 2)] == e4.bits);
            assert(crate::model::descend(nt, root_base as int, 0, bvpn, 3)
                == crate::model::descend(nt, l1 as int, 1, bvpn, 3));
            assert(crate::model::descend(nt, l1 as int, 1, bvpn, 3) == crate::model::descend(
                nt,
                l2 as int,
                2,
                bvpn,
                3,
            ));
            assert(crate::model::descend(nt, l2 as int, 2, bvpn, 3) == crate::model::descend(
                nt,
                l3_dtb as int,
                3,
                bvpn,
                3,
            ));
            assert(crate::model::descend(nt, l3_dtb as int, 3, bvpn, 3) == Some(l3_dtb as int));
            assert(crate::model::descend(nt, root_base as int, 0, tvpn, 3)
                == crate::model::descend(nt, l1 as int, 1, tvpn, 3));
            assert(crate::model::descend(nt, l1 as int, 1, tvpn, 3) == crate::model::descend(
                nt,
                l2 as int,
                2,
                tvpn,
                3,
            ));
            assert(crate::model::descend(nt, l2 as int, 2, tvpn, 3) == crate::model::descend(
                nt,
                l3_tmp as int,
                3,
                tvpn,
                3,
            ));
            assert(crate::model::descend(nt, l3_tmp as int, 3, tvpn, 3) == Some(l3_tmp as int));
            assert forall|t2: int, i2: int|
                0 <= t2 < nt.len() && 0 <= i2 < 512 && desc_is_table(
                    #[trigger] nt[t2][i2],
                ) implies desc_ppn(nt[t2][i2]) < nt.len() by {
                if t2 < ot.len() {
                    if t2 == root_base as int && i2 == vpn_index(vpn_of(FIXMAP_BASE), 0) {
                    } else {
                        assert(nt[t2][i2] == ot[t2][i2]);
                    }
                } else {
                    crate::model::lemma_zero_desc();
                }
            }
        }
        self.l1 = l1;
        self.l2 = l2;
        self.l3_dtb = l3_dtb;
        self.l3_tmp = l3_tmp;
        self.ready = true;
        Ok(())
    }

    /// Installs the table page in frame `pa` under the temporary window and
    /// returns the guard naming its reserved virtual address.
    pub fn temp_remap_page_table<M: PageTableMapper, I: TLBInvalidator>(
        &mut self,
        pa: usize,
        mapper: &mut M,
        invalidator: &mut I,
    ) -> (r: Result<TempFixmapGuard, MapError>)
        requires
            old(self).is_ready(),
            (old(self).tmp_table() as int) < old(mapper).tables().len(),
            (pa as u64) < PPN_LIMIT,
        ensures
            *final(self) == *old(self),
            final(mapper).tables().len() == old(mapper).tables().len(),
            r is Ok,
            r matches Ok(g) ==> {
                &&& g.view_va() == FIXMAP_PGTABLE_TMP
                &&& desc_is_mappable(
                    final(mapper).tables()[old(self).tmp_table() as int][vpn_index(
                        vpn_of(FIXMAP_PGTABLE_TMP),
                        3,
                    )],
                )
                &&& desc_ppn(
                    final(mapper).tables()[old(self).tmp_table() as int][vpn_index(
                        vpn_of(FIXMAP_PGTABLE_TMP),
                        3,
                    )],
                ) == pa as u64
            },
    {
        let va = Self::va_for_slot(1);
        let vpn = crate::level::vpn_of_va(va);
        proof {
            lemma_vpn_index_bounds(vpn_of(FIXMAP_PGTABLE_TMP), 3);
        }
        let leaf = PageDescriptor::new_map_pa(
            pa as u64,
            MemoryType::Normal,
            PtePermissions::rw(false),
        );
        mapper.write_entry(self.l3_tmp, index_of(vpn, 3), leaf.as_raw());
        invalidator.invalidate_page(va);
        Ok(TempFixmapGuard { va })
    }

    /// Clears the temporary window again, ending the page's visibility.
    pub fn unmap_temp_page<M: PageTableMapper, I: TLBInvalidator>(
        &mut self,
        mapper: &mut M,
        invalidator: &mut I,
    )
        requires
            old(self).is_ready(),
            (old(self).tmp_table() as int) < old(mapper).tables().len(),
        ensures
            *final(self) == *old(self),
            final(mapper).tables().len() == old(mapper).tables().len(),
            !desc_valid(
                final(mapper).tables()[old(self).tmp_table() as int][vpn_index(
                    vpn_of(FIXMAP_PGTABLE_TMP),
                    3,
                )],
            ),
    {
        let va = Self::va_for_slot(1);
        let vpn = crate::level::vpn_of_va(va);
        proof {
            lemma_vpn_index_bounds(vpn_of(FIXMAP_PGTABLE_TMP), 3);
            crate::model::lemma_zero_desc();
        }
        mapper.write_entry(self.l3_tmp, index_of(vpn, 3), PageDescriptor::invalid().as_raw());
        invalidator.invalidate_page(va);
    }
}

} // verus!
