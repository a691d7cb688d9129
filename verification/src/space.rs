//! Kernel and per-process address spaces built on the mapping engine and
//! the region walker.
//!
//! An address space owns only the frame number of its root table; the table
//! pages themselves live in the arena the caller passes into every
//! operation, as the capability contexts do. A process space's upper half —
//! the root entries above the user/kernel split — is copied from the kernel
//! root at creation and never privately mutated, so one root-register swap
//! moves between the two sets of mappings.
use vstd::prelude::*;

use crate::descriptor::{desc_perms, desc_ppn, MemoryType, PageDescriptor, PageTableEntry, PPN_LIMIT};
use crate::errors::MapError;
use crate::map::{map_range, page_blocked, MapAttributes, MappingContext, MemRegion};
use crate::model::{
    applied_perms, desc_is_mappable, lookup, refs_closed, resolve, tables_wf,
    valid_slots_preserved, vpn_of, LookupResult, PageMapping, VPN_LIMIT,
};
use crate::perms::PtePermissions;
use crate::pool::{PageAllocator, PageTableMapper};
use crate::tlb::TLBInvalidator;
use crate::walk::{
    page_done, region_unmapped, region_walkable, single_out, walk_and_modify_region, LeafOp,
    WalkContext,
};

verus! {

/// Base of the kernel's linear mapping of physical memory.
pub const PAGE_OFFSET: u64 = 0xffff_8000_0000_0000;

/// Link base of the kernel image.
pub const IMAGE_BASE: u64 = 0xffff_8000_0000_0000;

/// Base of the window where device memory is mapped, handed out by the
/// kernel space's monotonically growing cursor.
pub const MMIO_BASE: u64 = 0xffff_d000_0000_0000;

/// Upper end of the device window.
pub const MMIO_END: u64 = 0xffff_e000_0000_0000;

/// First root-table index of the kernel half of the address space.
pub const KERNEL_SPLIT_INDEX: usize = 256;

/// Translation-mode field selecting four-level paging, in the position the
/// translation-root register keeps it.
pub const SATP_MODE_SV48: u64 = 9u64 << 60;

/// What a translation probe reports for one mapped page.
#[derive(Clone, Copy, Debug, PartialEq, Eq, Structural)]
pub struct PageInfo {
    pub pfn: u64,
    pub perms: PtePermissions,
}

/// The single kernel address space: the root of the kernel hierarchy plus
/// the cursor from which device mappings are carved.
pub struct RiscvKernelAddressSpace {
    kernel_l0: usize,
    mmio_ptr: u64,
}

/// Builds the kernel address space around an already-populated root table.
pub fn setup_kern_addr_space(pa: usize) -> (r: RiscvKernelAddressSpace)
    ensures
        r.table_root() == pa,
        r.mmio_cursor() == MMIO_BASE,
        r.wf(),
{
    RiscvKernelAddressSpace { kernel_l0: pa, mmio_ptr: MMIO_BASE }
}

impl RiscvKernelAddressSpace {
    /// Frame number of the kernel root table.
    pub closed spec fn table_root(&self) -> usize {
        self.kernel_l0
    }

    /// Next free virtual address in the device window.
    pub closed spec fn mmio_cursor(&self) -> u64 {
        self.mmio_ptr
    }

    /// The device cursor stays page-aligned inside the device window.
    pub closed spec fn wf(&self) -> bool {
        self.mmio_ptr % 4096 == 0 && MMIO_BASE <= self.mmio_ptr <= MMIO_END
    }

    /// Physical address of the root table page.
    pub fn table_pa(&self) -> (r: usize)
        ensures
            r == self.table_root(),
    {
        self.kernel_l0
    }

    /// Maps a page-aligned physical range at a page-aligned virtual range
    /// as normal cacheable memory. The four precondition errors are
    /// reported exactly as `map_range` reports them, nothing else is ever
    /// reported but allocator exhaustion or a collision, and on success
    /// every page of the range resolves to its physical page, cacheable,
    /// with the requested permissions.
    pub fn map_normal<M: PageAllocator, I: TLBInvalidator>(
        &mut self,
        phys_range: MemRegion,
        virt_range: MemRegion,
        perms: PtePermissions,
        ctx: &mut MappingContext<M, I>,
    ) -> (r: Result<(), MapError>)
        requires
            (old(self).table_root() as int) < old(ctx).mapper.tables().len(),
            old(ctx).mapper.tables().len() + 3 * (virt_range.size / 4096) <= usize::MAX,
            old(ctx).mapper.tables().len() + 3 * (virt_range.size / 4096) <= PPN_LIMIT,
            refs_closed(old(ctx).mapper.tables()),
            vpn_of(virt_range.start) + virt_range.size / 4096 <= VPN_LIMIT,
            phys_range.start / 4096 + virt_range.size / 4096 <= PPN_LIMIT,
        ensures
            *final(self) == *old(self),
            ({
                let ot = old(ctx).mapper.tables();
                let nt = final(ctx).mapper.tables();
                let pages = virt_range.size / 4096;
                let svpn = vpn_of(virt_range.start);
                let sppn = phys_range.start / 4096;
                let root = old(self).table_root() as int;
                &&& ot.len() <= nt.len()
                &&& refs_closed(nt)
                &&& valid_slots_preserved(ot, nt)
                &&& final(ctx).mapper.infallible() == old(ctx).mapper.infallible()
                &&& (r == Err::<(), MapError>(MapError::SizeMismatch) <==> phys_range.size
                    != virt_range.size)
                &&& (r == Err::<(), MapError>(MapError::TooSmall) <==> phys_range.size
                    == virt_range.size && phys_range.size < 4096)
                &&& (r == Err::<(), MapError>(MapError::PhysNotAligned) <==> phys_range.size
                    == virt_range.size && phys_range.size >= 4096
                    && !phys_range.spec_page_aligned())
                &&& (r == Err::<(), MapError>(MapError::VirtNotAligned) <==> phys_range.size
                    == virt_range.size && phys_range.size >= 4096 && phys_range.spec_page_aligned()
                    && !virt_range.spec_page_aligned())
                &&& ((r == Err::<(), MapError>(MapError::SizeMismatch) || r == Err::<
                    (),
                    MapError,
                >(MapError::TooSmall) || r == Err::<(), MapError>(MapError::PhysNotAligned) || r
                    == Err::<(), MapError>(MapError::VirtNotAligned)) ==> nt == ot
                    && final(ctx).invalidator.log() == old(ctx).invalidator.log())
                &&& (r == Err::<(), MapError>(MapError::NoMemory) ==> !old(
                    ctx,
                ).mapper.infallible())
                &&& (r is Err ==> r == Err::<(), MapError>(MapError::SizeMismatch) || r == Err::<
                    (),
                    MapError,
                >(MapError::TooSmall) || r == Err::<(), MapError>(MapError::PhysNotAligned) || r
                    == Err::<(), MapError>(MapError::VirtNotAligned) || r == Err::<(), MapError>(
                    MapError::NoMemory,
                ) || r == Err::<(), MapError>(MapError::AlreadyMapped))
                &&& (r is Ok ==> forall|k: u64|
                    k < pages ==> #[trigger] resolve(nt, root, (svpn + k) as u64) == Some(
                        PageMapping { ppn: sppn + k, perms: applied_perms(perms) },
                    ))
                &&& (r is Ok ==> forall|k: u64|
                    k < pages ==> !#[trigger] crate::model::resolve_device(
                        nt,
                        root,
                        (svpn + k) as u64,
                    ))
                &&& forall|q: u64|
                    resolve(ot, root, q) is Some ==> #[trigger] resolve(nt, root, q) == resolve(
                        ot,
                        root,
                        q,
                    )
                &&& (crate::model::refs_injective(ot) && crate::model::root_unreferenced(ot, root)
                    ==> forall|q: u64|
                    q < VPN_LIMIT && !(svpn <= q < svpn + pages) ==> #[trigger] resolve(
                        nt,
                        root,
                        q,
                    ) == resolve(ot, root, q))
            }),
    {
        map_range(
            self.kernel_l0,
            MapAttributes {
                phys: phys_range,
                virt: virt_range,
                mem_type: MemoryType::Normal,
                perms,
            },
            ctx,
        )
    }

    /// Maps a physical device range at the next free spot of the device
    /// window, as strongly-ordered device memory, and returns the virtual
    /// address now naming the range's first byte. The cursor advances by
    /// exactly the page-rounded size of the range; on success every page
    /// of the rounded range resolves to its device frame, read-write, with
    /// the device attribute set; exhaustion is reported only by a fallible
    /// allocator, and on failure the space is unchanged.
    pub fn map_mmio<M: PageAllocator, I: TLBInvalidator>(
        &mut self,
        phys_range: MemRegion,
        ctx: &mut MappingContext<M, I>,
    ) -> (r: Result<u64, MapError>)
        requires
            (old(self).table_root() as int) < old(ctx).mapper.tables().len(),
            old(ctx).mapper.tables().len() + 3 * (phys_range.size / 4096 + 2) <= usize::MAX,
            old(ctx).mapper.tables().len() + 3 * (phys_range.size / 4096 + 2) <= PPN_LIMIT,
            refs_closed(old(ctx).mapper.tables()),
            phys_range.start / 4096 + phys_range.size / 4096 + 2 <= PPN_LIMIT,
            phys_range.size >= 1,
            old(self).wf(),
            old(self).mmio_cursor() + (phys_range.start % 4096 + phys_range.size + 4095) / 4096
                * 4096 <= MMIO_END,
        ensures
            final(self).table_root() == old(self).table_root(),
            final(self).wf(),
            ({
                let ot = old(ctx).mapper.tables();
                let nt = final(ctx).mapper.tables();
                let root = old(self).table_root() as int;
                let aligned_size = (phys_range.start % 4096 + phys_range.size + 4095) / 4096
                    * 4096;
                let svpn = vpn_of(old(self).mmio_cursor());
                let sppn = phys_range.start / 4096;
                &&& ot.len() <= nt.len()
                &&& refs_closed(nt)
                &&& valid_slots_preserved(ot, nt)
                &&& final(ctx).mapper.infallible() == old(ctx).mapper.infallible()
                &&& (r == Err::<u64, MapError>(MapError::NoMemory) ==> !old(
                    ctx,
                ).mapper.infallible())
                &&& (r matches Ok(va) ==> {
                    &&& va == old(self).mmio_cursor() + phys_range.start % 4096
                    &&& final(self).mmio_cursor() == old(self).mmio_cursor() + aligned_size
                    &&& forall|j: u64|
                        j < aligned_size / 4096 ==> #[trigger] resolve(nt, root, (svpn + j) as u64)
                            == Some(
                            PageMapping {
                                ppn: sppn + j,
                                perms: (PtePermissions {
                                    read: true,
                                    write: true,
                                    execute: false,
                                    user: false,
                                    cow: false,
                                }),
                            },
                        )
                    &&& forall|j: u64|
                        j < aligned_size / 4096 ==> #[trigger] crate::model::resolve_device(
                            nt,
                            root,
                            (svpn + j) as u64,
                        )
                })
                &&& (r is Err ==> *final(self) == *old(self))
                &&& forall|q: u64|
                    resolve(ot, root, q) is Some ==> #[trigger] resolve(nt, root, q) == resolve(
                        ot,
                        root,
                        q,
                    )
            }),
    {
        let aligned_start: u64 = phys_range.start / 4096 * 4096;
        let offset: u64 = phys_range.start % 4096;
        let aligned_size: u64 = (offset + phys_range.size + 4095) / 4096 * 4096;
        let base_va: u64 = self.mmio_ptr;
        proof {
            let b = base_va;
            let z = aligned_size;
            assert(((b >> 12) & 0xf_ffff_ffff) + z / 4096 <= 0x10_0000_0000) by (bit_vector)
                requires
                    0xffff_d000_0000_0000 <= b,
                    b % 4096 == 0,
                    z % 4096 == 0,
                    b + z <= 0xffff_e000_0000_0000u64,
            ;
        }
        let r = map_range(
            self.kernel_l0,
            MapAttributes {
                phys: MemRegion { start: aligned_start, size: aligned_size },
                virt: MemRegion { start: base_va, size: aligned_size },
                mem_type: MemoryType::Device,
                perms: PtePermissions::rw(false),
            },
            ctx,
        );
        match r {
            Ok(()) => {
                self.mmio_ptr = base_va + aligned_size;
                Ok(base_va + offset)
            },
            Err(e) => Err(e),
        }
    }

    /// Resolves a kernel virtual address to the physical address it is
    /// mapped to through the bottom level of the kernel hierarchy; `None`
    /// when nothing accessible is mapped there or a superpage covers it.
    pub fn translate<M: PageTableMapper>(&self, va: u64, mapper: &M) -> (r: Option<u64>)
        requires
            (self.table_root() as int) < mapper.tables().len(),
            mapper.tables().len() <= usize::MAX,
            refs_closed(mapper.tables()),
        ensures
            r == (match lookup(mapper.tables(), self.table_root() as int, vpn_of(va)) {
                LookupResult::Slot { entry } => if desc_is_mappable(entry) {
                    Some((desc_ppn(entry) * 4096 + va % 4096) as u64)
                } else {
                    Option::<u64>::None
                },
                _ => Option::<u64>::None,
            }),
    {
        let pg_offset = va % 4096;
        match crate::walk::get_pte(self.kernel_l0, va, mapper) {
            Ok(Some(pte)) => match pte.mapped_address() {
                Some(pfn) => {
                    proof {
                        let d = pte.bits;
                        assert((d >> 10) & 0xfff_ffff_ffff < 0x1000_0000_0000u64) by (bit_vector);
                    }
                    Some(pfn * 4096 + pg_offset)
                },
                None => None,
            },
            _ => None,
        }
    }
}

/// One process's address space: the root of its private hierarchy.
pub struct RiscvProcessAddressSpace {
    l0_table: usize,
}

impl RiscvProcessAddressSpace {
    /// Frame number of this space's root table.
    pub closed spec fn table_root(&self) -> usize {
        self.l0_table
    }

    /// Creates a fresh address space: a new root table whose upper half is
    /// copied entry-for-entry from the kernel root — so kernel mappings
    /// resolve identically through either root — and whose user half is
    /// empty.
    pub fn new<M: PageAllocator, I: TLBInvalidator>(
        kernel: &RiscvKernelAddressSpace,
        ctx: &mut MappingContext<M, I>,
    ) -> (r: Result<Self, MapError>)
        requires
            (kernel.table_root() as int) < old(ctx).mapper.tables().len(),
            old(ctx).mapper.tables().len() < usize::MAX,
            refs_closed(old(ctx).mapper.tables()),
        ensures
            ({
                let ot = old(ctx).mapper.tables();
                let nt = final(ctx).mapper.tables();
                &&& final(ctx).mapper.infallible() == old(ctx).mapper.infallible()
                &&& (r matches Err(e) ==> e == MapError::NoMemory && nt == ot && !old(
                    ctx,
                ).mapper.infallible())
                &&& (r matches Ok(s) ==> {
                    &&& s.table_root() as int == ot.len()
                    &&& nt.len() == ot.len() + 1
                    &&& refs_closed(nt)
                    &&& valid_slots_preserved(ot, nt)
                    &&& (forall|i: int|
                        256 <= i < 512 ==> #[trigger] nt[s.table_root() as int][i] == ot[kernel.table_root() as int][i])
                    &&& (forall|i: int|
                        0 <= i < 256 ==> #[trigger] nt[s.table_root() as int][i] == 0u64)
                    &&& (forall|q: u64|
                        resolve(ot, kernel.table_root() as int, q) is Some ==> #[trigger] resolve(
                            nt,
                            kernel.table_root() as int,
                            q,
                        ) == resolve(ot, kernel.table_root() as int, q))
                })
            }),
    {
        let ghost ot = old(ctx).mapper.tables();
        let kroot = kernel.table_pa();
        let root = match ctx.mapper.allocate_page_table() {
            Ok(t) => t,
            Err(e) => {
                return Err(e);
            },
        };
        let mut i: usize = 256;
        while i < 512
            invariant
                256 <= i <= 512,
                ot == old(ctx).mapper.tables(),
                refs_closed(ot),
                (kroot as int) < ot.len(),
                kroot == kernel.table_root(),
                root as int == ot.len(),
                root < usize::MAX,
                ctx.mapper.tables().len() == ot.len() + 1,
                ctx.mapper.infallible() == old(ctx).mapper.infallible(),
                tables_wf(ctx.mapper.tables()),
                forall|t: int, j: int|
                    0 <= t < ot.len() && 0 <= j < 512 ==> #[trigger] ctx.mapper.tables()[t][j]
                        == ot[t][j],
                forall|j: int|
                    0 <= j < 256 ==> #[trigger] ctx.mapper.tables()[root as int][j] == 0u64,
                forall|j: int|
                    256 <= j < i ==> #[trigger] ctx.mapper.tables()[root as int][j] == ot[kroot as int][j],
                forall|j: int|
                    i <= j < 512 ==> #[trigger] ctx.mapper.tables()[root as int][j] == 0u64,
            decreases 512 - i,
        {
            let e = ctx.mapper.read_entry(kroot, i);
            ctx.mapper.write_entry(root, i, e);
            i = i + 1;
        }
        proof {
            let nt = ctx.mapper.tables();
            assert(refs_closed(nt)) by {
                assert forall|t: int, j: int|
                    0 <= t < nt.len() && 0 <= j < 512 && crate::descriptor::desc_is_table(
                        #[trigger] nt[t][j],
                    ) implies desc_ppn(nt[t][j]) < nt.len() by {
                    if t < ot.len() {
                        assert(nt[t][j] == ot[t][j]);
                    } else if j < 256 {
                        crate::model::lemma_zero_desc();
                    } else {
                        assert(nt[t][j] == ot[kroot as int][j]);
                    }
                }
            }
            assert(valid_slots_preserved(ot, nt));
            assert forall|q: u64|
                resolve(ot, kroot as int, q) is Some implies #[trigger] resolve(nt, kroot as int, q)
                == resolve(ot, kroot as int, q) by {
                crate::model::lemma_resolve_preserved(ot, nt, kroot as int, q);
            }
        }
        Ok(RiscvProcessAddressSpace { l0_table: root })
    }

    /// The value the translation-root register takes to activate this
    /// space: the paging-mode bits over the root's frame number.
    pub fn satp_value(&self) -> (r: u64)
        requires
            self.table_root() < 0x1000_0000_0000,
        ensures
            r == SATP_MODE_SV48 | (self.table_root() as u64),
    {
        SATP_MODE_SV48 | (self.l0_table as u64)
    }

    /// Maps one frame at one page-aligned virtual address as normal
    /// cacheable memory.
    pub fn map_page<M: PageAllocator, I: TLBInvalidator>(
        &mut self,
        page: u64,
        va: u64,
        perms: PtePermissions,
        ctx: &mut MappingContext<M, I>,
    ) -> (r: Result<(), MapError>)
        requires
            (old(self).table_root() as int) < old(ctx).mapper.tables().len(),
            old(ctx).mapper.tables().len() + 3 <= usize::MAX,
            old(ctx).mapper.tables().len() + 3 <= PPN_LIMIT,
            refs_closed(old(ctx).mapper.tables()),
            page % 4096 == 0,
            va % 4096 == 0,
            page / 4096 + 1 <= PPN_LIMIT,
        ensures
            *final(self) == *old(self),
            ({
                let ot = old(ctx).mapper.tables();
                let nt = final(ctx).mapper.tables();
                let root = old(self).table_root() as int;
                &&& ot.len() <= nt.len()
                &&& refs_closed(nt)
                &&& valid_slots_preserved(ot, nt)
                &&& final(ctx).mapper.infallible() == old(ctx).mapper.infallible()
                &&& (r == Err::<(), MapError>(MapError::NoMemory) ==> !old(
                    ctx,
                ).mapper.infallible())
                &&& (r is Ok ==> resolve(nt, root, vpn_of(va)) == Some(
                    PageMapping { ppn: (page / 4096) as int, perms: applied_perms(perms) },
                ))
                &&& (r is Ok ==> (lookup(nt, root, vpn_of(va)) matches LookupResult::Slot { .. })
                    && !crate::model::resolve_device(nt, root, vpn_of(va))
                    && final(ctx).invalidator.log() == old(ctx).invalidator.log().push(
                    (vpn_of(va) << 12) as u64,
                ))
                &&& (r is Err ==> r == Err::<(), MapError>(MapError::NoMemory) || r == Err::<
                    (),
                    MapError,
                >(MapError::AlreadyMapped))
                &&& (r == Err::<(), MapError>(MapError::AlreadyMapped) ==> nt == ot
                    && final(ctx).invalidator.log() == old(ctx).invalidator.log() && page_blocked(
                    ot,
                    root,
                    vpn_of(va),
                ))
                &&& forall|q: u64|
                    resolve(ot, root, q) is Some ==> #[trigger] resolve(nt, root, q) == resolve(
                        ot,
                        root,
                        q,
                    )
                &&& (old(ctx).mapper.infallible() ==> (r is Ok <==> !page_blocked(
                    ot,
                    root,
                    vpn_of(va),
                )))
                &&& (crate::model::refs_injective(ot) && crate::model::root_unreferenced(ot, root)
                    ==> forall|q: u64|
                    q < VPN_LIMIT && q != vpn_of(va) ==> #[trigger] resolve(nt, root, q) == resolve(
                        ot,
                        root,
                        q,
                    ))
            }),
    {
        proof {
            let v = va;
            assert(v % 4096 == 0 ==> ((v >> 12) & 0xf_ffff_ffff) + 1 <= 0x10_0000_0000) by (bit_vector);
        }
        let r = map_range(
            self.l0_table,
            MapAttributes {
                phys: MemRegion { start: page, size: 4096 },
                virt: MemRegion { start: va, size: 4096 },
                mem_type: MemoryType::Normal,
                perms,
            },
            ctx,
        );
        proof {
            if r is Ok {
                assert(resolve(
                    ctx.mapper.tables(),
                    old(self).table_root() as int,
                    (vpn_of(va) + 0) as u64,
                ) == Some(
                    PageMapping { ppn: page / 4096 + 0, perms: applied_perms(perms) },
                ));
            }
        }
        r
    }

    /// Rewrites the permissions of every mapped page of the region, or
    /// marks the pages swapped when the request grants no access at all —
    /// the page then reads as evicted, not as never mapped.
    pub fn protect_range<M: PageTableMapper, I: TLBInvalidator>(
        &mut self,
        va_range: MemRegion,
        perms: PtePermissions,
        ctx: &mut WalkContext<M, I>,
    ) -> (r: Result<(), MapError>)
        requires
            (old(self).table_root() as int) < old(ctx).mapper.tables().len(),
            old(ctx).mapper.tables().len() <= usize::MAX,
            refs_closed(old(ctx).mapper.tables()),
            vpn_of(va_range.start) + va_range.size / 4096 <= VPN_LIMIT,
        ensures
            *final(self) == *old(self),
            ({
                let ot = old(ctx).mapper.tables();
                let nt = final(ctx).mapper.tables();
                let root = old(self).table_root() as int;
                let pages = va_range.size / 4096;
                let svpn = vpn_of(va_range.start);
                &&& nt.len() == ot.len()
                &&& refs_closed(nt)
                &&& final(ctx).mapper.infallible() == old(ctx).mapper.infallible()
                &&& (r == Err::<(), MapError>(MapError::VirtNotAligned)
                    <==> !va_range.spec_page_aligned())
                &&& (r is Ok ==> forall|k: u64|
                    k < pages ==> #[trigger] page_done(
                        LeafOp::Protect(perms),
                        ot,
                        nt,
                        root,
                        (svpn + k) as u64,
                    ))
                &&& (va_range.spec_page_aligned() && region_walkable(ot, root, svpn, pages)
                    ==> r is Ok)
                &&& (region_unmapped(ot, root, svpn, pages) ==> nt == ot)
                &&& (crate::model::refs_injective(ot) && crate::model::root_unreferenced(
                    ot,
                    root,
                ) ==> forall|q: u64|
                    q < VPN_LIMIT && !(svpn <= q < svpn + pages) ==> #[trigger] lookup(nt, root, q)
                        == lookup(ot, root, q))
                &&& (crate::model::refs_injective(ot) && crate::model::root_unreferenced(
                    ot,
                    root,
                ) ==> {
                    &&& (r is Ok ==> region_walkable(ot, root, svpn, pages))
                    &&& (r is Ok ==> forall|k: u64|
                        k < pages && (match #[trigger] lookup(ot, root, (svpn + k) as u64) {
                            LookupResult::Slot { entry } => crate::descriptor::desc_valid(entry),
                            _ => false,
                        }) ==> final(ctx).invalidator.log().contains(
                            (((svpn + k) as u64) << 12) as u64,
                        ))
                })
            }),
    {
        match walk_and_modify_region(
            self.l0_table,
            va_range,
            &mut ctx.mapper,
            &mut ctx.invalidator,
            LeafOp::Protect(perms),
        ) {
            Ok(_) => Ok(()),
            Err(e) => Err(e),
        }
    }

    /// Clears every mapped page of the region and returns the frames that
    /// backed them, for the caller to release. Pages never mapped or
    /// already swapped out are left alone; clearing an already-empty
    /// region succeeds with an empty list.
    pub fn unmap_range<M: PageTableMapper, I: TLBInvalidator>(
        &mut self,
        va_range: MemRegion,
        ctx: &mut WalkContext<M, I>,
    ) -> (r: Result<Vec<u64>, MapError>)
        requires
            (old(self).table_root() as int) < old(ctx).mapper.tables().len(),
            old(ctx).mapper.tables().len() <= usize::MAX,
            refs_closed(old(ctx).mapper.tables()),
            vpn_of(va_range.start) + va_range.size / 4096 <= VPN_LIMIT,
        ensures
            *final(self) == *old(self),
            ({
                let ot = old(ctx).mapper.tables();
                let nt = final(ctx).mapper.tables();
                let root = old(self).table_root() as int;
                let pages = va_range.size / 4096;
                let svpn = vpn_of(va_range.start);
                &&& nt.len() == ot.len()
                &&& refs_closed(nt)
                &&& final(ctx).mapper.infallible() == old(ctx).mapper.infallible()
                &&& (r == Err::<Vec<u64>, MapError>(MapError::VirtNotAligned)
                    <==> !va_range.spec_page_aligned())
                &&& (r is Ok ==> forall|k: u64|
                    k < pages ==> #[trigger] page_done(
                        LeafOp::Unmap,
                        ot,
                        nt,
                        root,
                        (svpn + k) as u64,
                    ))
                &&& (va_range.spec_page_aligned() && region_walkable(ot, root, svpn, pages)
                    ==> r is Ok)
                &&& (region_unmapped(ot, root, svpn, pages) ==> nt == ot && (r matches Ok(v)
                    ==> v@ == Seq::<u64>::empty()))
                &&& (crate::model::refs_injective(ot) && crate::model::root_unreferenced(
                    ot,
                    root,
                ) ==> forall|q: u64|
                    q < VPN_LIMIT && !(svpn <= q < svpn + pages) ==> #[trigger] lookup(nt, root, q)
                        == lookup(ot, root, q))
                &&& (crate::model::refs_injective(ot) && crate::model::root_unreferenced(
                    ot,
                    root,
                ) ==> {
                    &&& (r matches Ok(v) ==> v@ == crate::walk::frames_of(
                        crate::walk::visited_of(ot, root, svpn, pages),
                    ))
                    &&& (r is Ok ==> region_walkable(ot, root, svpn, pages))
                    &&& (r is Ok ==> forall|k: u64|
                        k < pages && (match #[trigger] lookup(ot, root, (svpn + k) as u64) {
                            LookupResult::Slot { entry } => crate::descriptor::desc_valid(entry),
                            _ => false,
                        }) ==> final(ctx).invalidator.log().contains(
                            (((svpn + k) as u64) << 12) as u64,
                        ))
                })
            }),
    {
        let visited = match walk_and_modify_region(
            self.l0_table,
            va_range,
            &mut ctx.mapper,
            &mut ctx.invalidator,
            LeafOp::Unmap,
        ) {
            Ok(v) => v,
            Err(e) => {
                return Err(e);
            },
        };
        let mut claimed: Vec<u64> = Vec::new();
        let mut j: usize = 0;
        while j < visited.len()
            invariant
                j <= visited@.len(),
                claimed@ == crate::walk::frames_of(visited@.take(j as int)),
            decreases visited@.len() - j,
        {
            proof {
                assert(visited@.take(j as int + 1).drop_last() =~= visited@.take(j as int));
                assert(visited@.take(j as int + 1).last() == visited@[j as int]);
            }
            let d = PageDescriptor::from_raw(visited[j].1);
            match d.mapped_address() {
                Some(pfn) => {
                    claimed.push(pfn);
                },
                None => {},
            }
            j = j + 1;
        }
        proof {
            assert(visited@.take(visited@.len() as int) =~= visited@);
        }
        Ok(claimed)
    }

    /// Atomically swaps the frame backing one page for a new one, returning
    /// the frame that was mapped before. Exactly when the page carries no
    /// accessible bottom-level mapping, the swap fails with `NotL3Mapped`
    /// and nothing — tables or flush log — is touched.
    pub fn remap<M: PageTableMapper, I: TLBInvalidator>(
        &mut self,
        va: u64,
        new_page: u64,
        perms: PtePermissions,
        ctx: &mut WalkContext<M, I>,
    ) -> (r: Result<u64, MapError>)
        requires
            (old(self).table_root() as int) < old(ctx).mapper.tables().len(),
            old(ctx).mapper.tables().len() <= usize::MAX,
            refs_closed(old(ctx).mapper.tables()),
            va % 4096 == 0,
            new_page % 4096 == 0,
            new_page / 4096 < PPN_LIMIT,
        ensures
            *final(self) == *old(self),
            ({
                let ot = old(ctx).mapper.tables();
                let nt = final(ctx).mapper.tables();
                let root = old(self).table_root() as int;
                let vpn = vpn_of(va);
                &&& nt.len() == ot.len()
                &&& refs_closed(nt)
                &&& final(ctx).mapper.infallible() == old(ctx).mapper.infallible()
                &&& (r is Ok <==> (match lookup(ot, root, vpn) {
                    LookupResult::Slot { entry } => desc_is_mappable(entry),
                    _ => false,
                }))
                &&& (r matches Ok(old_pfn) ==> {
                    &&& (match lookup(ot, root, vpn) {
                        LookupResult::Slot { entry } => desc_is_mappable(entry) && old_pfn
                            == desc_ppn(entry),
                        _ => false,
                    })
                    &&& resolve(nt, root, vpn) == Some(
                        PageMapping {
                            ppn: (new_page / 4096) as int,
                            perms: applied_perms(perms),
                        },
                    )
                    &&& final(ctx).invalidator.log() == old(ctx).invalidator.log().push(
                        (vpn << 12) as u64,
                    )
                })
                &&& (r is Err ==> r == Err::<u64, MapError>(MapError::NotL3Mapped) && nt == ot
                    && final(ctx).invalidator.log() == old(ctx).invalidator.log())
                &&& (crate::model::refs_injective(ot) && crate::model::root_unreferenced(
                    ot,
                    root,
                ) ==> forall|q: u64|
                    q < VPN_LIMIT && q != vpn ==> #[trigger] lookup(nt, root, q) == lookup(
                        ot,
                        root,
                        q,
                    ))
            }),
    {
        proof {
            let v = va;
            assert(((v >> 12) & 0xf_ffff_ffff) + 1 <= 0x10_0000_0000) by (bit_vector);
        }
        let region = MemRegion { start: va, size: 4096 };
        let op = LeafOp::Remap { ppn: new_page / 4096, perms };
        let ghost ot = ctx.mapper.tables();
        // Probe first: a page without an accessible bottom-level entry is
        // rejected before anything is written.
        match crate::walk::get_pte(self.l0_table, va, &ctx.mapper) {
            Ok(Some(pte)) => {
                if pte.mapped_address().is_none() {
                    return Err(MapError::NotL3Mapped);
                }
            },
            _ => {
                return Err(MapError::NotL3Mapped);
            },
        }
        proof {
            let root = old(self).table_root() as int;
            let vpn = vpn_of(va);
            match lookup(ot, root, vpn) {
                LookupResult::Slot { entry } => {
                    assert(desc_is_mappable(entry));
                    let e = entry;
                    assert(e & 2 != 0 || e & 8 != 0 ==> e & 0xe != 0) by (bit_vector);
                    assert(!crate::descriptor::desc_is_table(e));
                },
                _ => {
                    assert(false);
                },
            }
        }
        let visited = match walk_and_modify_region(
            self.l0_table,
            region,
            &mut ctx.mapper,
            &mut ctx.invalidator,
            op,
        ) {
            Ok(v) => v,
            Err(e) => {
                proof {
                    assert(false);
                }
                return Err(e);
            },
        };
        proof {
            let root = old(self).table_root() as int;
            let vpn = vpn_of(va);
            assert(single_out(ot, root, vpn, visited@));
        }
        let entry = visited[0].1;
        let d = PageDescriptor::from_raw(entry);
        let old_pfn = match d.mapped_address() {
            Some(p) => p,
            None => {
                proof {
                    assert(false);
                }
                return Err(MapError::NotL3Mapped);
            },
        };
        proof {
            let root = old(self).table_root() as int;
            let vpn = vpn_of(va);
            match lookup(ot, root, vpn) {
                LookupResult::Slot { entry: e } => {
                    assert(e == entry);
                    assert(page_done(op, ot, ctx.mapper.tables(), root, vpn));
                },
                _ => {
                    assert(false);
                },
            }
        }
        Ok(old_pfn)
    }

    /// Resolves one virtual address to the frame and permissions mapped for
    /// it. The hierarchy must carry the page at the bottom level: probing
    /// an address covered by a superpage leaf is outside this interface's
    /// domain.
    pub fn translate<M: PageTableMapper>(&self, va: u64, mapper: &M) -> (r: Option<PageInfo>)
        requires
            (self.table_root() as int) < mapper.tables().len(),
            mapper.tables().len() <= usize::MAX,
            refs_closed(mapper.tables()),
            !(lookup(mapper.tables(), self.table_root() as int, vpn_of(va)) matches
                LookupResult::Super { .. }),
        ensures
            r == (match lookup(mapper.tables(), self.table_root() as int, vpn_of(va)) {
                LookupResult::Slot { entry } => if desc_is_mappable(entry) {
                    Some(PageInfo { pfn: desc_ppn(entry), perms: desc_perms(entry) })
                } else {
                    Option::<PageInfo>::None
                },
                _ => Option::<PageInfo>::None,
            }),
    {
        match crate::walk::get_pte(self.l0_table, va, mapper) {
            Ok(Some(pte)) => match pte.mapped_address() {
                Some(pfn) => match pte.permissions() {
                    Some(perms) => Some(PageInfo { pfn, perms }),
                    None => None,
                },
                None => None,
            },
            Ok(None) => None,
            Err(_) => None,
        }
    }

    /// Copy-on-write fork support: every accessible page of the region is
    /// mapped into `other` at the same address with `new_perms`, sharing
    /// the backing frame, and the region's own permissions are rewritten to
    /// `new_perms` in place. Returns the shared frames, in page order, so
    /// the caller can raise their reference counts through the frame
    /// allocator. A collision in `other` or allocator exhaustion surfaces
    /// as the engine's error; there is no rollback of pages already
    /// handled.
    pub fn protect_and_clone_region<M: PageAllocator, I: TLBInvalidator>(
        &mut self,
        region: MemRegion,
        other: &mut Self,
        new_perms: PtePermissions,
        ctx: &mut MappingContext<M, I>,
    ) -> (r: Result<Vec<u64>, MapError>)
        requires
            (old(self).table_root() as int) < old(ctx).mapper.tables().len(),
            (old(other).table_root() as int) < old(ctx).mapper.tables().len(),
            old(ctx).mapper.tables().len() + 3 * (region.size / 4096) <= usize::MAX,
            old(ctx).mapper.tables().len() + 3 * (region.size / 4096) <= PPN_LIMIT,
            refs_closed(old(ctx).mapper.tables()),
            vpn_of(region.start) + region.size / 4096 <= VPN_LIMIT,
        ensures
            *final(self) == *old(self),
            *final(other) == *old(other),
            ({
                let ot = old(ctx).mapper.tables();
                let nt = final(ctx).mapper.tables();
                let selfr = old(self).table_root() as int;
                let otherr = old(other).table_root() as int;
                let pages = region.size / 4096;
                let svpn = vpn_of(region.start);
                &&& ot.len() <= nt.len()
                &&& refs_closed(nt)
                &&& final(ctx).mapper.infallible() == old(ctx).mapper.infallible()
                &&& (r matches Ok(shared) ==> shared@.len() <= pages)
                &&& (crate::model::refs_injective(ot) && crate::model::root_unreferenced(
                    ot,
                    selfr,
                ) ==> (r matches Ok(shared) ==> {
                    &&& shared@ == crate::walk::frames_of(
                        crate::walk::visited_of(ot, selfr, svpn, pages),
                    )
                    &&& (new_perms.read || new_perms.write || new_perms.execute) ==> forall|
                        k: u64,
                    |
                        k < pages ==> match #[trigger] lookup(ot, selfr, (svpn + k) as u64) {
                            LookupResult::Slot { entry } => desc_is_mappable(entry) ==> resolve(
                                nt,
                                otherr,
                                (svpn + k) as u64,
                            ) == Some(
                                PageMapping {
                                    ppn: desc_ppn(entry) as int,
                                    perms: applied_perms(new_perms),
                                },
                            ) && resolve(nt, selfr, (svpn + k) as u64) == Some(
                                PageMapping {
                                    ppn: desc_ppn(entry) as int,
                                    perms: applied_perms(new_perms),
                                },
                            ),
                            _ => true,
                        }
                }))
            }),
    {
        let ghost ot = old(ctx).mapper.tables();
        let ghost selfr = old(self).table_root() as int;
        let ghost otherr = old(other).table_root() as int;
        let ghost svpn_g = vpn_of(region.start);
        let pages: u64 = region.size / 4096;
        // Capture the region's mapped pages before anything is rewritten.
        let visited = match walk_and_modify_region(
            self.l0_table,
            region,
            &mut ctx.mapper,
            &mut ctx.invalidator,
            LeafOp::Query,
        ) {
            Ok(v) => v,
            Err(e) => {
                return Err(e);
            },
        };
        let ghost s1 = ctx.mapper.tables();
        proof {
            let rel = |x: u64, y: u64| crate::walk::leaf_op_post(LeafOp::Query, x, y);
            assert forall|q: u64| #[trigger] lookup(s1, selfr, q) == lookup(ot, selfr, q) by {
                crate::model::lemma_lookup_frame_rel(ot, s1, selfr, 0, q, rel);
                match lookup(ot, selfr, q) {
                    LookupResult::Super { level: l, entry } => {
                        match lookup(s1, selfr, q) {
                            LookupResult::Missing { .. } => {
                                assert forall|f: u64|
                                    rel(entry, f) implies crate::descriptor::desc_valid(f) by {
                                    assert(crate::walk::leaf_op_post(LeafOp::Query, entry, f));
                                    assert(f == entry);
                                }
                                assert(false);
                            },
                            _ => {},
                        }
                    },
                    _ => {},
                }
            }
        }
        // Rewrite the source region's permissions in place.
        match walk_and_modify_region(
            self.l0_table,
            region,
            &mut ctx.mapper,
            &mut ctx.invalidator,
            LeafOp::Protect(new_perms),
        ) {
            Ok(_) => {},
            Err(e) => {
                return Err(e);
            },
        }
        let ghost s2 = ctx.mapper.tables();
        // Install the shared mappings in the other space.
        let mut shared: Vec<u64> = Vec::new();
        let mut j: usize = 0;
        while j < visited.len()
            invariant
                j <= visited@.len(),
                ot == old(ctx).mapper.tables(),
                *self == *old(self),
                *other == *old(other),
                selfr == old(self).table_root() as int,
                otherr == old(other).table_root() as int,
                otherr < ot.len(),
                svpn_g == vpn_of(region.start),
                pages == region.size / 4096,
                svpn_g + pages <= VPN_LIMIT,
                visited@.len() <= pages,
                forall|q: int|
                    0 <= q < visited@.len() ==> svpn_g <= (#[trigger] visited@[q]).0 < svpn_g
                        + pages,
                shared@ == crate::walk::frames_of(visited@.take(j as int)),
                shared@.len() <= j,
                s2.len() == ot.len(),
                s2.len() <= ctx.mapper.tables().len() <= ot.len() + 3 * j,
                ot.len() + 3 * pages <= usize::MAX,
                ot.len() + 3 * pages <= PPN_LIMIT,
                refs_closed(s2),
                refs_closed(ctx.mapper.tables()),
                valid_slots_preserved(s2, ctx.mapper.tables()),
                ctx.mapper.infallible() == old(ctx).mapper.infallible(),
                forall|q: int|
                    0 <= q < j ==> (desc_is_mappable((#[trigger] visited@[q]).1) ==> resolve(
                        ctx.mapper.tables(),
                        otherr,
                        visited@[q].0,
                    ) == Some(
                        PageMapping {
                            ppn: desc_ppn(visited@[q].1) as int,
                            perms: applied_perms(new_perms),
                        },
                    )),
            decreases visited@.len() - j,
        {
            let ghost pre = ctx.mapper.tables();
            let w = visited[j].0;
            let e = visited[j].1;
            let d = PageDescriptor::from_raw(e);
            match d.mapped_address() {
                Some(pfn) => {
                    proof {
                        let b = e;
                        assert((b >> 10) & 0xfff_ffff_ffff < 0x1000_0000_0000u64) by (bit_vector);
                        let x = w;
                        assert(x < 0x10_0000_0000u64 ==> (((x << 12) >> 12) & 0xf_ffff_ffff) == x
                            && ((x << 12) & 0xfffu64) == 0 && (x << 12) % 4096 == 0 && ((x << 12)
                            / 4096) * 4096 == (x << 12)) by (bit_vector);
                    }
                    match map_range(
                        other.l0_table,
                        MapAttributes {
                            phys: MemRegion { start: pfn * 4096, size: 4096 },
                            virt: MemRegion { start: w << 12u64, size: 4096 },
                            mem_type: MemoryType::Normal,
                            perms: new_perms,
                        },
                        ctx,
                    ) {
                        Ok(()) => {},
                        Err(e2) => {
                            return Err(e2);
                        },
                    }
                    shared.push(pfn);
                    proof {
                        crate::map::lemma_valid_preserved_trans(s2, pre, ctx.mapper.tables());
                        assert forall|q: int|
                            0 <= q < j + 1 implies (desc_is_mappable(
                            (#[trigger] visited@[q]).1,
                        ) ==> resolve(ctx.mapper.tables(), otherr, visited@[q].0) == Some(
                            PageMapping {
                                ppn: desc_ppn(visited@[q].1) as int,
                                perms: applied_perms(new_perms),
                            },
                        )) by {
                            if q < j {
                                if desc_is_mappable(visited@[q].1) {
                                    crate::model::lemma_resolve_preserved(
                                        pre,
                                        ctx.mapper.tables(),
                                        otherr,
                                        visited@[q].0,
                                    );
                                }
                            } else {
                                assert(resolve(
                                    ctx.mapper.tables(),
                                    otherr,
                                    ((vpn_of((w << 12) as u64) + 0) as u64),
                                ) == Some(
                                    PageMapping {
                                        ppn: ((pfn * 4096) / 4096) as int + 0,
                                        perms: applied_perms(new_perms),
                                    },
                                ));
                            }
                        }
                        assert(visited@.take(j as int + 1).drop_last() =~= visited@.take(
                            j as int,
                        ));
                        assert(visited@.take(j as int + 1).last() == visited@[j as int]);
                    }
                },
                None => {
                    proof {
                        assert(visited@.take(j as int + 1).drop_last() =~= visited@.take(
                            j as int,
                        ));
                        assert(visited@.take(j as int + 1).last() == visited@[j as int]);
                    }
                },
            }
            j = j + 1;
        }
        proof {
            let nt = ctx.mapper.tables();
            assert(visited@.take(visited@.len() as int) =~= visited@);
            if crate::model::refs_injective(ot) && crate::model::root_unreferenced(ot, selfr) {
                assert(visited@ == crate::walk::visited_of(ot, selfr, svpn_g, pages)) by {
                    assert forall|q: u64| #[trigger] lookup(ot, selfr, q) == lookup(
                        s1,
                        selfr,
                        q,
                    ) by {}
                    assert(crate::model::refs_injective(s1) && crate::model::root_unreferenced(
                        s1,
                        selfr,
                    )) by {
                        assert forall|q: u64| #[trigger] lookup(s1, selfr, q) == lookup(
                            ot,
                            selfr,
                            q,
                        ) by {}
                    }
                }
                if new_perms.read || new_perms.write || new_perms.execute {
                    assert forall|k: u64| k < pages implies match #[trigger] lookup(
                        ot,
                        selfr,
                        (svpn_g + k) as u64,
                    ) {
                        LookupResult::Slot { entry } => desc_is_mappable(entry) ==> resolve(
                            nt,
                            otherr,
                            (svpn_g + k) as u64,
                        ) == Some(
                            PageMapping {
                                ppn: desc_ppn(entry) as int,
                                perms: applied_perms(new_perms),
                            },
                        ) && resolve(nt, selfr, (svpn_g + k) as u64) == Some(
                            PageMapping {
                                ppn: desc_ppn(entry) as int,
                                perms: applied_perms(new_perms),
                            },
                        ),
                        _ => true,
                    } by {
                        let w = (svpn_g + k) as u64;
                        match lookup(ot, selfr, w) {
                            LookupResult::Slot { entry } => {
                                if desc_is_mappable(entry) {
                                    crate::walk::lemma_visited_of_contains(
                                        ot,
                                        selfr,
                                        svpn_g,
                                        pages,
                                        k,
                                    );
                                    let q = choose|q: int|
                                        0 <= q < visited@.len() && visited@[q] == (w, entry);
                                    assert(resolve(nt, otherr, w) == Some(
                                        PageMapping {
                                            ppn: desc_ppn(entry) as int,
                                            perms: applied_perms(new_perms),
                                        },
                                    ));
                                    assert(crate::walk::page_done(
                                        LeafOp::Protect(new_perms),
                                        s1,
                                        s2,
                                        selfr,
                                        w,
                                    ));
                                    match lookup(s2, selfr, w) {
                                        LookupResult::Slot { entry: f } => {
                                            assert(crate::walk::leaf_op_post(
                                                LeafOp::Protect(new_perms),
                                                entry,
                                                f,
                                            ));
                                            crate::model::lemma_resolve_preserved(
                                                s2,
                                                nt,
                                                selfr,
                                                w,
                                            );
                                        },
                                        _ => {
                                            assert(false);
                                        },
                                    }
                                }
                            },
                            _ => {},
                        }
                    }
                }
            }
        }
        Ok(shared)
    }
}

/// Total smallest-page count of a list of memory regions.
pub open spec fn total_pages(regions: Seq<MemRegion>) -> int
    decreases regions.len(),
{
    if regions.len() == 0 {
        0
    } else {
        total_pages(regions.drop_last()) + regions.last().size / 4096
    }
}

/// Builds the kernel's linear map: each physical memory region is mapped at
/// its own address plus `PAGE_OFFSET`, read-write, as normal cacheable
/// memory. On success every page of every region resolves through the
/// kernel root to its physical page; existing mappings are preserved, and
/// exhaustion is reported only by a fallible allocator.
pub fn setup_logical_map<M: PageAllocator, I: TLBInvalidator>(
    pgtbl_base: usize,
    regions: &Vec<MemRegion>,
    ctx: &mut MappingContext<M, I>,
) -> (r: Result<(), MapError>)
    requires
        (pgtbl_base as int) < old(ctx).mapper.tables().len(),
        forall|i: int|
            0 <= i < regions@.len() ==> {
                let g = #[trigger] regions@[i];
                &&& g.start < 0x8000_0000_0000
                &&& g.start / 4096 + g.size / 4096 <= PPN_LIMIT
                &&& vpn_of((g.start + PAGE_OFFSET) as u64) + g.size / 4096 <= VPN_LIMIT
            },
        old(ctx).mapper.tables().len() + 3 * total_pages(regions@) <= usize::MAX,
        old(ctx).mapper.tables().len() + 3 * total_pages(regions@) <= PPN_LIMIT,
        refs_closed(old(ctx).mapper.tables()),
    ensures
        ({
            let ot = old(ctx).mapper.tables();
            let nt = final(ctx).mapper.tables();
            let root = pgtbl_base as int;
            &&& ot.len() <= nt.len()
            &&& refs_closed(nt)
            &&& valid_slots_preserved(ot, nt)
            &&& final(ctx).mapper.infallible() == old(ctx).mapper.infallible()
            &&& (r == Err::<(), MapError>(MapError::NoMemory) ==> !old(ctx).mapper.infallible())
            &&& (r is Ok ==> forall|i: int, k: u64|
                0 <= i < regions@.len() && k < regions@[i].size / 4096 ==> #[trigger] resolve(
                    nt,
                    root,
                    (vpn_of((regions@[i].start + PAGE_OFFSET) as u64) + k) as u64,
                ) == Some(
                    PageMapping {
                        ppn: regions@[i].start / 4096 + k,
                        perms: applied_perms(
                            PtePermissions {
                                read: true,
                                write: true,
                                execute: false,
                                user: false,
                                cow: false,
                            },
                        ),
                    },
                ))
            &&& forall|q: u64|
                resolve(ot, root, q) is Some ==> #[trigger] resolve(nt, root, q) == resolve(
                    ot,
                    root,
                    q,
                )
        }),
{
    let ghost ot = old(ctx).mapper.tables();
    proof {
        lemma_total_pages_nonneg(regions@, 0);
    }
    let mut i: usize = 0;
    while i < regions.len()
        invariant
            i <= regions@.len(),
            ot == old(ctx).mapper.tables(),
            refs_closed(ot),
            (pgtbl_base as int) < ot.len(),
            (pgtbl_base as int) < ctx.mapper.tables().len(),
            forall|q: int|
                0 <= q < regions@.len() ==> {
                    let g = #[trigger] regions@[q];
                    &&& g.start < 0x8000_0000_0000
                    &&& g.start / 4096 + g.size / 4096 <= PPN_LIMIT
                    &&& vpn_of((g.start + PAGE_OFFSET) as u64) + g.size / 4096 <= VPN_LIMIT
                },
            ot.len() <= ctx.mapper.tables().len() <= ot.len() + 3 * total_pages(
                regions@.take(i as int),
            ),
            ot.len() + 3 * total_pages(regions@) <= usize::MAX,
            ot.len() + 3 * total_pages(regions@) <= PPN_LIMIT,
            total_pages(regions@.take(i as int)) <= total_pages(regions@),
            refs_closed(ctx.mapper.tables()),
            valid_slots_preserved(ot, ctx.mapper.tables()),
            ctx.mapper.infallible() == old(ctx).mapper.infallible(),
            forall|ii: int, k: u64|
                0 <= ii < i && k < regions@[ii].size / 4096 ==> #[trigger] resolve(
                    ctx.mapper.tables(),
                    pgtbl_base as int,
                    (vpn_of((regions@[ii].start + PAGE_OFFSET) as u64) + k) as u64,
                ) == Some(
                    PageMapping {
                        ppn: regions@[ii].start / 4096 + k,
                        perms: applied_perms(
                            PtePermissions {
                                read: true,
                                write: true,
                                execute: false,
                                user: false,
                                cow: false,
                            },
                        ),
                    },
                ),
        decreases regions@.len() - i,
    {
        let ghost pre = ctx.mapper.tables();
        proof {
            lemma_total_pages_step(regions@, i as int);
        }
        let mem_region = MemRegion { start: regions[i].start, size: regions[i].size };
        let attrs = MapAttributes {
            phys: mem_region,
            virt: MemRegion { start: mem_region.start + PAGE_OFFSET, size: mem_region.size },
            mem_type: MemoryType::Normal,
            perms: PtePermissions::rw(false),
        };
        proof {
            let g = regions@[i as int];
            assert(g.start + PAGE_OFFSET == attrs.virt.start);
            assert((g.start + PAGE_OFFSET) as u64 as int % 4096 == g.start as int % 4096) by {
                let a = g.start;
                assert(a < 0x8000_0000_0000u64 ==> ((a + 0xffff_8000_0000_0000) as u64) % 4096 == a
                    % 4096) by (bit_vector);
            }
        }
        match map_range(pgtbl_base, attrs, ctx) {
            Ok(()) => {},
            Err(e) => {
                proof {
                    crate::map::lemma_valid_preserved_trans(ot, pre, ctx.mapper.tables());
                    assert forall|q: u64|
                        resolve(ot, pgtbl_base as int, q) is Some implies #[trigger] resolve(
                        ctx.mapper.tables(),
                        pgtbl_base as int,
                        q,
                    ) == resolve(ot, pgtbl_base as int, q) by {
                        crate::model::lemma_resolve_preserved(
                            ot,
                            ctx.mapper.tables(),
                            pgtbl_base as int,
                            q,
                        );
                    }
                }
                return Err(e);
            },
        }
        proof {
            let now = ctx.mapper.tables();
            crate::map::lemma_valid_preserved_trans(ot, pre, now);
            assert forall|ii: int, k: u64|
                0 <= ii < i + 1 && k < regions@[ii].size / 4096 implies #[trigger] resolve(
                now,
                pgtbl_base as int,
                (vpn_of((regions@[ii].start + PAGE_OFFSET) as u64) + k) as u64,
            ) == Some(
                PageMapping {
                    ppn: regions@[ii].start / 4096 + k,
                    perms: applied_perms(
                        PtePermissions {
                            read: true,
                            write: true,
                            execute: false,
                            user: false,
                            cow: false,
                        },
                    ),
                },
            ) by {
                if ii < i {
                    crate::model::lemma_resolve_preserved(
                        pre,
                        now,
                        pgtbl_base as int,
                        (vpn_of((regions@[ii].start + PAGE_OFFSET) as u64) + k) as u64,
                    );
                }
            }
        }
        i = i + 1;
    }
    proof {
        assert(regions@.take(regions@.len() as int) =~= regions@);
        assert forall|q: u64|
            resolve(ot, pgtbl_base as int, q) is Some implies #[trigger] resolve(
            ctx.mapper.tables(),
            pgtbl_base as int,
            q,
        ) == resolve(ot, pgtbl_base as int, q) by {
            crate::model::lemma_resolve_preserved(
                ot,
                ctx.mapper.tables(),
                pgtbl_base as int,
                q,
            );
        }
    }
    Ok(())
}

/// A region-page sum is never negative.
proof fn lemma_total_pages_nonneg_all(regions: Seq<MemRegion>)
    ensures
        0 <= total_pages(regions),
    decreases regions.len(),
{
    if regions.len() > 0 {
        lemma_total_pages_nonneg_all(regions.drop_last());
    }
}

/// Partial sums of the region-page sum are non-negative and stay below the
/// whole.
proof fn lemma_total_pages_nonneg(regions: Seq<MemRegion>, i: int)
    requires
        0 <= i <= regions.len(),
    ensures
        total_pages(regions.take(i)) <= total_pages(regions),
        0 <= total_pages(regions.take(i)),
    decreases regions.len() - i,
{
    lemma_total_pages_nonneg_all(regions.take(i));
    if i == regions.len() {
        assert(regions.take(i) =~= regions);
    } else {
        lemma_total_pages_step(regions, i);
        lemma_total_pages_nonneg(regions, i + 1);
        assert(regions[i].size / 4096 >= 0);
    }
}

/// One step of the region-page sum: taking one more region adds its pages,
/// and every partial sum stays below the whole.
proof fn lemma_total_pages_step(regions: Seq<MemRegion>, i: int)
    requires
        0 <= i < regions.len(),
    ensures
        total_pages(regions.take(i + 1)) == total_pages(regions.take(i)) + regions[i].size / 4096,
        total_pages(regions.take(i + 1)) <= total_pages(regions),
    decreases regions.len() - i,
{
    assert(regions.take(i + 1).drop_last() =~= regions.take(i));
    assert(regions.take(i + 1).last() == regions[i]);
    if i + 1 == regions.len() {
        assert(regions.take(i + 1) =~= regions);
    } else {
        lemma_total_pages_step(regions, i + 1);
    }
}

/// Linear-offset translation of a kernel-image virtual address to its
/// physical address, given where the image was loaded.
pub fn translate_kernel_va(addr: u64, kimage_start: u64) -> (r: u64)
    requires
        IMAGE_BASE <= addr,
        addr - IMAGE_BASE + kimage_start <= u64::MAX,
    ensures
        r == addr - IMAGE_BASE + kimage_start,
{
    (addr - IMAGE_BASE) + kimage_start
}

} // verus!
