//! End-to-end behaviour of the mapping engine, the region walker and the
//! address-space operations, on a private table-page arena.
use vmcore::errors::MapError;
use vmcore::map::{map_range, MapAttributes, MappingContext, MemRegion};
use vmcore::descriptor::MemoryType;
use vmcore::perms::PtePermissions;
use vmcore::pool::{PageAllocator, PageTableAllocator, PageTableMapper, SmallocPageAlloc};
use vmcore::space::{
    setup_kern_addr_space, setup_logical_map, translate_kernel_va, RiscvProcessAddressSpace,
    IMAGE_BASE, MMIO_BASE, PAGE_OFFSET,
};
use vmcore::tlb::{AllTlbInvalidator, NullTlbInvalidator, TLBInvalidator};
use vmcore::walk::{walk_and_modify_region, LeafOp, WalkContext};

/// A fresh arena holding one empty root table, with a recording
/// invalidator.
fn fresh_ctx() -> (MappingContext<PageTableAllocator, AllTlbInvalidator>, usize) {
    let mut mapper = PageTableAllocator::new();
    let root = mapper.allocate_page_table().unwrap();
    (MappingContext { mapper, invalidator: AllTlbInvalidator::new() }, root)
}

fn to_walk(
    ctx: MappingContext<PageTableAllocator, AllTlbInvalidator>,
) -> WalkContext<PageTableAllocator, AllTlbInvalidator> {
    WalkContext { mapper: ctx.mapper, invalidator: ctx.invalidator }
}

fn process_space(
) -> (RiscvProcessAddressSpace, MappingContext<PageTableAllocator, AllTlbInvalidator>) {
    let (mut ctx, root) = fresh_ctx();
    let kernel = setup_kern_addr_space(root);
    let space = RiscvProcessAddressSpace::new(&kernel, &mut ctx).unwrap();
    (space, ctx)
}

#[test]
fn concrete_scenario_map_translate_protect() {
    // Map one page at virtual 0x1000 to physical 0x2000, no write, no
    // execute; expect the frame back with write denied, then widen the
    // permissions and expect the same frame writable.
    let (mut space, mut ctx) = process_space();
    space.map_page(0x2000, 0x1000, PtePermissions::ro(false), &mut ctx).unwrap();

    let info = space.translate(0x1000, &ctx.mapper).unwrap();
    assert_eq!(info.pfn, 0x2000 / 4096);
    assert!(!info.perms.is_write());

    let mut wctx = to_walk(ctx);
    space
        .protect_range(
            MemRegion::new(0x1000, 0x1000),
            PtePermissions::rw(false),
            &mut wctx,
        )
        .unwrap();
    let info = space.translate(0x1000, &wctx.mapper).unwrap();
    assert!(info.perms.is_write());
    assert_eq!(info.pfn, 0x2000 / 4096);
}

#[test]
fn double_map_collides_and_keeps_original() {
    let (mut space, mut ctx) = process_space();
    space.map_page(0x2000, 0x1000, PtePermissions::ro(false), &mut ctx).unwrap();
    let second = space.map_page(0x5000, 0x1000, PtePermissions::rw(false), &mut ctx);
    assert_eq!(second, Err(MapError::AlreadyMapped));
    // The original mapping is untouched.
    let info = space.translate(0x1000, &ctx.mapper).unwrap();
    assert_eq!(info.pfn, 0x2000 / 4096);
    assert!(!info.perms.is_write());
}

#[test]
fn unmap_of_empty_region_is_empty_and_idempotent() {
    let (mut space, ctx) = process_space();
    let mut wctx = to_walk(ctx);
    let region = MemRegion::new(0x4000, 0x4000);
    let first = space.unmap_range(region, &mut wctx).unwrap();
    assert!(first.is_empty());
    let second = space.unmap_range(region, &mut wctx).unwrap();
    assert!(second.is_empty());
}

#[test]
fn unmap_returns_reclaimed_frames() {
    let (mut space, mut ctx) = process_space();
    space.map_page(0x2000, 0x1000, PtePermissions::rw(false), &mut ctx).unwrap();
    space.map_page(0x7000, 0x2000, PtePermissions::rw(false), &mut ctx).unwrap();
    let mut wctx = to_walk(ctx);
    // The reclaim list comes back in ascending page order: first the frame
    // backing 0x1000, then the one backing 0x2000.
    let frames = space.unmap_range(MemRegion::new(0x0, 0x8000), &mut wctx).unwrap();
    assert_eq!(frames, vec![0x2000 / 4096, 0x7000 / 4096]);
    // Everything is gone now.
    assert!(space.translate(0x1000, &wctx.mapper).is_none());
    assert!(space.translate(0x2000, &wctx.mapper).is_none());
    // And a second pass reclaims nothing.
    let again = space.unmap_range(MemRegion::new(0x0, 0x8000), &mut wctx).unwrap();
    assert!(again.is_empty());
}

#[test]
fn protect_round_trip_reflects_last_permissions() {
    let (mut space, mut ctx) = process_space();
    for k in 0..4u64 {
        space
            .map_page(0x10000 + k * 0x1000, 0x8000 + k * 0x1000, PtePermissions::ro(false), &mut ctx)
            .unwrap();
    }
    let region = MemRegion::new(0x8000, 0x4000);
    let mut wctx = to_walk(ctx);
    space.protect_range(region, PtePermissions::rwx(false), &mut wctx).unwrap();
    space.protect_range(region, PtePermissions::rw(true), &mut wctx).unwrap();
    for k in 0..4u64 {
        let info = space.translate(0x8000 + k * 0x1000, &wctx.mapper).unwrap();
        assert_eq!(info.pfn, 0x10000 / 4096 + k);
        assert!(info.perms.is_write());
        assert!(info.perms.is_user());
        assert!(!info.perms.is_execute());
    }
}

#[test]
fn protect_with_no_access_marks_swapped_not_unmapped() {
    let (mut space, mut ctx) = process_space();
    space.map_page(0x2000, 0x1000, PtePermissions::rw(false), &mut ctx).unwrap();
    let mut wctx = to_walk(ctx);
    space
        .protect_range(MemRegion::new(0x1000, 0x1000), PtePermissions::none(), &mut wctx)
        .unwrap();
    // The page no longer translates...
    assert!(space.translate(0x1000, &wctx.mapper).is_none());
    // ...but unmapping it reclaims nothing: the swapped entry is not a
    // live mapping, yet the slot is not the never-mapped zero either.
    let frames = space.unmap_range(MemRegion::new(0x1000, 0x1000), &mut wctx).unwrap();
    assert!(frames.is_empty());
}

#[test]
fn remap_swaps_the_backing_frame() {
    let (mut space, mut ctx) = process_space();
    space.map_page(0x2000, 0x1000, PtePermissions::rw(false), &mut ctx).unwrap();
    let mut wctx = to_walk(ctx);
    let old = space.remap(0x1000, 0x9000, PtePermissions::rw(false), &mut wctx).unwrap();
    assert_eq!(old, 0x2000 / 4096);
    let info = space.translate(0x1000, &wctx.mapper).unwrap();
    assert_eq!(info.pfn, 0x9000 / 4096);
}

#[test]
fn remap_of_unmapped_page_fails_without_effect() {
    let (mut space, mut ctx) = process_space();
    space.map_page(0x2000, 0x5000, PtePermissions::rw(false), &mut ctx).unwrap();
    let mut wctx = to_walk(ctx);
    let flushes_before = wctx.invalidator.len();
    let r = space.remap(0x1000, 0x9000, PtePermissions::rw(false), &mut wctx);
    assert_eq!(r, Err(MapError::NotL3Mapped));
    // Nothing was written and nothing was flushed.
    assert_eq!(wctx.invalidator.len(), flushes_before);
    let info = space.translate(0x5000, &wctx.mapper).unwrap();
    assert_eq!(info.pfn, 0x2000 / 4096);
}

#[test]
fn huge_page_promotion_uses_one_descriptor() {
    // A 2 MiB-aligned, 2 MiB-long pair takes the middle-level path: only
    // two intermediate tables are created and one leaf covers everything.
    let (mut ctx, root) = fresh_ctx();
    let attrs = MapAttributes {
        phys: MemRegion::new(0x20_0000, 0x20_0000),
        virt: MemRegion::new(0x20_0000, 0x20_0000),
        mem_type: MemoryType::Normal,
        perms: PtePermissions::rw(false),
    };
    map_range(root, attrs, &mut ctx).unwrap();
    // Root + first-level + second-level: no bottom-level table at all.
    assert_eq!(ctx.mapper.num_tables(), 3);
}

#[test]
fn unaligned_physical_side_defeats_promotion() {
    // The same length with a physical base off by one page must fall back
    // to smallest pages, which needs a bottom-level table as well.
    let (mut ctx, root) = fresh_ctx();
    let attrs = MapAttributes {
        phys: MemRegion::new(0x20_1000, 0x20_0000),
        virt: MemRegion::new(0x20_0000, 0x20_0000),
        mem_type: MemoryType::Normal,
        perms: PtePermissions::rw(false),
    };
    map_range(root, attrs, &mut ctx).unwrap();
    assert!(ctx.mapper.num_tables() > 3);
}

#[test]
fn map_range_rejects_size_mismatch() {
    let (mut ctx, root) = fresh_ctx();
    let attrs = MapAttributes {
        phys: MemRegion::new(0x1000, 0x2000),
        virt: MemRegion::new(0x1000, 0x1000),
        mem_type: MemoryType::Normal,
        perms: PtePermissions::rw(false),
    };
    assert_eq!(map_range(root, attrs, &mut ctx), Err(MapError::SizeMismatch));
}

#[test]
fn map_range_rejects_sub_page_region() {
    let (mut ctx, root) = fresh_ctx();
    let attrs = MapAttributes {
        phys: MemRegion::new(0x1000, 0x800),
        virt: MemRegion::new(0x1000, 0x800),
        mem_type: MemoryType::Normal,
        perms: PtePermissions::rw(false),
    };
    assert_eq!(map_range(root, attrs, &mut ctx), Err(MapError::TooSmall));
}

#[test]
fn map_range_rejects_misaligned_regions() {
    let (mut ctx, root) = fresh_ctx();
    let attrs = MapAttributes {
        phys: MemRegion::new(0x1080, 0x1000),
        virt: MemRegion::new(0x1000, 0x1000),
        mem_type: MemoryType::Normal,
        perms: PtePermissions::rw(false),
    };
    assert_eq!(map_range(root, attrs, &mut ctx), Err(MapError::PhysNotAligned));
    let attrs = MapAttributes {
        phys: MemRegion::new(0x1000, 0x1000),
        virt: MemRegion::new(0x1080, 0x1000),
        mem_type: MemoryType::Normal,
        perms: PtePermissions::rw(false),
    };
    assert_eq!(map_range(root, attrs, &mut ctx), Err(MapError::VirtNotAligned));
}

#[test]
fn exhausted_allocator_reports_no_memory() {
    let mut mapper = SmallocPageAlloc::new(1);
    let root = mapper.allocate_page_table().unwrap();
    let mut ctx = MappingContext { mapper, invalidator: NullTlbInvalidator::new() };
    let attrs = MapAttributes {
        phys: MemRegion::new(0x2000, 0x1000),
        virt: MemRegion::new(0x1000, 0x1000),
        mem_type: MemoryType::Normal,
        perms: PtePermissions::rw(false),
    };
    assert_eq!(map_range(root, attrs, &mut ctx), Err(MapError::NoMemory));
}

#[test]
fn every_mapped_page_requests_a_flush() {
    let (mut space, mut ctx) = process_space();
    let before = ctx.invalidator.len();
    space.map_page(0x2000, 0x1000, PtePermissions::rw(false), &mut ctx).unwrap();
    assert_eq!(ctx.invalidator.len(), before + 1);
    assert!(ctx.invalidator.requested.contains(&0x1000));
}

#[test]
fn fork_shares_frames_until_a_copy_is_made() {
    // Copy-on-write fork: after the clone both spaces see the same frame,
    // read-only. When the child takes its private copy (the fault
    // handler's job, simulated by a remap), writes to the child's frame
    // can no longer be observed through the parent's mapping.
    let (mut ctx, root) = fresh_ctx();
    let kernel = setup_kern_addr_space(root);
    let mut parent = RiscvProcessAddressSpace::new(&kernel, &mut ctx).unwrap();
    let mut child = RiscvProcessAddressSpace::new(&kernel, &mut ctx).unwrap();

    parent.map_page(0x2000, 0x1000, PtePermissions::rw(true), &mut ctx).unwrap();
    let shared = parent
        .protect_and_clone_region(
            MemRegion::new(0x1000, 0x1000),
            &mut child,
            PtePermissions::ro(true),
            &mut ctx,
        )
        .unwrap();
    assert_eq!(shared, vec![0x2000 / 4096]);

    let p = parent.translate(0x1000, &ctx.mapper).unwrap();
    let c = child.translate(0x1000, &ctx.mapper).unwrap();
    assert_eq!(p.pfn, c.pfn);
    assert!(!p.perms.is_write());
    assert!(!c.perms.is_write());

    // The write fault in the child is resolved by giving it a private
    // copy of the frame.
    let mut wctx = to_walk(ctx);
    let old = child.remap(0x1000, 0x8000, PtePermissions::rw(true), &mut wctx).unwrap();
    assert_eq!(old, 0x2000 / 4096);
    let p = parent.translate(0x1000, &wctx.mapper).unwrap();
    let c = child.translate(0x1000, &wctx.mapper).unwrap();
    assert_eq!(p.pfn, 0x2000 / 4096);
    assert_eq!(c.pfn, 0x8000 / 4096);
    assert_ne!(p.pfn, c.pfn);
}

#[test]
fn process_spaces_share_the_kernel_half() {
    let (mut ctx, root) = fresh_ctx();
    let mut kernel = setup_kern_addr_space(root);
    // A kernel mapping installed before the fork...
    kernel
        .map_normal(
            MemRegion::new(0x8000_0000, 0x1000),
            MemRegion::new(PAGE_OFFSET + 0x8000_0000, 0x1000),
            PtePermissions::rw(false),
            &mut ctx,
        )
        .unwrap();
    let space = RiscvProcessAddressSpace::new(&kernel, &mut ctx).unwrap();
    // ...resolves identically through the process root.
    let info = space.translate(PAGE_OFFSET + 0x8000_0000, &ctx.mapper).unwrap();
    assert_eq!(info.pfn, 0x8000_0000 / 4096);
    // And later kernel mappings through shared intermediate tables appear
    // in the process space as well.
    kernel
        .map_normal(
            MemRegion::new(0x8010_0000, 0x1000),
            MemRegion::new(PAGE_OFFSET + 0x8010_0000, 0x1000),
            PtePermissions::rw(false),
            &mut ctx,
        )
        .unwrap();
    let info = space.translate(PAGE_OFFSET + 0x8010_0000, &ctx.mapper).unwrap();
    assert_eq!(info.pfn, 0x8010_0000 / 4096);
}

#[test]
fn kernel_translate_keeps_the_page_offset() {
    let (mut ctx, root) = fresh_ctx();
    let mut kernel = setup_kern_addr_space(root);
    kernel
        .map_normal(
            MemRegion::new(0x8000_0000, 0x2000),
            MemRegion::new(PAGE_OFFSET + 0x8000_0000, 0x2000),
            PtePermissions::rw(false),
            &mut ctx,
        )
        .unwrap();
    assert_eq!(
        kernel.translate(PAGE_OFFSET + 0x8000_0123, &ctx.mapper),
        Some(0x8000_0123)
    );
    assert_eq!(
        kernel.translate(PAGE_OFFSET + 0x8000_1fff, &ctx.mapper),
        Some(0x8000_1fff)
    );
    assert_eq!(kernel.translate(PAGE_OFFSET + 0x8000_2000, &ctx.mapper), None);
}

#[test]
fn mmio_window_advances_and_translates() {
    let (mut ctx, root) = fresh_ctx();
    let mut kernel = setup_kern_addr_space(root);
    let va = kernel
        .map_mmio(MemRegion::new(0x1000_0100, 0x100), &mut ctx)
        .unwrap();
    assert_eq!(va, MMIO_BASE + 0x100);
    // The device page answers at the window.
    assert_eq!(kernel.translate(va, &ctx.mapper), Some(0x1000_0100));
    // A second range lands further into the window.
    let va2 = kernel
        .map_mmio(MemRegion::new(0x2000_0000, 0x1000), &mut ctx)
        .unwrap();
    assert!(va2 > va);
}

#[test]
fn logical_map_covers_all_memory_regions() {
    let (mut ctx, root) = fresh_ctx();
    let kernel = setup_kern_addr_space(root);
    let regions = vec![
        MemRegion::new(0x8000_0000, 0x4000),
        MemRegion::new(0x9000_0000, 0x2000),
    ];
    setup_logical_map(kernel.table_pa(), &regions, &mut ctx).unwrap();
    assert_eq!(
        kernel.translate(PAGE_OFFSET + 0x8000_0000, &ctx.mapper),
        Some(0x8000_0000)
    );
    assert_eq!(
        kernel.translate(PAGE_OFFSET + 0x9000_1000, &ctx.mapper),
        Some(0x9000_1000)
    );
    assert_eq!(kernel.translate(PAGE_OFFSET + 0xa000_0000, &ctx.mapper), None);
}

#[test]
fn translate_kernel_va_is_a_linear_offset() {
    assert_eq!(translate_kernel_va(IMAGE_BASE, 0x8020_0000), 0x8020_0000);
    assert_eq!(translate_kernel_va(IMAGE_BASE + 0x1234, 0x8020_0000), 0x8020_1234);
}

#[test]
fn protect_leaves_pages_outside_the_region_alone() {
    let (mut space, mut ctx) = process_space();
    space.map_page(0x2000, 0x1000, PtePermissions::rw(false), &mut ctx).unwrap();
    space.map_page(0x3000, 0x5000, PtePermissions::rw(false), &mut ctx).unwrap();
    let mut wctx = to_walk(ctx);
    space
        .protect_range(MemRegion::new(0x1000, 0x1000), PtePermissions::ro(false), &mut wctx)
        .unwrap();
    // The protected page lost its write permission...
    assert!(!space.translate(0x1000, &wctx.mapper).unwrap().perms.is_write());
    // ...the page outside the region kept everything.
    let other = space.translate(0x5000, &wctx.mapper).unwrap();
    assert_eq!(other.pfn, 0x3000 / 4096);
    assert!(other.perms.is_write());
}

#[test]
fn walking_into_a_superpage_reports_corruption() {
    // A walk expects bottom-level entries; a huge leaf above the bottom
    // level is structural corruption from its point of view, and the
    // kernel translate probe reports nothing rather than guessing.
    let (mut ctx, root) = fresh_ctx();
    let attrs = MapAttributes {
        phys: MemRegion::new(0x20_0000, 0x20_0000),
        virt: MemRegion::new(0x20_0000, 0x20_0000),
        mem_type: MemoryType::Normal,
        perms: PtePermissions::rw(false),
    };
    map_range(root, attrs, &mut ctx).unwrap();
    let r = walk_and_modify_region(
        root,
        MemRegion::new(0x20_0000, 0x1000),
        &mut ctx.mapper,
        &mut ctx.invalidator,
        LeafOp::Unmap,
    );
    assert_eq!(r, Err(MapError::NotL3Mapped));
    let kernel = setup_kern_addr_space(root);
    assert_eq!(kernel.translate(0x20_0000, &ctx.mapper), None);
}

#[test]
fn walker_rejects_unaligned_regions() {
    let (mut space, ctx) = process_space();
    let mut wctx = to_walk(ctx);
    let r = space.protect_range(
        MemRegion::new(0x1080, 0x1000),
        PtePermissions::ro(false),
        &mut wctx,
    );
    assert_eq!(r, Err(MapError::VirtNotAligned));
    let r = space.unmap_range(MemRegion::new(0x1000, 0x180), &mut wctx);
    assert_eq!(r, Err(MapError::VirtNotAligned));
}
