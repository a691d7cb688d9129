//! Levels, table pages, the fixmap window and the trap frame.
use vmcore::fixmap::{Fixmap, FIXMAP_BASE, FIXMAP_PGTABLE_TMP};
use vmcore::level::{L0Table, L1Table, L2Table, L3Table, PgTable};
use vmcore::pool::{PageAllocator, PageTableAllocator, PageTableMapper, PgTableArray};
use vmcore::tlb::{AllTlbInvalidator, TLBInvalidator};
use vmcore::trapframe::TrapFrame;

#[test]
fn level_indices_extract_the_right_bits() {
    // 0xffff_9000_0020_0000: top index 288, then 0, 1, 0.
    let va: u64 = 0xffff_9000_0020_0000;
    assert_eq!(L0Table::index(va), 288);
    assert_eq!(L1Table::index(va), 0);
    assert_eq!(L2Table::index(va), 1);
    assert_eq!(L3Table::index(va), 0);
    // One entry further at each level moves the address by that level's
    // coverage.
    assert_eq!(L2Table::index(va + L2Table::page_size()), 2);
    assert_eq!(L3Table::index(va + 4096), 1);
}

#[test]
fn level_sizes_and_leaves() {
    assert_eq!(L0Table::page_size(), 512 * 1024 * 1024 * 1024);
    assert_eq!(L1Table::page_size(), 1024 * 1024 * 1024);
    assert_eq!(L2Table::page_size(), 2 * 1024 * 1024);
    assert_eq!(L3Table::page_size(), 4096);
    assert!(!L0Table::is_leaf());
    assert!(!L1Table::is_leaf());
    assert!(!L2Table::is_leaf());
    assert!(L3Table::is_leaf());
    assert_eq!(L0Table::level(), 0);
    assert_eq!(L3Table::level(), 3);
}

#[test]
fn new_table_page_is_zeroed() {
    let t = PgTableArray::new();
    assert_eq!(t.entries.len(), 512);
    assert!(t.entries.iter().all(|e| *e == 0));
}

#[test]
fn fixmap_temp_window_round_trip() {
    let mut mapper = PageTableAllocator::new();
    let root = mapper.allocate_page_table().unwrap();
    let mut invalidator = AllTlbInvalidator::new();
    let mut fixmap = Fixmap::new();
    fixmap.setup_fixmaps(root, &mut mapper, &mut invalidator).unwrap();

    let target = mapper.allocate_page_table().unwrap();
    let guard = fixmap
        .temp_remap_page_table(target, &mut mapper, &mut invalidator)
        .unwrap();
    assert_eq!(guard.get_va(), FIXMAP_PGTABLE_TMP);
    // Installing and tearing down the window both demand a flush of its
    // reserved address.
    fixmap.unmap_temp_page(&mut mapper, &mut invalidator);
    assert!(invalidator.requested.contains(&FIXMAP_PGTABLE_TMP));
}

#[test]
fn fixmap_slot_addresses() {
    assert_eq!(Fixmap::va_for_slot(0), FIXMAP_BASE);
    assert_eq!(Fixmap::va_for_slot(1), FIXMAP_PGTABLE_TMP);
    assert_eq!(FIXMAP_PGTABLE_TMP, FIXMAP_BASE + (1 << 21));
}

#[test]
fn null_invalidator_does_no_bookkeeping() {
    let mut n = vmcore::tlb::NullTlbInvalidator::new();
    n.invalidate_page(0x1000);
    n.invalidate_all();
}

#[test]
fn new_user_trap_frame() {
    let tf = TrapFrame::new_user(0x40_0000, 0x7fff_f000);
    assert_eq!(tf.sepc, 0x40_0000);
    assert_eq!(tf.sstatus, 0);
    assert_eq!(tf.regs[2], 0x7fff_f000);
    for (i, r) in tf.regs.iter().enumerate() {
        if i != 2 {
            assert_eq!(*r, 0);
        }
    }
}

#[test]
fn page_alignment_check() {
    assert!(vmcore::is_page_aligned(0x2000));
    assert!(!vmcore::is_page_aligned(0x2001));
    assert_eq!(vmcore::PAGE_SIZE, 4096);
    assert_eq!(vmcore::DESCRIPTORS_PER_PAGE, 512);
}
