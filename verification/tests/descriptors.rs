//! Descriptor-level behaviour: bit-exact encoding and decoding of single
//! page-table entries.
use vmcore::descriptor::{
    L3DescriptorState, MemoryType, PageDescriptor, PageTableEntry, TableMapper,
};
use vmcore::perms::PtePermissions;

#[test]
fn invalid_descriptor_is_zero() {
    let d = PageDescriptor::invalid();
    assert_eq!(d.as_raw(), 0);
    assert!(!d.is_valid());
    assert!(matches!(d.state(), L3DescriptorState::Invalid));
    assert_eq!(d.mapped_address(), None);
    assert_eq!(d.permissions(), None);
}

#[test]
fn leaf_round_trip() {
    let perms = PtePermissions::from_raw_bits(true, true, false, true, false);
    let d = PageDescriptor::new_map_pa(0x1234, MemoryType::Normal, perms);
    assert!(d.is_valid());
    assert_eq!(d.mapped_address(), Some(0x1234));
    let got = d.permissions().unwrap();
    assert!(got.is_read());
    assert!(got.is_write());
    assert!(!got.is_execute());
    assert!(got.is_user());
    assert!(!got.is_cow());
    // A leaf is not a table entry.
    assert_eq!(d.next_table_address(), None);
}

#[test]
fn table_entry_round_trip() {
    let d = PageDescriptor::new_next_table(7);
    assert!(d.is_valid());
    assert_eq!(d.next_table_address(), Some(7));
    // A table entry maps nothing directly.
    assert_eq!(d.mapped_address(), None);
    assert_eq!(d.permissions(), None);
}

#[test]
fn swapped_state_is_distinct_from_invalid() {
    let perms = PtePermissions::ro(false);
    let d = PageDescriptor::new_map_pa(0x55, MemoryType::Normal, perms);
    let s = d.mark_as_swapped();
    assert!(!s.is_valid());
    assert!(matches!(s.state(), L3DescriptorState::Swapped));
    assert!(matches!(PageDescriptor::invalid().state(), L3DescriptorState::Invalid));
    assert!(matches!(d.state(), L3DescriptorState::Valid));
}

#[test]
fn set_permissions_rewrites_only_permissions() {
    let d = PageDescriptor::new_map_pa(0x99, MemoryType::Normal, PtePermissions::ro(false));
    let e = d.set_permissions(PtePermissions::rwx(true));
    assert_eq!(e.mapped_address(), Some(0x99));
    let got = e.permissions().unwrap();
    assert!(got.is_write());
    assert!(got.is_execute());
    assert!(got.is_user());
}

#[test]
fn device_type_sets_attribute_bits() {
    let n = PageDescriptor::new_map_pa(1, MemoryType::Normal, PtePermissions::rw(false));
    let io = PageDescriptor::new_map_pa(1, MemoryType::Device, PtePermissions::rw(false));
    assert_ne!(n.as_raw(), io.as_raw());
    // Both map the same frame with the same permissions.
    assert_eq!(n.mapped_address(), io.mapped_address());
    assert_eq!(n.permissions(), io.permissions());
}

#[test]
fn read_bit_is_always_granted_on_leaves() {
    let d = PageDescriptor::new_map_pa(
        2,
        MemoryType::Normal,
        PtePermissions::from_raw_bits(false, false, true, false, false),
    );
    let got = d.permissions().unwrap();
    assert!(got.is_read());
    assert!(got.is_execute());
    assert!(!got.is_write());
}

#[test]
fn permissions_empty_access_detection() {
    assert!(PtePermissions::none().is_empty_access());
    assert!(!PtePermissions::ro(false).is_empty_access());
    assert!(!PtePermissions::rw(true).is_empty_access());
    assert!(!PtePermissions::rwx(false).is_empty_access());
}
