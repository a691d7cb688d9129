//! Error taxonomy of the mapping engine and the region walker.
use vstd::prelude::*;

verus! {

/// Everything that can go wrong while building, mutating or querying a page
/// table.
///
/// The first four variants are precondition violations, rejected before any
/// table is touched. `NoMemory` propagates allocator exhaustion without
/// rolling back descriptors that were already installed. `AlreadyMapped`
/// signals a collision with an existing valid entry. `NotL3Mapped` reports a
/// structurally corrupt hierarchy: a walk met a valid leaf where only a table
/// entry or an empty slot was allowed.
#[derive(Clone, Copy, Debug, PartialEq, Eq, Structural)]
pub enum MapError {
    SizeMismatch,
    TooSmall,
    PhysNotAligned,
    VirtNotAligned,
    NoMemory,
    AlreadyMapped,
    NotL3Mapped,
}

} // verus!
