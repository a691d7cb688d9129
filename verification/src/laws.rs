//! Laws tying the engine's operations together: what a mapping guarantees
//! to a later probe, what clearing a region leaves behind, and how repeated
//! permission rewrites compose.
use vstd::prelude::*;

use crate::descriptor::{desc_perms, desc_ppn, desc_valid};
use crate::model::{
    applied_perms, desc_is_mappable, lemma_lookup_frame_rel, lemma_vpn_index_bounds, lookup,
    refs_closed, resolve, vpn_index, LookupResult, PageMapping,
};
use crate::perms::PtePermissions;
use crate::walk::{
    leaf_op_post, page_done, region_unmapped, region_walkable, walk_frame, LeafOp,
};

verus! {

/// Law: a page that resolves to a mapping through a bottom-level entry is
/// reported by the translation probe exactly as the mapping says — the
/// same frame, the same permissions. Together with the mapping engine's
/// guarantee that a successful `map_range` resolves every page of the
/// region to its frame of the physical region, a probe after a successful
/// map returns the mapped frame with the requested permissions.
pub proof fn lemma_mapped_page_translates(tables: Seq<Seq<u64>>, root: int, vpn: u64, m: PageMapping)
    requires
        resolve(tables, root, vpn) == Some(m),
        lookup(tables, root, vpn) matches LookupResult::Slot { .. },
    ensures
        match lookup(tables, root, vpn) {
            LookupResult::Slot { entry } => desc_is_mappable(entry) && desc_ppn(entry) == m.ppn
                && desc_perms(entry) == m.perms,
            _ => false,
        },
{
}

/// Law: a mapping operation never silently replaces an existing mapping.
/// Whenever an operation both preserves everything that already resolved
/// and leaves a page resolved, the page's mapping is exactly what it was:
/// the only way to change it is to tear it down first, and a second map of
/// an already-mapped page can only fail.
pub proof fn lemma_no_silent_overwrite(
    ot: Seq<Seq<u64>>,
    nt: Seq<Seq<u64>>,
    root: int,
    vpn: u64,
    m_old: PageMapping,
    m_new: PageMapping,
)
    requires
        resolve(ot, root, vpn) == Some(m_old),
        resolve(nt, root, vpn) == Some(m_new),
        forall|q: u64|
            resolve(ot, root, q) is Some ==> #[trigger] resolve(nt, root, q) == resolve(
                ot,
                root,
                q,
            ),
    ensures
        m_new == m_old,
{
    assert(resolve(nt, root, vpn) == resolve(ot, root, vpn));
}

/// Law: a page that resolves to a mapping stands in the way of any further
/// map of the same page. With the engine's promise that a one-page map
/// succeeds exactly when nothing blocks the page, mapping the same page
/// twice must fail the second time — with `AlreadyMapped`, since the
/// engine's other error is ruled out under an inexhaustible allocator —
/// and, by `lemma_no_silent_overwrite`, the original mapping is unchanged.
pub proof fn lemma_mapped_page_blocks(tables: Seq<Seq<u64>>, root: int, vpn: u64)
    requires
        resolve(tables, root, vpn) is Some,
    ensures
        crate::map::page_blocked(tables, root, vpn),
{
}

/// Law: after a clearing walk over a structurally sound region, the region
/// is empty — every page either never reached a bottom-level entry or now
/// sits on an invalid one. A second clearing walk therefore finds nothing:
/// its contract returns an empty reclaim list and changes no table, which
/// is the idempotence of unmapping.
pub proof fn lemma_unmap_clears_region(
    a: Seq<Seq<u64>>,
    b: Seq<Seq<u64>>,
    root: int,
    svpn: u64,
    pages: u64,
)
    requires
        refs_closed(a),
        0 <= root < a.len(),
        walk_frame(LeafOp::Unmap, a, b),
        forall|k: u64|
            k < pages ==> #[trigger] page_done(LeafOp::Unmap, a, b, root, (svpn + k) as u64),
        region_walkable(a, root, svpn, pages),
    ensures
        region_unmapped(b, root, svpn, pages),
{
    crate::model::lemma_zero_desc();
    assert forall|k: u64| k < pages implies match #[trigger] lookup(b, root, (svpn + k) as u64) {
        LookupResult::Missing { .. } => true,
        LookupResult::Slot { entry } => !desc_valid(entry),
        LookupResult::Super { .. } => false,
    } by {
        let w = (svpn + k) as u64;
        lemma_lookup_frame_rel(
            a,
            b,
            root,
            0,
            w,
            |x: u64, y: u64| leaf_op_post(LeafOp::Unmap, x, y),
        );
        match lookup(a, root, w) {
            LookupResult::Slot { entry: e } => {
                if desc_valid(e) {
                    assert(page_done(LeafOp::Unmap, a, b, root, w));
                }
            },
            LookupResult::Missing { .. } => {},
            LookupResult::Super { .. } => {
                assert(false);
            },
        }
    }
}

/// Law: permission rewrites do not mix. After protecting a region with one
/// access-granting permission set and then with a second one, every page
/// that was mapped at the start resolves with exactly the second set — the
/// frame it maps is untouched, and nothing of the first set survives.
pub proof fn lemma_protect_round_trip(
    a: Seq<Seq<u64>>,
    b: Seq<Seq<u64>>,
    c: Seq<Seq<u64>>,
    root: int,
    svpn: u64,
    pages: u64,
    p1: PtePermissions,
    p2: PtePermissions,
)
    requires
        refs_closed(a),
        0 <= root < a.len(),
        a.len() == b.len() == c.len(),
        forall|k: u64|
            k < pages ==> #[trigger] page_done(LeafOp::Protect(p1), a, b, root, (svpn + k) as u64),
        forall|k: u64|
            k < pages ==> #[trigger] page_done(LeafOp::Protect(p2), b, c, root, (svpn + k) as u64),
        p1.read || p1.write || p1.execute,
        p2.read || p2.write || p2.execute,
    ensures
        forall|k: u64|
            k < pages ==> match #[trigger] lookup(a, root, (svpn + k) as u64) {
                LookupResult::Slot { entry } => desc_is_mappable(entry) ==> resolve(
                    c,
                    root,
                    (svpn + k) as u64,
                ) == Some(
                    PageMapping { ppn: desc_ppn(entry) as int, perms: applied_perms(p2) },
                ),
                _ => true,
            },
{
    assert forall|k: u64| k < pages implies match #[trigger] lookup(a, root, (svpn + k) as u64) {
        LookupResult::Slot { entry } => desc_is_mappable(entry) ==> resolve(
            c,
            root,
            (svpn + k) as u64,
        ) == Some(PageMapping { ppn: desc_ppn(entry) as int, perms: applied_perms(p2) }),
        _ => true,
    } by {
        let w = (svpn + k) as u64;
        match lookup(a, root, w) {
            LookupResult::Slot { entry: e } => {
                if desc_is_mappable(e) {
                    assert(page_done(LeafOp::Protect(p1), a, b, root, w));
                    match lookup(b, root, w) {
                        LookupResult::Slot { entry: f } => {
                            assert(leaf_op_post(LeafOp::Protect(p1), e, f));
                            assert(page_done(LeafOp::Protect(p2), b, c, root, w));
                            match lookup(c, root, w) {
                                LookupResult::Slot { entry: g } => {
                                    assert(leaf_op_post(LeafOp::Protect(p2), f, g));
                                },
                                _ => {
                                    assert(false);
                                },
                            }
                        },
                        _ => {
                            assert(false);
                        },
                    }
                }
            },
            _ => {},
        }
    }
}

/// Law: the kernel half is shared. While a process root's upper entries
/// are identical to the kernel root's — the creation invariant of every
/// process space — any address whose top-level index falls in the kernel
/// half resolves identically through either root, which is what lets one
/// root-register swap move between kernel and user mappings atomically.
pub proof fn lemma_kernel_half_shared(tables: Seq<Seq<u64>>, kroot: int, proot: int, vpn: u64)
    requires
        forall|i: int| 256 <= i < 512 ==> #[trigger] tables[proot][i] == tables[kroot][i],
        vpn_index(vpn, 0) >= 256,
    ensures
        lookup(tables, proot, vpn) == lookup(tables, kroot, vpn),
{
    lemma_vpn_index_bounds(vpn, 0);
    assert(tables[proot][vpn_index(vpn, 0)] == tables[kroot][vpn_index(vpn, 0)]);
}

} // verus!
