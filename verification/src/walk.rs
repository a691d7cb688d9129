//! The region walker: one traversal that implements protect, unmap, remap
//! and translate-probe over the bottom-level entries of a virtual region.
//!
//! The walker descends the hierarchy once per page of the region, applies
//! the requested transform to every valid bottom-level entry it finds, and
//! requests a TLB flush for each page it rewrote. A valid leaf met above
//! the bottom level, or a table-patterned entry sitting in a bottom-level
//! slot, is a structural inconsistency reported as `NotL3Mapped`.
use vstd::prelude::*;

use crate::descriptor::{
    desc_is_leaf, desc_is_table, desc_perms, desc_ppn, desc_swap_marked, desc_valid, MemoryType,
    PageDescriptor, PageTableEntry, TableMapper, PPN_LIMIT,
};
use crate::errors::MapError;
use crate::level::{index_of, vpn_of_va};
use crate::map::MemRegion;
use crate::model::{
    applied_perms, desc_is_mappable, descend, lemma_descents_meet, lemma_indices_determine_vpn,
    lemma_lookup_frame_rel, lemma_lookup_untouched_from, lemma_vpn_index_bounds, lookup,
    lookup_from, refs_closed, refs_injective, root_unreferenced, vpn_index, vpn_of, LookupResult,
    VPN_LIMIT,
};
use crate::perms::PtePermissions;
use crate::pool::PageTableMapper;
use crate::tlb::TLBInvalidator;

verus! {

/// The capabilities one walk borrows: table memory and the TLB invalidator.
pub struct WalkContext<M, I> {
    pub mapper: M,
    pub invalidator: I,
}

/// What the walker does to each valid bottom-level entry of the region.
#[derive(Clone, Copy, Debug)]
pub enum LeafOp {
    /// Rewrite the entry's permissions; a request granting no access at all
    /// marks the entry swapped instead, preserving its frame.
    Protect(PtePermissions),
    /// Clear the entry; the caller reclaims the frames from the returned
    /// list.
    Unmap,
    /// Write the entry back unchanged, capturing it in the returned list.
    Query,
    /// Replace the entry's frame and permissions, keeping normal memory
    /// attributes.
    Remap { ppn: u64, perms: PtePermissions },
}

/// A `Remap` target frame must fit the descriptor's frame field.
pub open spec fn leaf_op_wf(op: LeafOp) -> bool {
    match op {
        LeafOp::Remap { ppn, .. } => ppn < PPN_LIMIT,
        _ => true,
    }
}

/// How a rewritten entry relates to the value it replaced. This relation is
/// closed under repetition: applying the same transform to an already
/// transformed entry relates the final value to the original one.
pub open spec fn leaf_op_post(op: LeafOp, e: u64, f: u64) -> bool {
    match op {
        LeafOp::Protect(p) => if !p.read && !p.write && !p.execute {
            !desc_valid(f) && desc_swap_marked(f) && desc_ppn(f) == desc_ppn(e)
        } else {
            desc_is_leaf(f) && desc_is_mappable(f) && !desc_is_table(f) && desc_ppn(f) == desc_ppn(
                e,
            ) && desc_perms(f) == applied_perms(p)
        },
        LeafOp::Unmap => f == 0,
        LeafOp::Query => f == e,
        LeafOp::Remap { ppn, perms } => desc_is_leaf(f) && desc_is_mappable(f) && !desc_is_table(f)
            && desc_ppn(f) == ppn && desc_perms(f) == applied_perms(perms),
    }
}

/// `b` is `a` with some valid non-table entries rewritten as `op` directs;
/// everything else — every table entry, every empty or swapped slot — is
/// untouched.
pub open spec fn walk_frame(op: LeafOp, a: Seq<Seq<u64>>, b: Seq<Seq<u64>>) -> bool {
    a.len() == b.len() && forall|t: int, i: int|
        0 <= t < a.len() && 0 <= i < 512 ==> #[trigger] b[t][i] == a[t][i] || (desc_valid(a[t][i])
            && !desc_is_table(a[t][i]) && !desc_is_table(b[t][i]) && leaf_op_post(
            op,
            a[t][i],
            b[t][i],
        ))
}

/// What one walked page guarantees: if the page had a valid bottom-level
/// entry before the walk, it has a bottom-level entry afterwards that the
/// transform's relation ties to the old one.
pub open spec fn page_done(
    op: LeafOp,
    a: Seq<Seq<u64>>,
    b: Seq<Seq<u64>>,
    root: int,
    vpn: u64,
) -> bool {
    match lookup(a, root, vpn) {
        LookupResult::Slot { entry } => desc_valid(entry) ==> match lookup(b, root, vpn) {
            LookupResult::Slot { entry: f } => leaf_op_post(op, entry, f),
            _ => false,
        },
        _ => true,
    }
}

/// Nothing in the region is mapped or marked: every descent ends in an
/// empty branch or an invalid bottom-level slot.
pub open spec fn region_unmapped(tables: Seq<Seq<u64>>, root: int, svpn: u64, pages: u64) -> bool {
    forall|k: u64|
        k < pages ==> match #[trigger] lookup(tables, root, (svpn + k) as u64) {
            LookupResult::Missing { .. } => true,
            LookupResult::Slot { entry } => !desc_valid(entry),
            LookupResult::Super { .. } => false,
        }
}

/// No page of the region is covered by a superpage leaf or a corrupt
/// bottom-level entry: the structural precondition for a walk to succeed.
pub open spec fn region_walkable(tables: Seq<Seq<u64>>, root: int, svpn: u64, pages: u64) -> bool {
    forall|k: u64|
        k < pages ==> match #[trigger] lookup(tables, root, (svpn + k) as u64) {
            LookupResult::Missing { .. } => true,
            LookupResult::Slot { entry } => !desc_is_table(entry),
            LookupResult::Super { .. } => false,
        }
}

/// The exact result list of a one-page walk: the page's old entry when it
/// was valid, nothing otherwise.
pub open spec fn single_out(tables: Seq<Seq<u64>>, root: int, svpn: u64, s: Seq<(u64, u64)>) -> bool {
    match lookup(tables, root, svpn) {
        LookupResult::Slot { entry } => if desc_valid(entry) {
            s == seq![(svpn, entry)]
        } else {
            s == Seq::<(u64, u64)>::empty()
        },
        LookupResult::Missing { .. } => s == Seq::<(u64, u64)>::empty(),
        LookupResult::Super { .. } => false,
    }
}

/// The pages of the region that carry a valid bottom-level entry, each
/// with that entry, in ascending page order: the exact list a walk hands
/// back when no table page is shared between parents.
pub open spec fn visited_of(tables: Seq<Seq<u64>>, root: int, svpn: u64, pages: u64) -> Seq<
    (u64, u64),
>
    decreases pages,
{
    if pages == 0 {
        Seq::empty()
    } else {
        let prev = visited_of(tables, root, svpn, (pages - 1) as u64);
        let w = (svpn + (pages - 1)) as u64;
        match lookup(tables, root, w) {
            LookupResult::Slot { entry } => if desc_valid(entry) {
                prev.push((w, entry))
            } else {
                prev
            },
            _ => prev,
        }
    }
}

/// The frames a visited-page list names, keeping only entries that map
/// accessible memory, in list order.
pub open spec fn frames_of(s: Seq<(u64, u64)>) -> Seq<u64>
    decreases s.len(),
{
    if s.len() == 0 {
        Seq::empty()
    } else {
        let prev = frames_of(s.drop_last());
        if desc_is_mappable(s.last().1) {
            prev.push(crate::descriptor::desc_ppn(s.last().1))
        } else {
            prev
        }
    }
}

/// Every page of the region with a valid bottom-level entry appears in
/// the region's visited-page list, with that entry.
pub proof fn lemma_visited_of_contains(
    tables: Seq<Seq<u64>>,
    root: int,
    svpn: u64,
    pages: u64,
    k: u64,
)
    requires
        k < pages,
        lookup(tables, root, (svpn + k) as u64) matches LookupResult::Slot { entry }
            && desc_valid(entry),
    ensures
        match lookup(tables, root, (svpn + k) as u64) {
            LookupResult::Slot { entry } => visited_of(tables, root, svpn, pages).contains(
                (((svpn + k) as u64), entry),
            ),
            _ => false,
        },
    decreases pages,
{
    let s = visited_of(tables, root, svpn, pages);
    let prev = visited_of(tables, root, svpn, (pages - 1) as u64);
    if k + 1 == pages {
        match lookup(tables, root, (svpn + k) as u64) {
            LookupResult::Slot { entry } => {
                assert(s == prev.push((((svpn + k) as u64), entry)));
                assert(s.last() == (((svpn + k) as u64), entry));
            },
            _ => {
                assert(false);
            },
        }
    } else {
        lemma_visited_of_contains(tables, root, svpn, (pages - 1) as u64, k);
        match lookup(tables, root, (svpn + k) as u64) {
            LookupResult::Slot { entry } => {
                let x = (((svpn + k) as u64), entry);
                let i = choose|i: int| 0 <= i < prev.len() && prev[i] == x;
                assert(prev.is_prefix_of(s));
                assert(s[i] == x);
            },
            _ => {
                assert(false);
            },
        }
    }
}

/// A grown flush log keeps everything it already contained.
proof fn lemma_log_grows(a: Seq<u64>, b: Seq<u64>, x: u64)
    requires
        a.is_prefix_of(b),
        a.contains(x),
    ensures
        b.contains(x),
{
    let i = choose|i: int| 0 <= i < a.len() && a[i] == x;
    assert(b[i] == x);
}

/// The transform's relation composes: a rewrite of an already rewritten
/// entry still relates the result to the original.
proof fn lemma_post_compose(op: LeafOp, e: u64, m: u64, f: u64)
    requires
        leaf_op_post(op, e, m),
        desc_valid(m),
        leaf_op_post(op, m, f),
    ensures
        leaf_op_post(op, e, f),
{
    crate::model::lemma_zero_desc();
}

/// Where the walker's own descent for one page ends.
enum LocateResult {
    /// An empty entry stopped the descent above the bottom level.
    Missing,
    /// A valid leaf above the bottom level covers the page.
    Blocked,
    /// The descent reached a bottom-level slot holding `entry`.
    Slot { table: usize, entry: u64 },
}

/// Walks the hierarchy for one page and reports where the descent ends,
/// with the frame of the bottom-level table it reached.
fn locate<M: PageTableMapper>(mapper: &M, root: usize, vpn: u64) -> (r: LocateResult)
    requires
        (root as int) < mapper.tables().len(),
        mapper.tables().len() <= usize::MAX,
        refs_closed(mapper.tables()),
    ensures
        ({
            let tables = mapper.tables();
            match r {
                LocateResult::Missing => lookup(tables, root as int, vpn) matches
                    LookupResult::Missing { .. },
                LocateResult::Blocked => lookup(tables, root as int, vpn) matches
                    LookupResult::Super { .. },
                LocateResult::Slot { table, entry } => {
                    &&& lookup(tables, root as int, vpn) == (LookupResult::Slot { entry })
                    &&& (table as int) < tables.len()
                    &&& entry == tables[table as int][vpn_index(vpn, 3)]
                    &&& crate::model::descend(tables, root as int, 0, vpn, 3) == Some(
                        table as int,
                    )
                    &&& (!desc_is_table(entry) ==> forall|f: u64|
                        #[trigger] lookup_from(
                            tables.update(
                                table as int,
                                tables[table as int].update(vpn_index(vpn, 3), f),
                            ),
                            root as int,
                            0,
                            vpn,
                        ) == (LookupResult::Slot { entry: f }))
                },
            }
        }),
{
    proof {
        lemma_vpn_index_bounds(vpn, 3);
    }
    let mut t: usize = root;
    let mut level: usize = 0;
    let ghost mut chain: Seq<int> = seq![root as int];
    while level < 3
        invariant
            level <= 3,
            (t as int) < mapper.tables().len(),
            refs_closed(mapper.tables()),
            (root as int) < mapper.tables().len(),
            lookup_from(mapper.tables(), t as int, level as int, vpn) == lookup(
                mapper.tables(),
                root as int,
                vpn,
            ),
            mapper.tables().len() <= usize::MAX,
            chain.len() == level + 1,
            chain[0] == root as int,
            chain[level as int] == t as int,
            forall|l: int| 0 <= l <= level ==> 0 <= #[trigger] chain[l] < mapper.tables().len(),
            forall|l: int|
                0 <= l < level ==> desc_is_table(
                    #[trigger] mapper.tables()[chain[l]][vpn_index(vpn, l)],
                ) && desc_ppn(mapper.tables()[chain[l]][vpn_index(vpn, l)]) == chain[l + 1],
        decreases 3 - level,
    {
        proof {
            lemma_vpn_index_bounds(vpn, level as int);
        }
        let raw = mapper.read_entry(t, index_of(vpn, level));
        let desc = PageDescriptor::from_raw(raw);
        match desc.next_table_address() {
            Some(pa) => {
                proof {
                    assert(desc_ppn(raw) < mapper.tables().len());
                    chain = chain.push(desc_ppn(raw) as int);
                    assert(chain[level as int + 1] == desc_ppn(raw) as int);
                    assert(desc_is_table(
                        mapper.tables()[chain[level as int]][vpn_index(vpn, level as int)],
                    ));
                }
                t = pa as usize;
            },
            None => {
                if desc.is_valid() {
                    return LocateResult::Blocked;
                }
                return LocateResult::Missing;
            },
        }
        level = level + 1;
    }
    let entry = mapper.read_entry(t, index_of(vpn, 3));
    proof {
        let tables = mapper.tables();
        assert(crate::model::descend(tables, chain[0], 0, vpn, 3) == crate::model::descend(
            tables,
            chain[1],
            1,
            vpn,
            3,
        ));
        assert(crate::model::descend(tables, chain[1], 1, vpn, 3) == crate::model::descend(
            tables,
            chain[2],
            2,
            vpn,
            3,
        ));
        assert(crate::model::descend(tables, chain[2], 2, vpn, 3) == crate::model::descend(
            tables,
            chain[3],
            3,
            vpn,
            3,
        ));
        assert(crate::model::descend(tables, chain[3], 3, vpn, 3) == Some(chain[3]));
        if !desc_is_table(entry) {
            assert forall|f: u64|
                #[trigger] lookup_from(
                    tables.update(t as int, tables[t as int].update(vpn_index(vpn, 3), f)),
                    root as int,
                    0,
                    vpn,
                ) == (LookupResult::Slot { entry: f }) by {
                let nt = tables.update(t as int, tables[t as int].update(vpn_index(vpn, 3), f));
                assert forall|l: int|
                    0 <= l < 3 implies desc_is_table(#[trigger] nt[chain[l]][vpn_index(vpn, l)])
                    && desc_ppn(nt[chain[l]][vpn_index(vpn, l)]) == chain[l + 1] by {
                    lemma_vpn_index_bounds(vpn, l);
                    assert(tables[t as int].len() == 512);
                    if chain[l] == t as int && vpn_index(vpn, l) == vpn_index(vpn, 3) {
                        assert(tables[chain[l]][vpn_index(vpn, l)] == entry);
                        assert(false);
                    }
                    assert(nt[chain[l]][vpn_index(vpn, l)] == tables[chain[l]][vpn_index(vpn, l)]);
                }
                assert(nt[t as int][vpn_index(vpn, 3)] == f);
                crate::model::lemma_chain_prefix(nt, chain, 3, vpn, 3);
            }
        }
    }
    LocateResult::Slot { table: t, entry }
}

/// The exec transform matching `leaf_op_post`.
fn apply_leaf_op(op: &LeafOp, desc: PageDescriptor) -> (r: PageDescriptor)
    requires
        leaf_op_wf(*op),
        desc_valid(desc.bits),
        !desc_is_table(desc.bits),
    ensures
        leaf_op_post(*op, desc.bits, r.bits),
        !desc_is_table(r.bits),
{
    let r = match op {
        LeafOp::Protect(p) => {
            if !p.is_read() && !p.is_write() && !p.is_execute() {
                desc.mark_as_swapped()
            } else {
                desc.set_permissions(*p)
            }
        },
        LeafOp::Unmap => PageDescriptor::invalid(),
        LeafOp::Query => desc,
        LeafOp::Remap { ppn, perms } => PageDescriptor::new_map_pa(*ppn, MemoryType::Normal, *perms),
    };
    proof {
        crate::model::lemma_zero_desc();
        let b = r.bits;
        assert(b & 2 != 0 ==> b & 0xe != 0) by (bit_vector);
    }
    r
}

/// Applies `op` to every valid bottom-level entry of the virtual region and
/// returns the pages it transformed, each with the entry it held before.
///
/// The region must be page-aligned; an empty region succeeds at once. The
/// walk flushes each page it rewrites. The hierarchy's structure is never
/// changed: table entries, empty slots and swapped slots are left exactly
/// as they were, so only entries inside the region are rewritten wherever
/// no table page is shared between parents. A valid leaf above the bottom
/// level (`Super` in the model) is reported as `NotL3Mapped`, as is a
/// table-patterned entry sitting in a bottom-level slot; pages already
/// walked stay transformed, as the design forgoes rollback.
pub fn walk_and_modify_region<M: PageTableMapper, I: TLBInvalidator>(
    l0_table: usize,
    region: MemRegion,
    mapper: &mut M,
    invalidator: &mut I,
    op: LeafOp,
) -> (r: Result<Vec<(u64, u64)>, MapError>)
    requires
        (l0_table as int) < old(mapper).tables().len(),
        old(mapper).tables().len() <= usize::MAX,
        refs_closed(old(mapper).tables()),
        leaf_op_wf(op),
        vpn_of(region.start) + region.size / 4096 <= VPN_LIMIT,
    ensures
        ({
            let ot = old(mapper).tables();
            let nt = final(mapper).tables();
            let pages = region.size / 4096;
            let svpn = vpn_of(region.start);
            &&& nt.len() == ot.len()
            &&& refs_closed(nt)
            &&& (refs_injective(ot) ==> refs_injective(nt))
            &&& walk_frame(op, ot, nt)
            &&& final(mapper).infallible() == old(mapper).infallible()
            &&& old(invalidator).log().is_prefix_of(final(invalidator).log())
            &&& (r == Err::<Vec<(u64, u64)>, MapError>(MapError::VirtNotAligned)
                <==> !region.spec_page_aligned())
            &&& (r == Err::<Vec<(u64, u64)>, MapError>(MapError::VirtNotAligned) ==> nt == ot)
            &&& (r is Err ==> r == Err::<Vec<(u64, u64)>, MapError>(MapError::VirtNotAligned) || r
                == Err::<Vec<(u64, u64)>, MapError>(MapError::NotL3Mapped))
            &&& (r is Ok ==> forall|k: u64|
                k < pages ==> #[trigger] page_done(op, ot, nt, l0_table as int, (svpn + k) as u64))
            &&& (region.spec_page_aligned() && region_walkable(ot, l0_table as int, svpn, pages)
                ==> r is Ok)
            &&& (region_unmapped(ot, l0_table as int, svpn, pages) ==> nt == ot && (r matches Ok(v)
                ==> v@ == Seq::<(u64, u64)>::empty()))
            &&& (r matches Ok(v) ==> forall|j: int|
                0 <= j < v@.len() ==> svpn <= (#[trigger] v@[j]).0 < svpn + pages && desc_valid(
                    v@[j].1,
                ))
            &&& (pages == 1 ==> (r matches Ok(v) ==> single_out(ot, l0_table as int, svpn, v@)))
            &&& (r matches Ok(v) ==> v@.len() <= pages)
            &&& (refs_injective(ot) && root_unreferenced(ot, l0_table as int) ==> forall|q: u64|
                q < VPN_LIMIT && !(svpn <= q < svpn + pages) ==> #[trigger] lookup(
                    nt,
                    l0_table as int,
                    q,
                ) == lookup(ot, l0_table as int, q))
            &&& (refs_injective(ot) && root_unreferenced(ot, l0_table as int) ==> {
                &&& (r matches Ok(v) ==> v@ == visited_of(ot, l0_table as int, svpn, pages))
                &&& (r is Ok ==> region_walkable(ot, l0_table as int, svpn, pages))
                &&& (r is Ok ==> forall|k: u64|
                    k < pages && (match #[trigger] lookup(ot, l0_table as int, (svpn + k) as u64) {
                        LookupResult::Slot { entry } => desc_valid(entry),
                        _ => false,
                    }) ==> final(invalidator).log().contains((((svpn + k) as u64) << 12) as u64))
            })
            &&& (pages <= 1 && r is Err ==> nt == ot && final(invalidator).log() == old(
                invalidator,
            ).log())
            &&& (pages == 1 ==> (r matches Ok(v) ==> (v@.len() == 1 ==> final(invalidator).log()
                == old(invalidator).log().push((svpn << 12) as u64)) && (v@.len() == 0
                ==> final(invalidator).log() == old(invalidator).log())))
        }),
{
    if !region.is_page_aligned() {
        return Err(MapError::VirtNotAligned);
    }
    let pages: u64 = region.size / 4096;
    let svpn: u64 = vpn_of_va(region.start);
    let mut out: Vec<(u64, u64)> = Vec::new();
    let mut k: u64 = 0;
    let ghost ot = old(mapper).tables();
    while k < pages
        invariant
            k <= pages,
            ot == old(mapper).tables(),
            svpn == vpn_of(region.start),
            region.spec_page_aligned(),
            pages == region.size / 4096,
            svpn + pages <= VPN_LIMIT,
            (l0_table as int) < ot.len(),
            refs_closed(ot),
            leaf_op_wf(op),
            mapper.tables().len() == ot.len(),
            ot.len() <= usize::MAX,
            refs_closed(mapper.tables()),
            refs_injective(ot) ==> refs_injective(mapper.tables()),
            root_unreferenced(ot, l0_table as int) ==> root_unreferenced(
                mapper.tables(),
                l0_table as int,
            ),
            refs_injective(ot) && root_unreferenced(ot, l0_table as int) ==> forall|q: u64|
                q < VPN_LIMIT && !(svpn <= q < svpn + k) ==> #[trigger] lookup(
                    mapper.tables(),
                    l0_table as int,
                    q,
                ) == lookup(ot, l0_table as int, q),
            refs_injective(ot) && root_unreferenced(ot, l0_table as int) ==> out@ == visited_of(
                ot,
                l0_table as int,
                svpn,
                k,
            ),
            refs_injective(ot) && root_unreferenced(ot, l0_table as int) ==> forall|j: u64|
                j < k ==> match #[trigger] lookup(ot, l0_table as int, (svpn + j) as u64) {
                    LookupResult::Slot { entry } => !desc_is_table(entry),
                    LookupResult::Super { .. } => false,
                    LookupResult::Missing { .. } => true,
                },
            refs_injective(ot) && root_unreferenced(ot, l0_table as int) ==> forall|j: u64|
                j < k && (match lookup(ot, l0_table as int, (svpn + j) as u64) {
                    LookupResult::Slot { entry } => desc_valid(entry),
                    _ => false,
                }) ==> #[trigger] invalidator.log().contains((((svpn + j) as u64) << 12) as u64),
            k == 0 ==> invalidator.log() == old(invalidator).log(),
            walk_frame(op, ot, mapper.tables()),
            mapper.infallible() == old(mapper).infallible(),
            old(invalidator).log().is_prefix_of(invalidator.log()),
            forall|j: u64|
                j < k ==> #[trigger] page_done(
                    op,
                    ot,
                    mapper.tables(),
                    l0_table as int,
                    (svpn + j) as u64,
                ),
            region_unmapped(ot, l0_table as int, svpn, pages) ==> mapper.tables() == ot && out@
                == Seq::<(u64, u64)>::empty(),
            forall|j: int|
                0 <= j < out@.len() ==> svpn <= (#[trigger] out@[j]).0 < svpn + pages && desc_valid(
                    out@[j].1,
                ),
            out@.len() <= k,
            k == 0 ==> mapper.tables() == ot && out@ == Seq::<(u64, u64)>::empty(),
            pages == 1 && k == 1 ==> single_out(ot, l0_table as int, svpn, out@),
            pages == 1 && k == 1 ==> (out@.len() == 1 ==> invalidator.log()
                == old(invalidator).log().push((svpn << 12) as u64)) && (out@.len() == 0
                ==> invalidator.log() == old(invalidator).log()),
        decreases pages - k,
    {
        let vpn = svpn + k;
        let ghost cur = mapper.tables();
        let ghost pre_log = invalidator.log();
        match locate(&*mapper, l0_table, vpn) {
            LocateResult::Missing => {
                proof {
                    lemma_lookup_frame_rel(ot, cur, l0_table as int, 0, vpn, |a: u64, b: u64| leaf_op_post(op, a, b));
                    if refs_injective(ot) && root_unreferenced(ot, l0_table as int) {
                        assert(lookup(cur, l0_table as int, ((svpn + k) as u64)) == lookup(
                            ot,
                            l0_table as int,
                            ((svpn + k) as u64),
                        ));
                        assert(visited_of(ot, l0_table as int, svpn, (k + 1) as u64) == visited_of(
                            ot,
                            l0_table as int,
                            svpn,
                            k,
                        ));
                    }
                }
            },
            LocateResult::Blocked => {
                proof {
                    lemma_lookup_frame_rel(ot, cur, l0_table as int, 0, vpn, |a: u64, b: u64| leaf_op_post(op, a, b));
                    assert(lookup(ot, l0_table as int, (svpn + k) as u64) matches
                        LookupResult::Super { .. });
                    assert(!region_walkable(ot, l0_table as int, svpn, pages));
                    assert(!region_unmapped(ot, l0_table as int, svpn, pages));
                }
                return Err(MapError::NotL3Mapped);
            },
            LocateResult::Slot { table, entry } => {
                let desc = PageDescriptor::from_raw(entry);
                if desc.is_valid() {
                    if desc.next_table_address().is_some() {
                        proof {
                            lemma_lookup_frame_rel(ot, cur, l0_table as int, 0, vpn, |a: u64, b: u64| leaf_op_post(op, a, b));
                            match lookup(ot, l0_table as int, vpn) {
                                LookupResult::Slot { entry: e } => {
                                    if e != entry {
                                        assert(leaf_op_post(op, e, entry));
                                        assert(!desc_is_table(entry)) by {
                                            crate::model::lemma_zero_desc();
                                        }
                                        assert(false);
                                    }
                                },
                                _ => {
                                    assert(false);
                                },
                            }
                            assert(lookup(ot, l0_table as int, (svpn + k) as u64) matches
                                LookupResult::Slot { entry: e } && desc_is_table(e));
                            assert(!region_walkable(ot, l0_table as int, svpn, pages));
                            assert(!region_unmapped(ot, l0_table as int, svpn, pages));
                        }
                        return Err(MapError::NotL3Mapped);
                    }
                    let nd = apply_leaf_op(&op, desc);
                    proof {
                        lemma_vpn_index_bounds(vpn, 3);
                    }
                    mapper.write_entry(table, index_of(vpn, 3), nd.as_raw());
                    invalidator.invalidate_page(vpn << 12);
                    out.push((vpn, entry));
                    proof {
                        let nxt = mapper.tables();
                        let rel = |a: u64, b: u64| leaf_op_post(op, a, b);
                        let ii = vpn_index(vpn, 3);
                        assert(nxt == cur.update(table as int, cur[table as int].update(ii, nd.bits)));
                        assert(lookup_from(
                            cur.update(table as int, cur[table as int].update(ii, nd.bits)),
                            l0_table as int,
                            0,
                            vpn,
                        ) == (LookupResult::Slot { entry: nd.bits }));
                        assert(lookup(nxt, l0_table as int, vpn) == (LookupResult::Slot {
                            entry: nd.bits,
                        }));
                        assert(walk_frame(op, ot, nxt)) by {
                            assert forall|t2: int, i2: int|
                                0 <= t2 < ot.len() && 0 <= i2 < 512 implies #[trigger] nxt[t2][i2]
                                == ot[t2][i2] || (desc_valid(ot[t2][i2]) && !desc_is_table(
                                ot[t2][i2],
                            ) && !desc_is_table(nxt[t2][i2]) && leaf_op_post(
                                op,
                                ot[t2][i2],
                                nxt[t2][i2],
                            )) by {
                                if t2 == table as int && i2 == ii {
                                    if ot[t2][i2] != entry {
                                        lemma_post_compose(op, ot[t2][i2], entry, nd.bits);
                                    }
                                } else {
                                    assert(nxt[t2][i2] == cur[t2][i2]);
                                }
                            }
                        }
                        assert forall|t2: int, i2: int|
                            0 <= t2 < cur.len() && 0 <= i2 < 512 implies #[trigger] nxt[t2][i2]
                            == cur[t2][i2] || (desc_valid(cur[t2][i2]) && !desc_is_table(
                            cur[t2][i2],
                        ) && !desc_is_table(nxt[t2][i2]) && rel(cur[t2][i2], nxt[t2][i2])) by {
                            if !(t2 == table as int && i2 == ii) {
                                assert(nxt[t2][i2] == cur[t2][i2]);
                            }
                        }
                        assert forall|j: u64| j < k + 1 implies #[trigger] page_done(
                            op,
                            ot,
                            nxt,
                            l0_table as int,
                            (svpn + j) as u64,
                        ) by {
                            let w = (svpn + j) as u64;
                            if j < k {
                                lemma_lookup_frame_rel(cur, nxt, l0_table as int, 0, w, rel);
                                match lookup(ot, l0_table as int, w) {
                                    LookupResult::Slot { entry: e } => {
                                        if desc_valid(e) {
                                            assert(page_done(op, ot, cur, l0_table as int, w));
                                            match lookup(cur, l0_table as int, w) {
                                                LookupResult::Slot { entry: f } => {
                                                    assert(leaf_op_post(op, e, f));
                                                    match lookup(nxt, l0_table as int, w) {
                                                        LookupResult::Slot { entry: g } => {
                                                            if g != f {
                                                                lemma_post_compose(op, e, f, g);
                                                            }
                                                        },
                                                        _ => {
                                                            assert(false);
                                                        },
                                                    }
                                                },
                                                _ => {
                                                    assert(false);
                                                },
                                            }
                                        }
                                    },
                                    _ => {},
                                }
                            } else {
                                lemma_lookup_frame_rel(ot, cur, l0_table as int, 0, w, rel);
                                match lookup(ot, l0_table as int, w) {
                                    LookupResult::Slot { entry: e } => {
                                        if desc_valid(e) {
                                            if e != entry {
                                                assert(leaf_op_post(op, e, entry));
                                                lemma_post_compose(op, e, entry, nd.bits);
                                            }
                                        }
                                    },
                                    _ => {},
                                }
                            }
                        }
                        assert(!region_unmapped(ot, l0_table as int, svpn, pages)) by {
                            lemma_lookup_frame_rel(ot, cur, l0_table as int, 0, vpn, rel);
                            match lookup(ot, l0_table as int, vpn) {
                                LookupResult::Slot { entry: e } => {
                                    if !desc_valid(e) {
                                        assert(desc_valid(entry));
                                        assert(false);
                                    }
                                },
                                LookupResult::Missing { .. } => {
                                    assert(false);
                                },
                                LookupResult::Super { .. } => {},
                            }
                        }
                        if refs_injective(ot) && root_unreferenced(ot, l0_table as int) {
                            assert(root_unreferenced(nxt, l0_table as int)) by {
                                assert forall|t2: int, i2: int|
                                    0 <= t2 < nxt.len() && 0 <= i2 < 512 && desc_is_table(
                                        #[trigger] nxt[t2][i2],
                                    ) implies crate::descriptor::desc_ppn(nxt[t2][i2])
                                    != l0_table as int by {
                                    if !(t2 == table as int && i2 == ii) {
                                        assert(nxt[t2][i2] == cur[t2][i2]);
                                    }
                                }
                            }
                            assert(lookup(cur, l0_table as int, ((svpn + k) as u64)) == lookup(
                                ot,
                                l0_table as int,
                                ((svpn + k) as u64),
                            ));
                            assert(visited_of(ot, l0_table as int, svpn, (k + 1) as u64)
                                == visited_of(ot, l0_table as int, svpn, k).push((vpn, entry)));
                            assert(invalidator.log() == pre_log.push((vpn << 12) as u64));
                            assert forall|j: u64|
                                j < k + 1 && (match lookup(
                                    ot,
                                    l0_table as int,
                                    (svpn + j) as u64,
                                ) {
                                    LookupResult::Slot { entry: ej } => desc_valid(ej),
                                    _ => false,
                                }) implies #[trigger] invalidator.log().contains(
                                (((svpn + j) as u64) << 12) as u64,
                            ) by {
                                if j < k {
                                    lemma_log_grows(
                                        pre_log,
                                        invalidator.log(),
                                        (((svpn + j) as u64) << 12) as u64,
                                    );
                                } else {
                                    assert(invalidator.log().last() == (vpn << 12) as u64);
                                }
                            }
                            assert forall|q: u64|
                                q < VPN_LIMIT && !(svpn <= q < svpn + (k + 1)) implies #[trigger] lookup(
                                nxt,
                                l0_table as int,
                                q,
                            ) == lookup(ot, l0_table as int, q) by {
                                assert(lookup(cur, l0_table as int, q) == lookup(
                                    ot,
                                    l0_table as int,
                                    q,
                                ));
                                assert forall|l: int|
                                    0 <= l <= 3 implies !(#[trigger] descend(
                                    cur,
                                    l0_table as int,
                                    0,
                                    q,
                                    l,
                                ) == Some(table as int) && vpn_index(q, l) == ii) by {
                                    if descend(cur, l0_table as int, 0, q, l) == Some(
                                        table as int,
                                    ) && vpn_index(q, l) == ii {
                                        lemma_descents_meet(cur, l0_table as int, q, l, vpn, 3);
                                        assert forall|j: int|
                                            0 <= j <= 3 implies vpn_index(q, j) == vpn_index(
                                            vpn,
                                            j,
                                        ) by {
                                            if j == 3 {
                                                assert(vpn_index(q, 3) == ii);
                                            }
                                        }
                                        lemma_indices_determine_vpn(q, vpn);
                                        assert(false);
                                    }
                                }
                                lemma_lookup_untouched_from(
                                    cur,
                                    nxt,
                                    l0_table as int,
                                    0,
                                    q,
                                    table as int,
                                    ii,
                                );
                            }
                        }
                    }
                } else {
                    proof {
                        lemma_lookup_frame_rel(ot, cur, l0_table as int, 0, vpn, |a: u64, b: u64| leaf_op_post(op, a, b));
                        crate::model::lemma_zero_desc();
                        if refs_injective(ot) && root_unreferenced(ot, l0_table as int) {
                            assert(lookup(cur, l0_table as int, ((svpn + k) as u64)) == lookup(
                                ot,
                                l0_table as int,
                                ((svpn + k) as u64),
                            ));
                            assert(visited_of(ot, l0_table as int, svpn, (k + 1) as u64)
                                == visited_of(ot, l0_table as int, svpn, k));
                        }
                    }
                }
            },
        }
        k = k + 1;
    }
    Ok(out)
}

/// Reads the bottom-level entry mapped for `va`, without modifying
/// anything: the translate-probe. Returns the entry when the page has a
/// valid one, `None` when nothing is mapped there, and `NotL3Mapped` when a
/// superpage leaf covers the page.
pub fn get_pte<M: PageTableMapper>(l0_table: usize, va: u64, mapper: &M) -> (r: Result<
    Option<PageDescriptor>,
    MapError,
>)
    requires
        (l0_table as int) < mapper.tables().len(),
        mapper.tables().len() <= usize::MAX,
        refs_closed(mapper.tables()),
    ensures
        ({
            let look = lookup(mapper.tables(), l0_table as int, vpn_of(va));
            match look {
                LookupResult::Slot { entry } => if desc_valid(entry) {
                    r == Ok::<Option<PageDescriptor>, MapError>(Some(PageDescriptor { bits: entry }))
                } else {
                    r == Ok::<Option<PageDescriptor>, MapError>(None)
                },
                LookupResult::Super { .. } => r == Err::<Option<PageDescriptor>, MapError>(
                    MapError::NotL3Mapped,
                ),
                LookupResult::Missing { .. } => r == Ok::<Option<PageDescriptor>, MapError>(None),
            }
        }),
{
    match locate(mapper, l0_table, vpn_of_va(va)) {
        LocateResult::Missing => Ok(None),
        LocateResult::Blocked => Err(MapError::NotL3Mapped),
        LocateResult::Slot { table, entry } => {
            let desc = PageDescriptor::from_raw(entry);
            if desc.is_valid() {
                Ok(Some(desc))
            } else {
                Ok(None)
            }
        },
    }
}

} // verus!
