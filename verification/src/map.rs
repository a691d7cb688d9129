//! The mapping engine: `map_range` walks and grows the hierarchy to install
//! leaf mappings for a physical/virtual region pair, preferring the largest
//! leaf-eligible level whose alignment both regions satisfy.
use vstd::prelude::*;

use crate::descriptor::{
    desc_is_leaf, desc_is_table, desc_perms, desc_ppn, desc_valid, MemoryType, PageDescriptor,
    PageTableEntry, TableMapper, PPN_LIMIT,
};
use crate::errors::MapError;
use crate::level::{index_of, pages_of_level, vpn_of_va};
use crate::model::{
    applied_perms, desc_is_mappable, lemma_chain_prefix, lemma_index_align, lemma_vpn_index_bounds,
    level_pages,
    lookup_from, only_slot_changed, refs_closed, refs_injective, resolve, valid_slots_preserved,
    vpn_index, vpn_of, LookupResult, PageMapping, VPN_LIMIT,
};
use crate::perms::PtePermissions;
use crate::pool::{PageAllocator, PageTableMapper};
use crate::tlb::TLBInvalidator;

verus! {

/// A contiguous, byte-addressed memory region; used for both physical and
/// virtual ranges.
#[derive(Clone, Copy, Debug, PartialEq, Eq, Structural)]
pub struct MemRegion {
    pub start: u64,
    pub size: u64,
}

impl MemRegion {
    /// Both the base and the size lie on page boundaries.
    pub open spec fn spec_page_aligned(self) -> bool {
        self.start % 4096 == 0 && self.size % 4096 == 0
    }

    /// A new region from its base address and byte length.
    pub fn new(start: u64, size: u64) -> (r: Self)
        ensures
            r == (MemRegion { start, size }),
    {
        MemRegion { start, size }
    }

    /// Whether base and size lie on page boundaries.
    pub fn is_page_aligned(&self) -> (r: bool)
        ensures
            r == self.spec_page_aligned(),
    {
        self.start % 4096 == 0 && self.size % 4096 == 0
    }
}

/// Everything one `map_range` call needs to know: the region pair, the
/// memory-type policy and the permissions of the new leaves.
#[derive(Clone, Copy, Debug)]
pub struct MapAttributes {
    pub phys: MemRegion,
    pub virt: MemRegion,
    pub mem_type: MemoryType,
    pub perms: PtePermissions,
}

/// The capabilities one top-level mapping operation borrows: table memory
/// that can also allocate fresh table pages, and the TLB invalidator. The
/// context never outlives the call it is passed to.
pub struct MappingContext<M, I> {
    pub mapper: M,
    pub invalidator: I,
}

/// True when something already valid stands in the way of mapping this
/// single page: a leaf (of any size) covering it, or a valid bottom-level
/// entry.
pub open spec fn page_blocked(tables: Seq<Seq<u64>>, root: int, vpn: u64) -> bool {
    match crate::model::lookup(tables, root, vpn) {
        LookupResult::Super { .. } => true,
        LookupResult::Slot { entry } => desc_valid(entry),
        LookupResult::Missing { .. } => false,
    }
}

/// The engine's eligibility test for installing a leaf at `level`: both
/// page numbers lie on the level's block boundary and the remaining length
/// covers a whole block.
pub open spec fn spec_could_map(vpn: u64, ppn: u64, remaining: u64, level: int) -> bool {
    vpn % level_pages(level) == 0 && ppn % level_pages(level) == 0 && remaining >= level_pages(
        level,
    )
}

fn could_map_at(vpn: u64, ppn: u64, remaining: u64, level: usize) -> (r: bool)
    requires
        1 <= level <= 3,
    ensures
        r == spec_could_map(vpn, ppn, remaining, level as int),
{
    let chunk = pages_of_level(level);
    vpn % chunk == 0 && ppn % chunk == 0 && remaining >= chunk
}

/// Descends one level below `table` for `vpn`, reusing an existing child
/// table, or installing a freshly allocated one over an empty slot. A valid
/// leaf in the way is a collision.
fn map_at_level<M: PageAllocator, I: TLBInvalidator>(
    table: usize,
    vpn: u64,
    level: usize,
    ctx: &mut MappingContext<M, I>,
) -> (r: Result<usize, MapError>)
    requires
        level <= 2,
        (table as int) < old(ctx).mapper.tables().len(),
        old(ctx).mapper.tables().len() < PPN_LIMIT,
        old(ctx).mapper.tables().len() <= usize::MAX,
        refs_closed(old(ctx).mapper.tables()),
    ensures
        ({
            let ot = old(ctx).mapper.tables();
            let nt = final(ctx).mapper.tables();
            let i = vpn_index(vpn, level as int);
            &&& ot.len() <= nt.len() <= ot.len() + 1
            &&& refs_closed(nt)
            &&& valid_slots_preserved(ot, nt)
            &&& (refs_injective(ot) ==> refs_injective(nt))
            &&& (forall|r0: int|
                r0 < ot.len() && crate::model::root_unreferenced(ot, r0)
                    ==> #[trigger] crate::model::root_unreferenced(nt, r0))
            &&& (forall|r0: int, q: u64|
                0 <= r0 < ot.len() ==> #[trigger] resolve(nt, r0, q) == resolve(ot, r0, q))
            &&& final(ctx).mapper.infallible() == old(ctx).mapper.infallible()
            &&& final(ctx).invalidator.log() == old(ctx).invalidator.log()
            &&& match r {
                Ok(c) => {
                    &&& (c as int) < nt.len()
                    &&& desc_is_table(nt[table as int][i])
                    &&& desc_ppn(nt[table as int][i]) == c
                    &&& only_slot_changed(ot, nt, table as int, i)
                    &&& if desc_is_table(ot[table as int][i]) {
                        nt == ot && c as int == desc_ppn(ot[table as int][i])
                    } else {
                        !desc_valid(ot[table as int][i]) && c as int == ot.len() && nt.len()
                            == ot.len() + 1 && nt[c as int] == Seq::new(512, |j: int| 0u64)
                    }
                },
                Err(e) => {
                    &&& nt == ot
                    &&& (e == MapError::NoMemory || e == MapError::AlreadyMapped)
                    &&& (e == MapError::AlreadyMapped <==> desc_is_leaf(ot[table as int][i]))
                    &&& (e == MapError::NoMemory ==> !old(ctx).mapper.infallible())
                },
            }
        }),
{
    proof {
        lemma_vpn_index_bounds(vpn, level as int);
    }
    let i = index_of(vpn, level);
    let raw = ctx.mapper.read_entry(table, i);
    let desc = PageDescriptor::from_raw(raw);
    if let Some(pa) = desc.next_table_address() {
        proof {
            assert(desc_ppn(raw) < old(ctx).mapper.tables().len());
        }
        return Ok(pa as usize);
    }
    if desc.is_valid() {
        return Err(MapError::AlreadyMapped);
    }
    let c = match ctx.mapper.allocate_page_table() {
        Ok(c) => c,
        Err(e) => {
            return Err(e);
        },
    };
    let ghost sa = ctx.mapper.tables();
    let entry = PageDescriptor::new_next_table(c as u64);
    ctx.mapper.write_entry(table, i, entry.as_raw());
    proof {
        let ot = old(ctx).mapper.tables();
        let nt = ctx.mapper.tables();
        let ii = vpn_index(vpn, level as int);
        assert(sa == ot.push(Seq::new(512, |j: int| 0u64)));
        assert(ot[table as int].len() == 512);
        assert(sa[table as int] =~= ot[table as int]);
        assert(nt == sa.update(table as int, sa[table as int].update(ii, entry.bits)));
        assert(nt[table as int][ii] == entry.bits);
        assert(nt[c as int] =~= Seq::new(512, |j: int| 0u64));
        crate::model::lemma_zero_desc();
        crate::model::lemma_resolve_after_link(ot, nt, table as int, ii, entry.bits);
        assert forall|t2: int, i2: int|
            0 <= t2 < nt.len() && 0 <= i2 < 512 && desc_is_table(
                #[trigger] nt[t2][i2],
            ) implies desc_ppn(nt[t2][i2]) < nt.len() by {
            if t2 == table as int && i2 == ii {
            } else if t2 < ot.len() {
                assert(nt[t2][i2] == ot[t2][i2]);
            } else {
                assert(nt[t2][i2] == 0u64);
            }
        }
        if refs_injective(ot) {
            assert forall|t1: int, j1: int, t2: int, j2: int|
                0 <= t1 < nt.len() && 0 <= j1 < 512 && 0 <= t2 < nt.len() && 0 <= j2 < 512
                    && desc_is_table(#[trigger] nt[t1][j1]) && desc_is_table(#[trigger] nt[t2][j2])
                    && (t1 != t2 || j1 != j2) implies desc_ppn(nt[t1][j1]) != desc_ppn(
                nt[t2][j2],
            ) by {
                if t1 >= ot.len() {
                    assert(nt[t1][j1] == 0u64);
                } else if t2 >= ot.len() {
                    assert(nt[t2][j2] == 0u64);
                } else if t1 == table as int && j1 == ii {
                    assert(desc_ppn(nt[t1][j1]) == ot.len());
                    assert(nt[t2][j2] == ot[t2][j2]);
                    assert(desc_ppn(ot[t2][j2]) < ot.len());
                } else if t2 == table as int && j2 == ii {
                    assert(desc_ppn(nt[t2][j2]) == ot.len());
                    assert(nt[t1][j1] == ot[t1][j1]);
                    assert(desc_ppn(ot[t1][j1]) < ot.len());
                } else {
                    assert(nt[t1][j1] == ot[t1][j1]);
                    assert(nt[t2][j2] == ot[t2][j2]);
                }
            }
        }
    }
    Ok(c)
}

/// Installs a leaf for `vpn -> ppn` at `level` if the level's eligibility
/// test passes; reports how many pages one leaf covered, `None` when the
/// level is not eligible, and a collision when the slot is already valid.
fn try_map_pa<M: PageAllocator, I: TLBInvalidator>(
    table: usize,
    vpn: u64,
    ppn: u64,
    remaining: u64,
    level: usize,
    mem_type: MemoryType,
    perms: PtePermissions,
    ctx: &mut MappingContext<M, I>,
) -> (r: Result<Option<u64>, MapError>)
    requires
        1 <= level <= 3,
        (table as int) < old(ctx).mapper.tables().len(),
        ppn < PPN_LIMIT,
        refs_closed(old(ctx).mapper.tables()),
    ensures
        ({
            let ot = old(ctx).mapper.tables();
            let nt = final(ctx).mapper.tables();
            let i = vpn_index(vpn, level as int);
            &&& nt.len() == ot.len()
            &&& refs_closed(nt)
            &&& valid_slots_preserved(ot, nt)
            &&& (refs_injective(ot) ==> refs_injective(nt))
            &&& (forall|r0: int|
                r0 < ot.len() && crate::model::root_unreferenced(ot, r0)
                    ==> #[trigger] crate::model::root_unreferenced(nt, r0))
            &&& final(ctx).mapper.infallible() == old(ctx).mapper.infallible()
            &&& match r {
                Ok(Some(chunk)) => {
                    &&& chunk == level_pages(level as int)
                    &&& spec_could_map(vpn, ppn, remaining, level as int)
                    &&& !desc_valid(ot[table as int][i])
                    &&& only_slot_changed(ot, nt, table as int, i)
                    &&& desc_is_leaf(nt[table as int][i])
                    &&& !desc_is_table(nt[table as int][i])
                    &&& desc_is_mappable(nt[table as int][i])
                    &&& desc_ppn(nt[table as int][i]) == ppn
                    &&& desc_perms(nt[table as int][i]) == applied_perms(perms)
                    &&& crate::descriptor::desc_is_device(nt[table as int][i]) == (mem_type
                        == MemoryType::Device)
                    &&& final(ctx).invalidator.log() == old(ctx).invalidator.log().push(
                        (vpn << 12) as u64,
                    )
                },
                Ok(None) => {
                    &&& nt == ot
                    &&& !spec_could_map(vpn, ppn, remaining, level as int)
                    &&& final(ctx).invalidator.log() == old(ctx).invalidator.log()
                },
                Err(e) => {
                    &&& nt == ot
                    &&& e == MapError::AlreadyMapped
                    &&& spec_could_map(vpn, ppn, remaining, level as int)
                    &&& desc_valid(ot[table as int][i])
                    &&& final(ctx).invalidator.log() == old(ctx).invalidator.log()
                },
            }
        }),
{
    proof {
        lemma_vpn_index_bounds(vpn, level as int);
    }
    if !could_map_at(vpn, ppn, remaining, level) {
        return Ok(None);
    }
    let i = index_of(vpn, level);
    let raw = ctx.mapper.read_entry(table, i);
    if PageDescriptor::from_raw(raw).is_valid() {
        return Err(MapError::AlreadyMapped);
    }
    let leaf = PageDescriptor::new_map_pa(ppn, mem_type, perms);
    ctx.mapper.write_entry(table, i, leaf.as_raw());
    ctx.invalidator.invalidate_page(vpn << 12);
    proof {
        let ot = old(ctx).mapper.tables();
        let nt = ctx.mapper.tables();
        let ii = vpn_index(vpn, level as int);
        assert(nt[table as int][ii] == leaf.bits);
        assert forall|t2: int, i2: int|
            0 <= t2 < nt.len() && 0 <= i2 < 512 && desc_is_table(
                #[trigger] nt[t2][i2],
            ) implies desc_ppn(nt[t2][i2]) < nt.len() by {
            if !(t2 == table as int && i2 == ii) {
                assert(nt[t2][i2] == ot[t2][i2]);
            }
        }
        if refs_injective(ot) {
            assert forall|t1: int, j1: int, t2: int, j2: int|
                0 <= t1 < nt.len() && 0 <= j1 < 512 && 0 <= t2 < nt.len() && 0 <= j2 < 512
                    && desc_is_table(#[trigger] nt[t1][j1]) && desc_is_table(#[trigger] nt[t2][j2])
                    && (t1 != t2 || j1 != j2) implies desc_ppn(nt[t1][j1]) != desc_ppn(
                nt[t2][j2],
            ) by {
                assert(!(t1 == table as int && j1 == ii));
                assert(!(t2 == table as int && j2 == ii));
                assert(nt[t1][j1] == ot[t1][j1]);
                assert(nt[t2][j2] == ot[t2][j2]);
            }
        }
    }
    Ok(Some(pages_of_level(level)))
}

/// Chains `valid_slots_preserved` across an intermediate state.
pub proof fn lemma_valid_preserved_trans(a: Seq<Seq<u64>>, b: Seq<Seq<u64>>, c: Seq<Seq<u64>>)
    requires
        valid_slots_preserved(a, b),
        valid_slots_preserved(b, c),
        a.len() <= b.len(),
    ensures
        valid_slots_preserved(a, c),
{
    assert forall|t: int, i: int|
        0 <= t < a.len() && 0 <= i < 512 && desc_valid(#[trigger] a[t][i]) implies c[t][i]
        == a[t][i] by {
        assert(b[t][i] == a[t][i]);
        assert(desc_valid(b[t][i]));
    }
}

/// A mappable leaf at the end of a known descent chain resolves every page
/// of its block to the corresponding frame of the mapped region.
///
/// The chain is given one edge at a time: `chain[l]` is the table the
/// descent reaches at level `l`, ending at `leaf_level` where the leaf sits.
proof fn lemma_install(
    nt: Seq<Seq<u64>>,
    chain: Seq<int>,
    leaf_level: int,
    vpn: u64,
    ppn: u64,
)
    requires
        1 <= leaf_level <= 3,
        chain.len() == leaf_level + 1,
        forall|l: int|
            0 <= l < leaf_level ==> desc_is_table(#[trigger] nt[chain[l]][vpn_index(vpn, l)])
                && desc_ppn(nt[chain[l]][vpn_index(vpn, l)]) == chain[l + 1],
        desc_is_mappable(nt[chain[leaf_level]][vpn_index(vpn, leaf_level)]),
        !desc_is_table(nt[chain[leaf_level]][vpn_index(vpn, leaf_level)]),
        desc_ppn(nt[chain[leaf_level]][vpn_index(vpn, leaf_level)]) == ppn,
        vpn % level_pages(leaf_level) == 0,
        vpn + level_pages(leaf_level) <= VPN_LIMIT,
    ensures
        forall|j: u64|
            j < level_pages(leaf_level) ==> #[trigger] resolve(nt, chain[0], (vpn + j) as u64)
                == Some(
                PageMapping {
                    ppn: ppn + j,
                    perms: desc_perms(nt[chain[leaf_level]][vpn_index(vpn, leaf_level)]),
                },
            ),
        forall|j: u64|
            j < level_pages(leaf_level) ==> #[trigger] crate::model::lookup(
                nt,
                chain[0],
                (vpn + j) as u64,
            ) == (if leaf_level == 3 {
                LookupResult::Slot { entry: nt[chain[leaf_level]][vpn_index(vpn, leaf_level)] }
            } else {
                LookupResult::Super {
                    level: leaf_level,
                    entry: nt[chain[leaf_level]][vpn_index(vpn, leaf_level)],
                }
            }),
{
    let e = nt[chain[leaf_level]][vpn_index(vpn, leaf_level)];
    assert forall|j: u64| j < level_pages(leaf_level) implies #[trigger] crate::model::lookup(
        nt,
        chain[0],
        (vpn + j) as u64,
    ) == (if leaf_level == 3 {
        LookupResult::Slot { entry: e }
    } else {
        LookupResult::Super { level: leaf_level, entry: e }
    }) by {
        lemma_index_align(vpn, j, leaf_level);
        let w = (vpn + j) as u64;
        assert forall|k: int|
            0 <= k < leaf_level implies desc_is_table(#[trigger] nt[chain[k]][vpn_index(w, k)])
            && desc_ppn(nt[chain[k]][vpn_index(w, k)]) == chain[k + 1] by {
            assert(vpn_index(w, k) == vpn_index(vpn, k));
            assert(desc_is_table(nt[chain[k]][vpn_index(vpn, k)]));
        }
        lemma_chain_prefix(nt, chain, leaf_level, w, leaf_level);
        assert(vpn_index(w, leaf_level) == vpn_index(vpn, leaf_level));
        assert(lookup_from(nt, chain[leaf_level], leaf_level, w) == if leaf_level == 3 {
            LookupResult::Slot { entry: e }
        } else {
            LookupResult::Super { level: leaf_level, entry: e }
        });
    }
    assert forall|j: u64| j < level_pages(leaf_level) implies #[trigger] resolve(
        nt,
        chain[0],
        (vpn + j) as u64,
    ) == Some(PageMapping { ppn: ppn + j, perms: desc_perms(e) }) by {
        lemma_index_align(vpn, j, leaf_level);
        assert(crate::model::lookup(nt, chain[0], (vpn + j) as u64) == (if leaf_level == 3 {
            LookupResult::Slot { entry: e }
        } else {
            LookupResult::Super { level: leaf_level, entry: e }
        }));
    }
}

/// After a leaf is written over the empty slot one aligned block's descent
/// ends on, every page outside the block still resolves as before — in an
/// injective, root-unreferenced hierarchy no other page's descent can
/// reach the written slot.
proof fn lemma_leaf_write_confined(
    a: Seq<Seq<u64>>,
    b: Seq<Seq<u64>>,
    root: int,
    vpn: u64,
    l: int,
    wt: int,
)
    requires
        refs_closed(a),
        refs_injective(a),
        crate::model::root_unreferenced(a, root),
        0 <= root < a.len(),
        a.len() == b.len(),
        1 <= l <= 3,
        vpn < VPN_LIMIT,
        vpn % level_pages(l) == 0,
        vpn + level_pages(l) <= VPN_LIMIT,
        0 <= wt < a.len(),
        crate::model::descend(a, root, 0, vpn, l) == Some(wt),
        only_slot_changed(a, b, wt, vpn_index(vpn, l)),
        !desc_valid(a[wt][vpn_index(vpn, l)]),
    ensures
        forall|q: u64|
            q < VPN_LIMIT && !(vpn <= q < vpn + level_pages(l)) ==> #[trigger] resolve(
                b,
                root,
                q,
            ) == resolve(a, root, q),
{
    let wi = vpn_index(vpn, l);
    crate::model::lemma_vpn_index_bounds(vpn, l);
    assert forall|q: u64| q < VPN_LIMIT && !(vpn <= q < vpn + level_pages(l)) implies #[trigger] resolve(
        b,
        root,
        q,
    ) == resolve(a, root, q) by {
        assert forall|lv: int|
            0 <= lv <= 3 implies !(#[trigger] crate::model::descend(a, root, 0, q, lv) == Some(wt)
            && vpn_index(q, lv) == wi) by {
            if crate::model::descend(a, root, 0, q, lv) == Some(wt) && vpn_index(q, lv) == wi {
                crate::model::lemma_descents_meet(a, root, q, lv, vpn, l);
                assert forall|j: int| 0 <= j <= l implies vpn_index(q, j) == vpn_index(
                    vpn,
                    j,
                ) by {
                    if j == l {
                        assert(vpn_index(q, l) == wi);
                    }
                }
                crate::model::lemma_block_of_indices(q, vpn, l);
                assert(false);
            }
        }
        crate::model::lemma_lookup_untouched_from(a, b, root, 0, q, wt, wi);
    }
}

/// Maps the largest eligible block starting at `vpn -> ppn`, descending and
/// growing the hierarchy as needed, and returns how many pages it covered.
#[verifier::rlimit(60)]
fn map_one<M: PageAllocator, I: TLBInvalidator>(
    root: usize,
    vpn: u64,
    ppn: u64,
    remaining: u64,
    mem_type: MemoryType,
    perms: PtePermissions,
    ctx: &mut MappingContext<M, I>,
) -> (r: Result<u64, MapError>)
    requires
        (root as int) < old(ctx).mapper.tables().len(),
        old(ctx).mapper.tables().len() + 3 <= PPN_LIMIT,
        old(ctx).mapper.tables().len() + 3 <= usize::MAX,
        refs_closed(old(ctx).mapper.tables()),
        1 <= remaining,
        vpn + remaining <= VPN_LIMIT,
        ppn + remaining <= PPN_LIMIT,
    ensures
        ({
            let ot = old(ctx).mapper.tables();
            let nt = final(ctx).mapper.tables();
            &&& ot.len() <= nt.len() <= ot.len() + 3
            &&& refs_closed(nt)
            &&& valid_slots_preserved(ot, nt)
            &&& (refs_injective(ot) ==> refs_injective(nt))
            &&& (forall|r0: int|
                r0 < ot.len() && crate::model::root_unreferenced(ot, r0)
                    ==> #[trigger] crate::model::root_unreferenced(nt, r0))
            &&& final(ctx).mapper.infallible() == old(ctx).mapper.infallible()
            &&& old(ctx).invalidator.log().is_prefix_of(final(ctx).invalidator.log())
            &&& match r {
                Ok(chunk) => {
                    &&& 1 <= chunk <= remaining
                    &&& vpn % chunk == 0
                    &&& forall|j: u64|
                        j < chunk ==> #[trigger] resolve(nt, root as int, (vpn + j) as u64) == Some(
                            PageMapping { ppn: ppn + j, perms: applied_perms(perms) },
                        )
                    &&& forall|j: u64|
                        j < chunk ==> #[trigger] crate::model::resolve_device(
                            nt,
                            root as int,
                            (vpn + j) as u64,
                        ) == (mem_type == MemoryType::Device)
                    &&& (chunk == 1 ==> crate::model::lookup(nt, root as int, vpn) matches
                        LookupResult::Slot { .. })
                    &&& final(ctx).invalidator.log() == old(ctx).invalidator.log().push(
                        (vpn << 12) as u64,
                    )
                },
                Err(e) => {
                    &&& (e == MapError::NoMemory || e == MapError::AlreadyMapped)
                    &&& (e == MapError::NoMemory ==> !old(ctx).mapper.infallible())
                },
            }
            &&& (r is Err ==> final(ctx).invalidator.log() == old(ctx).invalidator.log())
            &&& (r == Err::<u64, MapError>(MapError::AlreadyMapped) ==> nt == ot)
            &&& (remaining < 0x200 && r == Err::<u64, MapError>(MapError::AlreadyMapped)
                ==> page_blocked(ot, root as int, vpn))
            &&& (refs_injective(ot) && crate::model::root_unreferenced(ot, root as int)
                ==> match r {
                Ok(chunk) => forall|q: u64|
                    q < VPN_LIMIT && !(vpn <= q < vpn + chunk) ==> #[trigger] resolve(
                        nt,
                        root as int,
                        q,
                    ) == resolve(ot, root as int, q),
                Err(_) => forall|q: u64| #[trigger] resolve(nt, root as int, q) == resolve(
                    ot,
                    root as int,
                    q,
                ),
            })
            &&& (remaining == 1 && old(ctx).mapper.infallible() ==> (r is Ok <==> !page_blocked(
                ot,
                root as int,
                vpn,
            )))
        }),
{
    let ghost ot = old(ctx).mapper.tables();
    proof {
        lemma_vpn_index_bounds(vpn, 0);
        lemma_vpn_index_bounds(vpn, 1);
        lemma_vpn_index_bounds(vpn, 2);
        lemma_vpn_index_bounds(vpn, 3);
    }
    let t1 = match map_at_level(root, vpn, 0, ctx) {
        Ok(t) => t,
        Err(e) => {
            proof {
                if e == MapError::AlreadyMapped {
                    assert(lookup_from(ot, root as int, 0, vpn) matches LookupResult::Super { .. });
                }
            }
            return Err(e);
        },
    };
    let ghost s1 = ctx.mapper.tables();
    let ghost mut fresh = false;
    proof {
        if !desc_is_table(ot[root as int][vpn_index(vpn, 0)]) {
            fresh = true;
            assert(lookup_from(ot, root as int, 0, vpn) == (LookupResult::Missing { level: 0 }));
            assert(s1[t1 as int] == Seq::new(512, |j: int| 0u64));
        } else {
            assert(s1 == ot);
            assert(lookup_from(ot, root as int, 0, vpn) == lookup_from(ot, t1 as int, 1, vpn));
        }
    }
    match try_map_pa(t1, vpn, ppn, remaining, 1, mem_type, perms, ctx) {
        Ok(Some(chunk)) => {
            proof {
                let nt = ctx.mapper.tables();
                lemma_vpn_index_bounds(vpn, 0);
                lemma_vpn_index_bounds(vpn, 1);
                lemma_valid_preserved_trans(ot, s1, nt);
                assert(desc_valid(s1[root as int][vpn_index(vpn, 0)]));
                assert(nt[root as int][vpn_index(vpn, 0)] == s1[root as int][vpn_index(vpn, 0)]);
                lemma_install(nt, seq![root as int, t1 as int], 1, vpn, ppn);
                assert forall|j: u64| j < chunk implies #[trigger] crate::model::resolve_device(
                    nt,
                    root as int,
                    (vpn + j) as u64,
                ) == (mem_type == MemoryType::Device) by {
                    assert(crate::model::lookup(nt, root as int, (vpn + j) as u64)
                        == (LookupResult::Super {
                        level: 1,
                        entry: nt[t1 as int][vpn_index(vpn, 1)],
                    }));
                }
                if refs_injective(ot) && crate::model::root_unreferenced(ot, root as int) {
                    assert(crate::model::descend(s1, root as int, 0, vpn, 1)
                        == crate::model::descend(s1, t1 as int, 1, vpn, 1));
                    assert(crate::model::descend(s1, t1 as int, 1, vpn, 1) == Some(t1 as int));
                    lemma_leaf_write_confined(s1, nt, root as int, vpn, 1, t1 as int);
                    assert forall|q: u64|
                        q < VPN_LIMIT && !(vpn <= q < vpn + chunk) implies #[trigger] resolve(
                        nt,
                        root as int,
                        q,
                    ) == resolve(ot, root as int, q) by {
                        assert(resolve(s1, root as int, q) == resolve(ot, root as int, q));
                        assert(resolve(nt, root as int, q) == resolve(s1, root as int, q));
                    }
                }
            }
            return Ok(chunk);
        },
        Ok(None) => {},
        Err(e) => {
            proof {
                if e == MapError::AlreadyMapped {
                    if fresh {
                        lemma_vpn_index_bounds(vpn, 1);
                        assert(s1[t1 as int][vpn_index(vpn, 1)] == 0u64);
                        crate::model::lemma_zero_desc();
                        assert(false);
                    } else {
                        assert(ctx.mapper.tables() == ot);
                    }
                }
            }
            return Err(e);
        },
    }
    let t2 = match map_at_level(t1, vpn, 1, ctx) {
        Ok(t) => t,
        Err(e) => {
            proof {
                lemma_valid_preserved_trans(ot, s1, ctx.mapper.tables());
                if e == MapError::AlreadyMapped {
                    if fresh {
                        assert(s1[t1 as int][vpn_index(vpn, 1)] == 0u64);
                        crate::model::lemma_zero_desc();
                        assert(false);
                    } else {
                        assert(lookup_from(ot, t1 as int, 1, vpn) matches LookupResult::Super {
                            ..
                        });
                        assert(page_blocked(ot, root as int, vpn));
                    }
                }
            }
            return Err(e);
        },
    };
    let ghost s2 = ctx.mapper.tables();
    proof {
        lemma_valid_preserved_trans(ot, s1, s2);
        if fresh {
            assert(s1[t1 as int][vpn_index(vpn, 1)] == 0u64);
            crate::model::lemma_zero_desc();
            assert(s2[t2 as int] == Seq::new(512, |j: int| 0u64));
        } else {
            if !desc_is_table(ot[t1 as int][vpn_index(vpn, 1)]) {
                fresh = true;
                assert(lookup_from(ot, t1 as int, 1, vpn) == (LookupResult::Missing { level: 1 }));
                assert(s2[t2 as int] == Seq::new(512, |j: int| 0u64));
            } else {
                assert(s2 == ot);
                assert(lookup_from(ot, t1 as int, 1, vpn) == lookup_from(ot, t2 as int, 2, vpn));
            }
        }
    }
    match try_map_pa(t2, vpn, ppn, remaining, 2, mem_type, perms, ctx) {
        Ok(Some(chunk)) => {
            proof {
                let nt = ctx.mapper.tables();
                lemma_vpn_index_bounds(vpn, 0);
                lemma_vpn_index_bounds(vpn, 1);
                lemma_valid_preserved_trans(ot, s2, nt);
                assert(valid_slots_preserved(s1, nt)) by {
                    lemma_valid_preserved_trans(s1, s2, nt);
                }
                assert(desc_valid(s1[root as int][vpn_index(vpn, 0)]));
                assert(desc_valid(s2[t1 as int][vpn_index(vpn, 1)]));
                assert(nt[root as int][vpn_index(vpn, 0)] == s1[root as int][vpn_index(vpn, 0)]);
                assert(nt[t1 as int][vpn_index(vpn, 1)] == s2[t1 as int][vpn_index(vpn, 1)]);
                lemma_install(nt, seq![root as int, t1 as int, t2 as int], 2, vpn, ppn);
                lemma_vpn_index_bounds(vpn, 2);
                assert forall|j: u64| j < chunk implies #[trigger] crate::model::resolve_device(
                    nt,
                    root as int,
                    (vpn + j) as u64,
                ) == (mem_type == MemoryType::Device) by {
                    assert(crate::model::lookup(nt, root as int, (vpn + j) as u64)
                        == (LookupResult::Super {
                        level: 2,
                        entry: nt[t2 as int][vpn_index(vpn, 2)],
                    }));
                }
                if refs_injective(ot) && crate::model::root_unreferenced(ot, root as int) {
                    assert(s2[root as int][vpn_index(vpn, 0)] == s1[root as int][vpn_index(
                        vpn,
                        0,
                    )]);
                    assert(crate::model::descend(s2, root as int, 0, vpn, 2)
                        == crate::model::descend(s2, t1 as int, 1, vpn, 2));
                    assert(crate::model::descend(s2, t1 as int, 1, vpn, 2)
                        == crate::model::descend(s2, t2 as int, 2, vpn, 2));
                    assert(crate::model::descend(s2, t2 as int, 2, vpn, 2) == Some(t2 as int));
                    lemma_leaf_write_confined(s2, nt, root as int, vpn, 2, t2 as int);
                    assert forall|q: u64|
                        q < VPN_LIMIT && !(vpn <= q < vpn + chunk) implies #[trigger] resolve(
                        nt,
                        root as int,
                        q,
                    ) == resolve(ot, root as int, q) by {
                        assert(resolve(s1, root as int, q) == resolve(ot, root as int, q));
                        assert(resolve(s2, root as int, q) == resolve(s1, root as int, q));
                        assert(resolve(nt, root as int, q) == resolve(s2, root as int, q));
                    }
                }
            }
            return Ok(chunk);
        },
        Ok(None) => {},
        Err(e) => {
            proof {
                lemma_valid_preserved_trans(ot, s2, ctx.mapper.tables());
                if e == MapError::AlreadyMapped {
                    if fresh {
                        lemma_vpn_index_bounds(vpn, 2);
                        assert(s2[t2 as int][vpn_index(vpn, 2)] == 0u64);
                        crate::model::lemma_zero_desc();
                        assert(false);
                    } else {
                        assert(ctx.mapper.tables() == ot);
                    }
                }
            }
            return Err(e);
        },
    }
    let t3 = match map_at_level(t2, vpn, 2, ctx) {
        Ok(t) => t,
        Err(e) => {
            proof {
                lemma_valid_preserved_trans(ot, s2, ctx.mapper.tables());
                if e == MapError::AlreadyMapped {
                    if fresh {
                        assert(s2[t2 as int][vpn_index(vpn, 2)] == 0u64);
                        crate::model::lemma_zero_desc();
                        assert(false);
                    } else {
                        assert(lookup_from(ot, t2 as int, 2, vpn) matches LookupResult::Super {
                            ..
                        });
                        assert(page_blocked(ot, root as int, vpn));
                    }
                }
            }
            return Err(e);
        },
    };
    let ghost s3 = ctx.mapper.tables();
    proof {
        lemma_valid_preserved_trans(ot, s2, s3);
        if fresh {
            assert(s2[t2 as int][vpn_index(vpn, 2)] == 0u64);
            crate::model::lemma_zero_desc();
            assert(s3[t3 as int] == Seq::new(512, |j: int| 0u64));
        } else {
            if !desc_is_table(ot[t2 as int][vpn_index(vpn, 2)]) {
                fresh = true;
                assert(lookup_from(ot, t2 as int, 2, vpn) == (LookupResult::Missing { level: 2 }));
                assert(s3[t3 as int] == Seq::new(512, |j: int| 0u64));
            } else {
                assert(s3 == ot);
                assert(lookup_from(ot, t2 as int, 2, vpn) == lookup_from(ot, t3 as int, 3, vpn));
                assert(lookup_from(ot, t3 as int, 3, vpn) == (LookupResult::Slot {
                    entry: ot[t3 as int][vpn_index(vpn, 3)],
                }));
            }
        }
    }
    match try_map_pa(t3, vpn, ppn, remaining, 3, mem_type, perms, ctx) {
        Ok(Some(chunk)) => {
            proof {
                let nt = ctx.mapper.tables();
                lemma_vpn_index_bounds(vpn, 0);
                lemma_vpn_index_bounds(vpn, 1);
                lemma_vpn_index_bounds(vpn, 2);
                lemma_valid_preserved_trans(ot, s3, nt);
                assert(valid_slots_preserved(s1, nt)) by {
                    lemma_valid_preserved_trans(s1, s2, s3);
                    lemma_valid_preserved_trans(s1, s3, nt);
                }
                assert(valid_slots_preserved(s2, nt)) by {
                    lemma_valid_preserved_trans(s2, s3, nt);
                }
                assert(desc_valid(s1[root as int][vpn_index(vpn, 0)]));
                assert(desc_valid(s2[t1 as int][vpn_index(vpn, 1)]));
                assert(desc_valid(s3[t2 as int][vpn_index(vpn, 2)]));
                assert(nt[root as int][vpn_index(vpn, 0)] == s1[root as int][vpn_index(vpn, 0)]);
                assert(nt[t1 as int][vpn_index(vpn, 1)] == s2[t1 as int][vpn_index(vpn, 1)]);
                assert(nt[t2 as int][vpn_index(vpn, 2)] == s3[t2 as int][vpn_index(vpn, 2)]);
                assert(vpn % 1 == 0) by (bit_vector);
                lemma_install(nt, seq![root as int, t1 as int, t2 as int, t3 as int], 3, vpn, ppn);
                assert(crate::model::lookup(nt, root as int, ((vpn + 0) as u64))
                    == (LookupResult::Slot { entry: nt[t3 as int][vpn_index(vpn, 3)] }));
                assert forall|j: u64| j < chunk implies #[trigger] crate::model::resolve_device(
                    nt,
                    root as int,
                    (vpn + j) as u64,
                ) == (mem_type == MemoryType::Device) by {
                    assert(crate::model::lookup(nt, root as int, (vpn + j) as u64)
                        == (LookupResult::Slot { entry: nt[t3 as int][vpn_index(vpn, 3)] }));
                }
                if fresh {
                    assert(!page_blocked(ot, root as int, vpn));
                } else {
                    assert(!desc_valid(s3[t3 as int][vpn_index(vpn, 3)]));
                    assert(!page_blocked(ot, root as int, vpn));
                }
                if refs_injective(ot) && crate::model::root_unreferenced(ot, root as int) {
                    assert(s3[root as int][vpn_index(vpn, 0)] == s1[root as int][vpn_index(
                        vpn,
                        0,
                    )]);
                    assert(s3[t1 as int][vpn_index(vpn, 1)] == s2[t1 as int][vpn_index(vpn, 1)]);
                    assert(crate::model::descend(s3, root as int, 0, vpn, 3)
                        == crate::model::descend(s3, t1 as int, 1, vpn, 3));
                    assert(crate::model::descend(s3, t1 as int, 1, vpn, 3)
                        == crate::model::descend(s3, t2 as int, 2, vpn, 3));
                    assert(crate::model::descend(s3, t2 as int, 2, vpn, 3)
                        == crate::model::descend(s3, t3 as int, 3, vpn, 3));
                    assert(crate::model::descend(s3, t3 as int, 3, vpn, 3) == Some(t3 as int));
                    lemma_leaf_write_confined(s3, nt, root as int, vpn, 3, t3 as int);
                    assert forall|q: u64|
                        q < VPN_LIMIT && !(vpn <= q < vpn + chunk) implies #[trigger] resolve(
                        nt,
                        root as int,
                        q,
                    ) == resolve(ot, root as int, q) by {
                        assert(resolve(s1, root as int, q) == resolve(ot, root as int, q));
                        assert(resolve(s2, root as int, q) == resolve(s1, root as int, q));
                        assert(resolve(s3, root as int, q) == resolve(s2, root as int, q));
                        assert(resolve(nt, root as int, q) == resolve(s3, root as int, q));
                    }
                }
            }
            return Ok(chunk);
        },
        Ok(None) => {
            proof {
                assert(vpn % 1 == 0 && ppn % 1 == 0) by (bit_vector);
                assert(false);
            }
            return Err(MapError::NotL3Mapped);
        },
        Err(e) => {
            proof {
                lemma_valid_preserved_trans(ot, s3, ctx.mapper.tables());
                if fresh {
                    assert(s3[t3 as int][vpn_index(vpn, 3)] == 0u64);
                    crate::model::lemma_zero_desc();
                    assert(false);
                } else {
                    assert(desc_valid(ot[t3 as int][vpn_index(vpn, 3)]));
                    assert(ctx.mapper.tables() == ot);
                    assert(page_blocked(ot, root as int, vpn));
                }
            }
            return Err(e);
        },
    }
}

/// Installs every mapping for the region pair in `attrs`, trying the
/// largest leaf-eligible level first at every step.
///
/// The design's preconditions are enforced as errors, reported before
/// anything is touched: the regions must have equal sizes, be at least one
/// page long, and both be page-aligned. On success every page of the
/// virtual region resolves to its page of the physical region with the
/// requested permissions and memory type, and a flush was requested for
/// the start of every installed leaf — never for anything outside the
/// region. Whatever the outcome, existing mappings are never disturbed:
/// writes go only to non-valid slots, so everything that resolved before
/// still resolves to the same frame and permissions — there is no rollback
/// of work already done, and a valid entry in the way is reported as
/// `AlreadyMapped`. In an injective, root-unreferenced hierarchy the
/// engine's effect is confined: every page outside the requested region
/// resolves exactly as before.
pub fn map_range<M: PageAllocator, I: TLBInvalidator>(
    l0_table: usize,
    attrs: MapAttributes,
    ctx: &mut MappingContext<M, I>,
) -> (r: Result<(), MapError>)
    requires
        (l0_table as int) < old(ctx).mapper.tables().len(),
        old(ctx).mapper.tables().len() + 3 * (attrs.virt.size / 4096) <= PPN_LIMIT,
        old(ctx).mapper.tables().len() + 3 * (attrs.virt.size / 4096) <= usize::MAX,
        refs_closed(old(ctx).mapper.tables()),
        vpn_of(attrs.virt.start) + attrs.virt.size / 4096 <= VPN_LIMIT,
        attrs.phys.start / 4096 + attrs.virt.size / 4096 <= PPN_LIMIT,
    ensures
        ({
            let ot = old(ctx).mapper.tables();
            let nt = final(ctx).mapper.tables();
            let pages = attrs.virt.size / 4096;
            let svpn = vpn_of(attrs.virt.start);
            let sppn = attrs.phys.start / 4096;
            &&& ot.len() <= nt.len() <= ot.len() + 3 * pages
            &&& refs_closed(nt)
            &&& valid_slots_preserved(ot, nt)
            &&& (refs_injective(ot) ==> refs_injective(nt))
            &&& (forall|r0: int|
                r0 < ot.len() && crate::model::root_unreferenced(ot, r0)
                    ==> #[trigger] crate::model::root_unreferenced(nt, r0))
            &&& final(ctx).mapper.infallible() == old(ctx).mapper.infallible()
            &&& old(ctx).invalidator.log().is_prefix_of(final(ctx).invalidator.log())
            &&& (r == Err::<(), MapError>(MapError::SizeMismatch) <==> attrs.phys.size
                != attrs.virt.size)
            &&& (r == Err::<(), MapError>(MapError::TooSmall) <==> attrs.phys.size
                == attrs.virt.size && attrs.phys.size < 4096)
            &&& (r == Err::<(), MapError>(MapError::PhysNotAligned) <==> attrs.phys.size
                == attrs.virt.size && attrs.phys.size >= 4096 && !attrs.phys.spec_page_aligned())
            &&& (r == Err::<(), MapError>(MapError::VirtNotAligned) <==> attrs.phys.size
                == attrs.virt.size && attrs.phys.size >= 4096 && attrs.phys.spec_page_aligned()
                && !attrs.virt.spec_page_aligned())
            &&& ((r == Err::<(), MapError>(MapError::SizeMismatch) || r == Err::<(), MapError>(
                MapError::TooSmall,
            ) || r == Err::<(), MapError>(MapError::PhysNotAligned) || r == Err::<(), MapError>(
                MapError::VirtNotAligned,
            )) ==> nt == ot && final(ctx).invalidator.log() == old(ctx).invalidator.log())
            &&& (r == Err::<(), MapError>(MapError::NoMemory) ==> !old(ctx).mapper.infallible())
            &&& (r is Err ==> r == Err::<(), MapError>(MapError::SizeMismatch) || r == Err::<
                (),
                MapError,
            >(MapError::TooSmall) || r == Err::<(), MapError>(MapError::PhysNotAligned) || r
                == Err::<(), MapError>(MapError::VirtNotAligned) || r == Err::<(), MapError>(
                MapError::NoMemory,
            ) || r == Err::<(), MapError>(MapError::AlreadyMapped))
            &&& (r is Ok ==> forall|k: u64|
                k < pages ==> #[trigger] resolve(nt, l0_table as int, (svpn + k) as u64) == Some(
                    PageMapping { ppn: sppn + k, perms: applied_perms(attrs.perms) },
                ))
            &&& (r is Ok ==> forall|k: u64|
                k < pages ==> #[trigger] crate::model::resolve_device(
                    nt,
                    l0_table as int,
                    (svpn + k) as u64,
                ) == (attrs.mem_type == MemoryType::Device))
            &&& (forall|j: int|
                old(ctx).invalidator.log().len() <= j < final(ctx).invalidator.log().len()
                    ==> svpn <= vpn_of(#[trigger] final(ctx).invalidator.log()[j]) < svpn + pages)
            &&& (attrs.phys.size == attrs.virt.size && attrs.phys.size >= 4096
                && attrs.phys.spec_page_aligned() && attrs.virt.spec_page_aligned() && pages
                < 0x200 && r == Err::<(), MapError>(MapError::AlreadyMapped) ==> exists|p: u64|
                p < pages && (forall|k: u64|
                    k < p ==> #[trigger] resolve(nt, l0_table as int, (svpn + k) as u64) == Some(
                        PageMapping { ppn: sppn + k, perms: applied_perms(attrs.perms) },
                    )) && #[trigger] page_blocked(nt, l0_table as int, ((svpn + p) as u64)))
            &&& forall|q: u64|
                resolve(ot, l0_table as int, q) is Some ==> #[trigger] resolve(
                    nt,
                    l0_table as int,
                    q,
                ) == resolve(ot, l0_table as int, q)
            &&& (refs_injective(ot) && crate::model::root_unreferenced(ot, l0_table as int)
                ==> forall|q: u64|
                q < VPN_LIMIT && !(svpn <= q < svpn + pages) ==> #[trigger] resolve(
                    nt,
                    l0_table as int,
                    q,
                ) == resolve(ot, l0_table as int, q))
            &&& (attrs.virt.size == 4096 && attrs.phys.size == 4096
                && attrs.phys.spec_page_aligned() && attrs.virt.spec_page_aligned() ==> {
                &&& (old(ctx).mapper.infallible() ==> (r is Ok <==> !page_blocked(
                    ot,
                    l0_table as int,
                    svpn,
                )))
                &&& (r is Ok ==> (crate::model::lookup(nt, l0_table as int, svpn) matches
                    LookupResult::Slot { .. })
                    && final(ctx).invalidator.log() == old(ctx).invalidator.log().push(
                    (svpn << 12) as u64,
                ))
                &&& (r == Err::<(), MapError>(MapError::AlreadyMapped) ==> nt == ot
                    && final(ctx).invalidator.log() == old(ctx).invalidator.log() && page_blocked(
                    ot,
                    l0_table as int,
                    svpn,
                ))
            })
        }),
{
    if attrs.phys.size != attrs.virt.size {
        return Err(MapError::SizeMismatch);
    }
    if attrs.phys.size < 4096 {
        return Err(MapError::TooSmall);
    }
    if !attrs.phys.is_page_aligned() {
        return Err(MapError::PhysNotAligned);
    }
    if !attrs.virt.is_page_aligned() {
        return Err(MapError::VirtNotAligned);
    }
    let pages: u64 = attrs.virt.size / 4096;
    let svpn: u64 = vpn_of_va(attrs.virt.start);
    let sppn: u64 = attrs.phys.start / 4096;
    let mut off: u64 = 0;
    let ghost ot = old(ctx).mapper.tables();
    while off < pages
        invariant
            off <= pages,
            ot == old(ctx).mapper.tables(),
            attrs.phys.size == attrs.virt.size,
            attrs.phys.size >= 4096,
            attrs.phys.spec_page_aligned(),
            attrs.virt.spec_page_aligned(),
            pages == attrs.virt.size / 4096,
            svpn == vpn_of(attrs.virt.start),
            sppn == attrs.phys.start / 4096,
            refs_closed(ot),
            (l0_table as int) < ot.len(),
            (l0_table as int) < ctx.mapper.tables().len(),
            svpn + pages <= VPN_LIMIT,
            sppn + pages <= PPN_LIMIT,
            ot.len() + 3 * pages <= PPN_LIMIT,
            ot.len() + 3 * pages <= usize::MAX,
            ot.len() <= ctx.mapper.tables().len() <= ot.len() + 3 * off,
            refs_closed(ctx.mapper.tables()),
            valid_slots_preserved(ot, ctx.mapper.tables()),
            refs_injective(ot) ==> refs_injective(ctx.mapper.tables()),
            forall|r0: int|
                r0 < ot.len() && crate::model::root_unreferenced(ot, r0)
                    ==> #[trigger] crate::model::root_unreferenced(ctx.mapper.tables(), r0),
            refs_injective(ot) && crate::model::root_unreferenced(ot, l0_table as int)
                ==> forall|q: u64|
                q < VPN_LIMIT && !(svpn <= q < svpn + pages) ==> #[trigger] resolve(
                    ctx.mapper.tables(),
                    l0_table as int,
                    q,
                ) == resolve(ot, l0_table as int, q),
            ctx.mapper.infallible() == old(ctx).mapper.infallible(),
            old(ctx).invalidator.log().is_prefix_of(ctx.invalidator.log()),
            forall|k: u64|
                k < off ==> #[trigger] resolve(
                    ctx.mapper.tables(),
                    l0_table as int,
                    (svpn + k) as u64,
                ) == Some(PageMapping { ppn: sppn + k, perms: applied_perms(attrs.perms) }),
            forall|k: u64|
                k < off ==> #[trigger] crate::model::resolve_device(
                    ctx.mapper.tables(),
                    l0_table as int,
                    (svpn + k) as u64,
                ) == (attrs.mem_type == MemoryType::Device),
            forall|j: int|
                old(ctx).invalidator.log().len() <= j < ctx.invalidator.log().len() ==> svpn
                    <= vpn_of(#[trigger] ctx.invalidator.log()[j]) < svpn + pages,
            off == 0 ==> ctx.mapper.tables() == ot,
            off == 0 ==> ctx.invalidator.log() == old(ctx).invalidator.log(),
            pages == 1 && off == 1 ==> (old(ctx).mapper.infallible() ==> !page_blocked(
                ot,
                l0_table as int,
                svpn,
            )),
            pages == 1 && off == 1 ==> (crate::model::lookup(
                ctx.mapper.tables(),
                l0_table as int,
                svpn,
            ) matches LookupResult::Slot { .. }) && ctx.invalidator.log() == old(
                ctx,
            ).invalidator.log().push((svpn << 12) as u64),
        decreases pages - off,
    {
        let ghost pre = ctx.mapper.tables();
        let chunk = match map_one(
            l0_table,
            svpn + off,
            sppn + off,
            pages - off,
            attrs.mem_type,
            attrs.perms,
            ctx,
        ) {
            Ok(c) => c,
            Err(e) => {
                proof {
                    lemma_valid_preserved_trans(ot, pre, ctx.mapper.tables());
                    assert forall|q: u64|
                        resolve(ot, l0_table as int, q) is Some implies #[trigger] resolve(
                        ctx.mapper.tables(),
                        l0_table as int,
                        q,
                    ) == resolve(ot, l0_table as int, q) by {
                        crate::model::lemma_resolve_preserved(
                            ot,
                            ctx.mapper.tables(),
                            l0_table as int,
                            q,
                        );
                    }
                    if e == MapError::AlreadyMapped && pages < 0x200 {
                        let nt = ctx.mapper.tables();
                        assert(nt == pre);
                        assert(page_blocked(nt, l0_table as int, ((svpn + off) as u64)));
                        assert(off < pages && (forall|k: u64|
                            k < off ==> #[trigger] resolve(nt, l0_table as int, (svpn + k) as u64)
                                == Some(
                                PageMapping {
                                    ppn: sppn + k,
                                    perms: applied_perms(attrs.perms),
                                },
                            )) && #[trigger] page_blocked(
                            nt,
                            l0_table as int,
                            ((svpn + off) as u64),
                        ));
                    }
                }
                return Err(e);
            },
        };
        proof {
            let now = ctx.mapper.tables();
            lemma_valid_preserved_trans(ot, pre, now);
            assert forall|k: u64| k < off + chunk implies #[trigger] resolve(
                now,
                l0_table as int,
                (svpn + k) as u64,
            ) == Some(PageMapping { ppn: sppn + k, perms: applied_perms(attrs.perms) }) by {
                if k < off {
                    crate::model::lemma_resolve_preserved(
                        pre,
                        now,
                        l0_table as int,
                        (svpn + k) as u64,
                    );
                } else {
                    let j = (k - off) as u64;
                    assert(resolve(now, l0_table as int, (svpn + off + j) as u64) == Some(
                        PageMapping { ppn: sppn + off + j, perms: applied_perms(attrs.perms) },
                    ));
                }
            }
            assert forall|k: u64| k < off + chunk implies #[trigger] crate::model::resolve_device(
                now,
                l0_table as int,
                (svpn + k) as u64,
            ) == (attrs.mem_type == MemoryType::Device) by {
                let w = (svpn + k) as u64;
                if k < off {
                    assert(resolve(pre, l0_table as int, w) == Some(
                        PageMapping { ppn: sppn + k, perms: applied_perms(attrs.perms) },
                    ));
                    assert(crate::model::resolve_device(pre, l0_table as int, w) == (attrs.mem_type
                        == MemoryType::Device));
                    crate::model::lemma_lookup_preserved(pre, now, l0_table as int, 0, w);
                    match crate::model::lookup(pre, l0_table as int, w) {
                        LookupResult::Slot { entry } => {
                            assert(desc_valid(entry));
                            assert(crate::model::lookup(now, l0_table as int, w)
                                == crate::model::lookup(pre, l0_table as int, w));
                        },
                        LookupResult::Super { .. } => {
                            assert(crate::model::lookup(now, l0_table as int, w)
                                == crate::model::lookup(pre, l0_table as int, w));
                        },
                        LookupResult::Missing { .. } => {
                            assert(false);
                        },
                    }
                } else {
                    let j = (k - off) as u64;
                    assert(crate::model::resolve_device(
                        now,
                        l0_table as int,
                        (svpn + off + j) as u64,
                    ) == (attrs.mem_type == MemoryType::Device));
                }
            }
            let v = ((svpn + off) as u64);
            assert(vpn_of((v << 12) as u64) == v) by (bit_vector)
                requires
                    v < 0x10_0000_0000u64,
            ;
        }
        off = off + chunk;
    }
    proof {
        assert forall|q: u64|
            resolve(ot, l0_table as int, q) is Some implies #[trigger] resolve(
            ctx.mapper.tables(),
            l0_table as int,
            q,
        ) == resolve(ot, l0_table as int, q) by {
            crate::model::lemma_resolve_preserved(
                ot,
                ctx.mapper.tables(),
                l0_table as int,
                q,
            );
        }
    }
    Ok(())
}

} // verus!
