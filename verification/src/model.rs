//! Mathematical model of a table hierarchy: what a walk of the stored
//! descriptors resolves a virtual page to.
//!
//! The model works on the arena view (`Seq<Seq<u64>>`, one row of 512 raw
//! descriptors per table page) and on virtual page numbers: the 36 index
//! bits of an Sv48 virtual address, nine per level, most significant level
//! first.
use vstd::prelude::*;

use crate::descriptor::{desc_is_table, desc_perms, desc_ppn, desc_valid};
use crate::perms::PtePermissions;

verus! {

/// First virtual page number that no longer fits four 9-bit indices.
pub const VPN_LIMIT: u64 = 0x10_0000_0000;

/// The virtual page number of the page holding `va`: its 36 Sv48 index
/// bits. High bits beyond the translated range (the sign-extension bits of a
/// kernel address) do not take part in the walk.
pub open spec fn vpn_of(va: u64) -> u64 {
    (va >> 12) & 0xf_ffff_ffff
}

/// Shift that brings a level's 9-bit index field to the bottom of a virtual
/// page number.
pub open spec fn level_shift(level: int) -> u64 {
    (27 - 9 * level) as u64
}

/// This level's index into its table, for the given virtual page number.
pub open spec fn vpn_index(vpn: u64, level: int) -> int {
    ((vpn >> level_shift(level)) & 0x1ff) as int
}

/// Number of smallest pages covered by one entry at this level.
pub open spec fn level_pages(level: int) -> u64 {
    if level <= 0 {
        0x800_0000
    } else if level == 1 {
        0x4_0000
    } else if level == 2 {
        0x200
    } else {
        1
    }
}

/// True when the entry maps accessible memory: valid with read or execute
/// granted.
pub open spec fn desc_is_mappable(d: u64) -> bool {
    desc_valid(d) && (d & 2 != 0 || d & 8 != 0)
}

/// Where a descent for one virtual page number ends.
pub enum LookupResult {
    /// A non-valid entry stopped the descent above the bottom level.
    Missing { level: int },
    /// A valid leaf above the bottom level covers the page: a superpage.
    Super { level: int, entry: u64 },
    /// The descent reached a bottom-level slot; its raw value may itself be
    /// invalid, swapped or a valid leaf.
    Slot { entry: u64 },
}

/// Descends the hierarchy from the table in frame `t` at `level`, following
/// table entries, until a leaf, an empty entry or the bottom level ends the
/// walk.
pub open spec fn lookup_from(tables: Seq<Seq<u64>>, t: int, level: int, vpn: u64) -> LookupResult
    decreases 3 - level,
{
    let e = tables[t][vpn_index(vpn, level)];
    if level >= 3 {
        LookupResult::Slot { entry: e }
    } else if desc_is_table(e) {
        lookup_from(tables, desc_ppn(e) as int, level + 1, vpn)
    } else if desc_valid(e) {
        LookupResult::Super { level, entry: e }
    } else {
        LookupResult::Missing { level }
    }
}

/// Descent from the root of a hierarchy.
pub open spec fn lookup(tables: Seq<Seq<u64>>, root: int, vpn: u64) -> LookupResult {
    lookup_from(tables, root, 0, vpn)
}

/// What one virtual page is mapped to.
pub struct PageMapping {
    pub ppn: int,
    pub perms: PtePermissions,
}

/// The frame and permissions a hardware walk would grant the virtual page,
/// or `None` when nothing accessible is mapped there. A superpage entry at
/// level `l` maps a whole aligned block, so the page's offset inside the
/// block carries over to the frame.
pub open spec fn resolve(tables: Seq<Seq<u64>>, root: int, vpn: u64) -> Option<PageMapping> {
    match lookup(tables, root, vpn) {
        LookupResult::Slot { entry } => if desc_is_mappable(entry) {
            Some(PageMapping { ppn: desc_ppn(entry) as int, perms: desc_perms(entry) })
        } else {
            None
        },
        LookupResult::Super { level, entry } => if desc_is_mappable(entry) {
            Some(
                PageMapping {
                    ppn: desc_ppn(entry) + vpn as int % level_pages(level) as int,
                    perms: desc_perms(entry),
                },
            )
        } else {
            None
        },
        LookupResult::Missing { .. } => None,
    }
}

/// Whether the entry a page's descent ends on requests device (strongly
/// ordered, non-cacheable) attributes; `false` where nothing is mapped.
pub open spec fn resolve_device(tables: Seq<Seq<u64>>, root: int, vpn: u64) -> bool {
    match lookup(tables, root, vpn) {
        LookupResult::Slot { entry } => crate::descriptor::desc_is_device(entry),
        LookupResult::Super { level, entry } => crate::descriptor::desc_is_device(entry),
        LookupResult::Missing { .. } => false,
    }
}

/// The permissions a leaf built from the request `p` actually carries: read
/// access is always granted, the rest follows the request.
pub open spec fn applied_perms(p: PtePermissions) -> PtePermissions {
    PtePermissions { read: true, write: p.write, execute: p.execute, user: p.user, cow: p.cow }
}

/// Every row of the arena view holds exactly 512 descriptors.
pub open spec fn tables_wf(tables: Seq<Seq<u64>>) -> bool {
    forall|t: int| 0 <= t < tables.len() ==> (#[trigger] tables[t]).len() == 512
}

/// `b` differs from `a` at most in slot `(t, i)` (and in rows `a` did not
/// have).
pub open spec fn only_slot_changed(a: Seq<Seq<u64>>, b: Seq<Seq<u64>>, t: int, i: int) -> bool {
    forall|t2: int, i2: int|
        0 <= t2 < a.len() && 0 <= i2 < 512 && !(t2 == t && i2 == i) ==> #[trigger] b[t2][i2]
            == a[t2][i2]
}

/// Every table entry stored anywhere in the arena names a table page that
/// the arena actually holds.
pub open spec fn refs_closed(tables: Seq<Seq<u64>>) -> bool {
    forall|t: int, i: int|
        0 <= t < tables.len() && 0 <= i < 512 && desc_is_table(#[trigger] tables[t][i])
            ==> desc_ppn(tables[t][i]) < tables.len()
}

/// `b` evolved from `a` without disturbing any valid entry: the arena only
/// grew, and writes went to empty or swapped slots.
pub open spec fn valid_slots_preserved(a: Seq<Seq<u64>>, b: Seq<Seq<u64>>) -> bool {
    forall|t: int, i: int|
        0 <= t < a.len() && 0 <= i < 512 && desc_valid(#[trigger] a[t][i]) ==> b[t][i] == a[t][i]
}

/// No two table entries anywhere in the arena name the same child table:
/// the hierarchy is a forest, with no table page shared between parents.
pub open spec fn refs_injective(tables: Seq<Seq<u64>>) -> bool {
    forall|t1: int, i1: int, t2: int, i2: int|
        0 <= t1 < tables.len() && 0 <= i1 < 512 && 0 <= t2 < tables.len() && 0 <= i2 < 512
            && desc_is_table(#[trigger] tables[t1][i1]) && desc_is_table(#[trigger] tables[t2][i2])
            && (t1 != t2 || i1 != i2) ==> desc_ppn(tables[t1][i1]) != desc_ppn(tables[t2][i2])
}

/// No table entry anywhere in the arena names the root itself: together
/// with `refs_injective` this makes descents from the root revisit-free, so
/// two different pages never share a bottom-level slot.
pub open spec fn root_unreferenced(tables: Seq<Seq<u64>>, root: int) -> bool {
    forall|t: int, i: int|
        0 <= t < tables.len() && 0 <= i < 512 && desc_is_table(#[trigger] tables[t][i])
            ==> desc_ppn(tables[t][i]) != root
}

/// The table a descent from `t` at `level` has reached by `to`, following
/// only table entries.
pub open spec fn descend(tables: Seq<Seq<u64>>, t: int, level: int, vpn: u64, to: int) -> Option<
    int,
>
    decreases to - level,
{
    if level >= to {
        Some(t)
    } else {
        let e = tables[t][vpn_index(vpn, level)];
        if desc_is_table(e) {
            descend(tables, desc_ppn(e) as int, level + 1, vpn, to)
        } else {
            None
        }
    }
}

/// One step back along a descent: the table reached at `to` is named by a
/// table entry of the table reached at `to - 1`.
pub proof fn lemma_descend_step(tables: Seq<Seq<u64>>, t: int, level: int, vpn: u64, to: int)
    requires
        level < to,
        descend(tables, t, level, vpn, to) is Some,
    ensures
        match descend(tables, t, level, vpn, to - 1) {
            Some(y) => desc_is_table(tables[y][vpn_index(vpn, to - 1)]) && desc_ppn(
                tables[y][vpn_index(vpn, to - 1)],
            ) == descend(tables, t, level, vpn, to)->Some_0,
            None => false,
        },
    decreases to - level,
{
    let e = tables[t][vpn_index(vpn, level)];
    assert(desc_is_table(e));
    let c = desc_ppn(e) as int;
    if level + 1 < to {
        lemma_descend_step(tables, c, level + 1, vpn, to);
        assert(descend(tables, t, level, vpn, to - 1) == descend(tables, c, level + 1, vpn, to
            - 1));
        assert(descend(tables, t, level, vpn, to) == descend(tables, c, level + 1, vpn, to));
    } else {
        assert(descend(tables, t, level, vpn, to - 1) == Some(t));
        assert(descend(tables, t, level, vpn, to) == descend(tables, c, level + 1, vpn, to));
        assert(descend(tables, c, level + 1, vpn, to) == Some(c));
    }
}

/// Descents from an injective, root-unreferenced hierarchy never meet: if
/// two descents from the root reach the same table, they took the same
/// number of steps through the same indices.
pub proof fn lemma_descents_meet(
    tables: Seq<Seq<u64>>,
    root: int,
    vpn1: u64,
    l1: int,
    vpn2: u64,
    l2: int,
)
    requires
        refs_injective(tables),
        root_unreferenced(tables, root),
        0 <= root < tables.len(),
        refs_closed(tables),
        0 <= l1 <= 3,
        0 <= l2 <= 3,
        descend(tables, root, 0, vpn1, l1) is Some,
        descend(tables, root, 0, vpn1, l1) == descend(tables, root, 0, vpn2, l2),
    ensures
        l1 == l2,
        forall|j: int| 0 <= j < l1 ==> vpn_index(vpn1, j) == vpn_index(vpn2, j),
    decreases l1 + l2,
{
    lemma_descend_in_range(tables, root, 0, vpn1, l1);
    lemma_descend_in_range(tables, root, 0, vpn2, l2);
    if l1 == 0 && l2 == 0 {
    } else if l1 == 0 {
        lemma_descend_step(tables, root, 0, vpn2, l2);
        lemma_descend_in_range(tables, root, 0, vpn2, l2 - 1);
        lemma_vpn_index_bounds(vpn2, l2 - 1);
        let y2 = descend(tables, root, 0, vpn2, l2 - 1)->Some_0;
        assert(desc_is_table(tables[y2][vpn_index(vpn2, l2 - 1)]));
        assert(desc_ppn(tables[y2][vpn_index(vpn2, l2 - 1)]) == root);
        assert(false);
    } else if l2 == 0 {
        lemma_descend_step(tables, root, 0, vpn1, l1);
        lemma_descend_in_range(tables, root, 0, vpn1, l1 - 1);
        lemma_vpn_index_bounds(vpn1, l1 - 1);
        let y1 = descend(tables, root, 0, vpn1, l1 - 1)->Some_0;
        assert(desc_is_table(tables[y1][vpn_index(vpn1, l1 - 1)]));
        assert(desc_ppn(tables[y1][vpn_index(vpn1, l1 - 1)]) == root);
        assert(false);
    } else {
        lemma_descend_step(tables, root, 0, vpn1, l1);
        lemma_descend_step(tables, root, 0, vpn2, l2);
        let y1 = descend(tables, root, 0, vpn1, l1 - 1)->Some_0;
        let y2 = descend(tables, root, 0, vpn2, l2 - 1)->Some_0;
        lemma_descend_in_range(tables, root, 0, vpn1, l1 - 1);
        lemma_descend_in_range(tables, root, 0, vpn2, l2 - 1);
        lemma_vpn_index_bounds(vpn1, l1 - 1);
        lemma_vpn_index_bounds(vpn2, l2 - 1);
        if y1 != y2 || vpn_index(vpn1, l1 - 1) != vpn_index(vpn2, l2 - 1) {
            assert(false);
        }
        lemma_descents_meet(tables, root, vpn1, l1 - 1, vpn2, l2 - 1);
        assert forall|j: int| 0 <= j < l1 implies vpn_index(vpn1, j) == vpn_index(vpn2, j) by {
            if j < l1 - 1 {
            } else {
                assert(vpn_index(vpn1, l1 - 1) == vpn_index(vpn2, l2 - 1));
            }
        }
    }
}

/// A descent only reaches tables the arena holds.
pub proof fn lemma_descend_in_range(tables: Seq<Seq<u64>>, t: int, level: int, vpn: u64, to: int)
    requires
        refs_closed(tables),
        0 <= t < tables.len(),
        0 <= level <= to <= 3,
    ensures
        match descend(tables, t, level, vpn, to) {
            Some(x) => 0 <= x < tables.len(),
            None => true,
        },
    decreases to - level,
{
    if level < to {
        lemma_vpn_index_bounds(vpn, level);
        let e = tables[t][vpn_index(vpn, level)];
        if desc_is_table(e) {
            assert(desc_ppn(e) < tables.len());
            lemma_descend_in_range(tables, desc_ppn(e) as int, level + 1, vpn, to);
        }
    }
}

/// A lookup that never reads the one slot a write changed is itself
/// unchanged by the write.
pub proof fn lemma_lookup_untouched_from(
    a: Seq<Seq<u64>>,
    b: Seq<Seq<u64>>,
    t: int,
    level: int,
    q: u64,
    wt: int,
    wi: int,
)
    requires
        a.len() == b.len(),
        refs_closed(a),
        0 <= t < a.len(),
        forall|t2: int, i2: int|
            0 <= t2 < a.len() && 0 <= i2 < 512 && !(t2 == wt && i2 == wi) ==> #[trigger] b[t2][i2]
                == a[t2][i2],
        0 <= level <= 3,
        forall|l: int|
            level <= l <= 3 ==> !(#[trigger] descend(a, t, level, q, l) == Some(wt) && vpn_index(
                q,
                l,
            ) == wi),
    ensures
        lookup_from(b, t, level, q) == lookup_from(a, t, level, q),
        descend(b, t, level, q, 3) == descend(a, t, level, q, 3),
    decreases 3 - level,
{
    lemma_vpn_index_bounds(q, level);
    let i = vpn_index(q, level);
    assert(descend(a, t, level, q, level) == Some(t));
    assert(!(t == wt && i == wi));
    assert(b[t][i] == a[t][i]);
    let e = a[t][i];
    if level < 3 && desc_is_table(e) {
        let c = desc_ppn(e) as int;
        assert(c < a.len());
        assert forall|l: int|
            level + 1 <= l <= 3 implies !(#[trigger] descend(a, c, level + 1, q, l) == Some(wt)
            && vpn_index(q, l) == wi) by {
            assert(descend(a, t, level, q, l) == descend(a, c, level + 1, q, l));
        }
        lemma_lookup_untouched_from(a, b, c, level + 1, q, wt, wi);
    }
}

/// Linking a fresh, all-zero table page under an empty slot extends some
/// missing branches but resolves nothing new: every root that the arena
/// already held resolves every page exactly as before.
pub proof fn lemma_resolve_after_link(
    ot: Seq<Seq<u64>>,
    nt: Seq<Seq<u64>>,
    wt: int,
    wi: int,
    link: u64,
)
    requires
        refs_closed(ot),
        tables_wf(ot),
        0 <= wt < ot.len(),
        0 <= wi < 512,
        !desc_valid(ot[wt][wi]),
        desc_is_table(link),
        desc_ppn(link) == ot.len(),
        nt == ot.push(Seq::new(512, |i: int| 0u64)).update(
            wt,
            ot.push(Seq::new(512, |i: int| 0u64))[wt].update(wi, link),
        ),
    ensures
        forall|r0: int, q: u64|
            0 <= r0 < ot.len() ==> #[trigger] resolve(nt, r0, q) == resolve(ot, r0, q),
{
    lemma_zero_desc();
    assert(valid_slots_preserved(ot, nt));
    assert forall|r0: int, q: u64| 0 <= r0 < ot.len() implies #[trigger] resolve(nt, r0, q)
        == resolve(ot, r0, q) by {
        if resolve(ot, r0, q) is Some {
            lemma_resolve_preserved(ot, nt, r0, q);
        } else {
            lemma_link_lookup(ot, nt, r0, 0, q, wt, wi, link);
        }
    }
}

/// The descent comparison behind `lemma_resolve_after_link`: wherever the
/// new arena's descent ends on something mappable, the old descent ended
/// there too.
proof fn lemma_link_lookup(
    ot: Seq<Seq<u64>>,
    nt: Seq<Seq<u64>>,
    t: int,
    level: int,
    q: u64,
    wt: int,
    wi: int,
    link: u64,
)
    requires
        refs_closed(ot),
        tables_wf(ot),
        0 <= wt < ot.len(),
        0 <= wi < 512,
        !desc_valid(ot[wt][wi]),
        desc_is_table(link),
        desc_ppn(link) == ot.len(),
        nt == ot.push(Seq::new(512, |i: int| 0u64)).update(
            wt,
            ot.push(Seq::new(512, |i: int| 0u64))[wt].update(wi, link),
        ),
        0 <= t < ot.len(),
        0 <= level <= 3,
    ensures
        match lookup_from(nt, t, level, q) {
            LookupResult::Slot { entry } => desc_is_mappable(entry) ==> lookup_from(
                ot,
                t,
                level,
                q,
            ) == lookup_from(nt, t, level, q),
            LookupResult::Super { level: l, entry } => lookup_from(ot, t, level, q) == lookup_from(
                nt,
                t,
                level,
                q,
            ),
            LookupResult::Missing { .. } => true,
        },
    decreases 3 - level,
{
    lemma_vpn_index_bounds(q, level);
    lemma_zero_desc();
    let i = vpn_index(q, level);
    let c = ot.len() as int;
    if t == wt && i == wi {
        assert(nt[t][i] == link);
        assert(link & 0xe == 0 ==> link & 2 == 0 && link & 8 == 0) by (bit_vector);
        if level < 3 {
            assert(nt[c] =~= Seq::new(512, |j: int| 0u64));
            lemma_vpn_index_bounds(q, level + 1);
            assert(nt[c][vpn_index(q, level + 1)] == 0u64);
            assert(lookup_from(nt, t, level, q) == lookup_from(nt, c, level + 1, q));
            if level + 1 >= 3 {
                assert(lookup_from(nt, c, level + 1, q) == (LookupResult::Slot { entry: 0u64 }));
            } else {
                assert(lookup_from(nt, c, level + 1, q) == (LookupResult::Missing {
                    level: level + 1,
                }));
            }
        }
    } else {
        assert(ot[wt].len() == 512);
        assert(nt[t][i] == ot[t][i]);
        let e = ot[t][i];
        if level < 3 && desc_is_table(e) {
            assert(desc_ppn(e) < ot.len());
            lemma_link_lookup(ot, nt, desc_ppn(e) as int, level + 1, q, wt, wi, link);
            assert(lookup_from(nt, t, level, q) == lookup_from(nt, desc_ppn(e) as int, level + 1, q));
            assert(lookup_from(ot, t, level, q) == lookup_from(ot, desc_ppn(e) as int, level + 1, q));
        }
    }
}

/// Equal indices down to a level place a page inside the aligned block the
/// level's entry covers.
pub proof fn lemma_block_of_indices(q: u64, vpn: u64, l: int)
    requires
        1 <= l <= 3,
        q < VPN_LIMIT,
        vpn < VPN_LIMIT,
        vpn % level_pages(l) == 0,
        forall|j: int| 0 <= j <= l ==> vpn_index(q, j) == vpn_index(vpn, j),
    ensures
        vpn <= q < vpn + level_pages(l),
{
    assert(vpn_index(q, 0) == vpn_index(vpn, 0));
    assert(vpn_index(q, 1) == vpn_index(vpn, 1));
    if l == 1 {
        assert((q >> 27) & 0x1ff == (vpn >> 27) & 0x1ff && (q >> 18) & 0x1ff == (vpn >> 18) & 0x1ff
            && vpn % 0x4_0000 == 0 && q < 0x10_0000_0000 && vpn < 0x10_0000_0000 ==> vpn <= q < vpn
            + 0x4_0000) by (bit_vector);
    } else if l == 2 {
        assert(vpn_index(q, 2) == vpn_index(vpn, 2));
        assert((q >> 27) & 0x1ff == (vpn >> 27) & 0x1ff && (q >> 18) & 0x1ff == (vpn >> 18) & 0x1ff
            && (q >> 9) & 0x1ff == (vpn >> 9) & 0x1ff && vpn % 0x200 == 0 && q < 0x10_0000_0000
            && vpn < 0x10_0000_0000 ==> vpn <= q < vpn + 0x200) by (bit_vector);
    } else {
        assert(vpn_index(q, 2) == vpn_index(vpn, 2));
        assert(vpn_index(q, 3) == vpn_index(vpn, 3));
        lemma_indices_determine_vpn(q, vpn);
    }
}

/// Four equal indices pin down a virtual page number.
pub proof fn lemma_indices_determine_vpn(vpn1: u64, vpn2: u64)
    requires
        vpn1 < VPN_LIMIT,
        vpn2 < VPN_LIMIT,
        forall|j: int| 0 <= j <= 3 ==> vpn_index(vpn1, j) == vpn_index(vpn2, j),
    ensures
        vpn1 == vpn2,
{
    assert(vpn_index(vpn1, 0) == vpn_index(vpn2, 0));
    assert(vpn_index(vpn1, 1) == vpn_index(vpn2, 1));
    assert(vpn_index(vpn1, 2) == vpn_index(vpn2, 2));
    assert(vpn_index(vpn1, 3) == vpn_index(vpn2, 3));
    assert((vpn1 >> 27) & 0x1ff == (vpn2 >> 27) & 0x1ff && (vpn1 >> 18) & 0x1ff == (vpn2 >> 18)
        & 0x1ff && (vpn1 >> 9) & 0x1ff == (vpn2 >> 9) & 0x1ff && (vpn1 >> 0) & 0x1ff == (vpn2 >> 0)
        & 0x1ff ==> vpn1 == vpn2) by (bit_vector)
        requires
            vpn1 < 0x10_0000_0000u64,
            vpn2 < 0x10_0000_0000u64,
    ;
}

/// The all-zero descriptor is invalid: neither a table entry nor a leaf.
pub proof fn lemma_zero_desc()
    ensures
        !desc_valid(0u64),
        !desc_is_table(0u64),
        !crate::descriptor::desc_is_leaf(0u64),
{
    assert(0u64 & 1 != 1 && 0u64 & 0xe == 0) by (bit_vector);
}

/// Growing the arena by a zeroed table page keeps its references closed.
pub proof fn lemma_refs_closed_push_zero(a: Seq<Seq<u64>>)
    requires
        refs_closed(a),
    ensures
        refs_closed(a.push(Seq::new(512, |i: int| 0u64))),
{
    let b = a.push(Seq::new(512, |i: int| 0u64));
    lemma_zero_desc();
    assert forall|t: int, i: int|
        0 <= t < b.len() && 0 <= i < 512 && desc_is_table(#[trigger] b[t][i]) implies desc_ppn(
        b[t][i],
    ) < b.len() by {
        if t < a.len() {
            assert(b[t][i] == a[t][i]);
        } else {
            assert(b[t][i] == 0u64);
        }
    }
}

/// A level's index is always a valid slot number.
pub proof fn lemma_vpn_index_bounds(vpn: u64, level: int)
    requires
        0 <= level <= 3,
    ensures
        0 <= vpn_index(vpn, level) < 512,
{
    let sh = level_shift(level);
    assert((vpn >> sh) & 0x1ff < 512) by (bit_vector);
}

/// Growing the arena and writing only over non-valid slots never changes
/// where an existing valid descent ends.
pub proof fn lemma_lookup_preserved(a: Seq<Seq<u64>>, b: Seq<Seq<u64>>, t: int, level: int, vpn: u64)
    requires
        refs_closed(a),
        valid_slots_preserved(a, b),
        a.len() <= b.len(),
        0 <= t < a.len(),
        0 <= level <= 3,
    ensures
        match lookup_from(a, t, level, vpn) {
            LookupResult::Slot { entry } => desc_valid(entry) ==> lookup_from(b, t, level, vpn)
                == lookup_from(a, t, level, vpn),
            LookupResult::Super { .. } => lookup_from(b, t, level, vpn) == lookup_from(
                a,
                t,
                level,
                vpn,
            ),
            LookupResult::Missing { .. } => true,
        },
    decreases 3 - level,
{
    lemma_vpn_index_bounds(vpn, level);
    let i = vpn_index(vpn, level);
    let e = a[t][i];
    if level == 3 {
    } else if desc_is_table(e) {
        assert(b[t][i] == e);
        lemma_lookup_preserved(a, b, desc_ppn(e) as int, level + 1, vpn);
    }
}

/// Frame lemma for rewrites that only replace valid non-table entries, in a
/// way described by `r_rel`: the shape of every descent is unchanged — a
/// bottom slot stays a bottom slot, a superpage stays a superpage at the
/// same level, a missing branch stays missing — and the entry a descent
/// ends on is either untouched or related to its old value by `r_rel`.
pub proof fn lemma_lookup_frame_rel(
    a: Seq<Seq<u64>>,
    b: Seq<Seq<u64>>,
    t: int,
    level: int,
    vpn: u64,
    r_rel: spec_fn(u64, u64) -> bool,
)
    requires
        refs_closed(a),
        a.len() == b.len(),
        forall|t2: int, i2: int|
            0 <= t2 < a.len() && 0 <= i2 < 512 ==> #[trigger] b[t2][i2] == a[t2][i2] || (desc_valid(
                a[t2][i2],
            ) && !desc_is_table(a[t2][i2]) && !desc_is_table(b[t2][i2]) && r_rel(
                a[t2][i2],
                b[t2][i2],
            )),
        0 <= t < a.len(),
        0 <= level <= 3,
    ensures
        match lookup_from(a, t, level, vpn) {
            LookupResult::Slot { entry } => match lookup_from(b, t, level, vpn) {
                LookupResult::Slot { entry: f } => f == entry || (desc_valid(entry) && r_rel(
                    entry,
                    f,
                )),
                _ => false,
            },
            LookupResult::Super { level: l, entry } => desc_valid(entry) && match lookup_from(
                b,
                t,
                level,
                vpn,
            ) {
                LookupResult::Super { level: l2, entry: f } => l2 == l && (f == entry || r_rel(
                    entry,
                    f,
                )),
                LookupResult::Missing { level: l2 } => l2 == l && (exists|f: u64|
                    r_rel(entry, f) && !desc_valid(f)),
                _ => false,
            },
            LookupResult::Missing { level: l } => lookup_from(b, t, level, vpn)
                == (LookupResult::Missing { level: l }),
        },
    decreases 3 - level,
{
    lemma_vpn_index_bounds(vpn, level);
    let i = vpn_index(vpn, level);
    let ea = a[t][i];
    let eb = b[t][i];
    if level == 3 {
    } else if desc_is_table(ea) {
        assert(eb == ea);
        lemma_lookup_frame_rel(a, b, desc_ppn(ea) as int, level + 1, vpn, r_rel);
    } else if desc_valid(ea) {
        assert(!desc_is_table(eb));
        if eb != ea {
            assert(r_rel(ea, eb));
            if !desc_valid(eb) {
                assert(r_rel(ea, eb) && !desc_valid(eb));
            }
        }
    } else {
        assert(eb == ea);
    }
}

/// Specialization of the frame lemma to resolved mappings: whatever was
/// mapped stays mapped, to the same frame with the same permissions.
pub proof fn lemma_resolve_preserved(a: Seq<Seq<u64>>, b: Seq<Seq<u64>>, root: int, vpn: u64)
    requires
        refs_closed(a),
        valid_slots_preserved(a, b),
        a.len() <= b.len(),
        0 <= root < a.len(),
        resolve(a, root, vpn) is Some,
    ensures
        resolve(b, root, vpn) == resolve(a, root, vpn),
{
    lemma_lookup_preserved(a, b, root, 0, vpn);
}

/// Inside a block that one entry at `level` covers, the indices of every
/// level at or above it are the same for all pages of the block, and a
/// page's offset inside the block is its distance from the block start.
pub proof fn lemma_index_align(vpn: u64, j: u64, level: int)
    requires
        1 <= level <= 3,
        vpn % level_pages(level) == 0,
        j < level_pages(level),
        vpn + j < VPN_LIMIT,
    ensures
        forall|l: int| 0 <= l <= level ==> vpn_index((vpn + j) as u64, l) == vpn_index(vpn, l),
        ((vpn + j) as u64) as int % level_pages(level) as int == j,
{
    let s = (vpn + j) as u64;
    if level == 1 {
        assert(((s >> 27) & 0x1ff == (vpn >> 27) & 0x1ff) && ((s >> 18) & 0x1ff == (vpn >> 18)
            & 0x1ff) && s % 0x4_0000 == j) by (bit_vector)
            requires
                vpn % 0x4_0000 == 0,
                j < 0x4_0000u64,
                s == vpn + j,
                vpn + j < 0x10_0000_0000u64,
        ;
        assert forall|l: int| 0 <= l <= level implies vpn_index(s, l) == vpn_index(vpn, l) by {
            assert(l == 0 || l == 1);
        }
    } else if level == 2 {
        assert(((s >> 27) & 0x1ff == (vpn >> 27) & 0x1ff) && ((s >> 18) & 0x1ff == (vpn >> 18)
            & 0x1ff) && ((s >> 9) & 0x1ff == (vpn >> 9) & 0x1ff) && s % 0x200 == j) by (bit_vector)
            requires
                vpn % 0x200 == 0,
                j < 0x200u64,
                s == vpn + j,
                vpn + j < 0x10_0000_0000u64,
        ;
        assert forall|l: int| 0 <= l <= level implies vpn_index(s, l) == vpn_index(vpn, l) by {
            assert(l == 0 || l == 1 || l == 2);
        }
    } else {
        assert(j == 0);
        assert(s == vpn);
        assert(vpn % 1 == 0) by (bit_vector);
        assert(s as int % level_pages(level) as int == 0);
    }
}

/// Every prefix of a known descent chain reproduces the full descent.
pub proof fn lemma_chain_prefix(nt: Seq<Seq<u64>>, chain: Seq<int>, leaf_level: int, w: u64, l: int)
    requires
        1 <= leaf_level <= 3,
        chain.len() == leaf_level + 1,
        0 <= l <= leaf_level,
        forall|k: int|
            0 <= k < leaf_level ==> desc_is_table(#[trigger] nt[chain[k]][vpn_index(w, k)])
                && desc_ppn(nt[chain[k]][vpn_index(w, k)]) == chain[k + 1],
    ensures
        lookup_from(nt, chain[l], l, w) == lookup_from(nt, chain[0], 0, w),
    decreases l,
{
    if l > 0 {
        lemma_chain_prefix(nt, chain, leaf_level, w, l - 1);
        assert(desc_is_table(nt[chain[l - 1]][vpn_index(w, l - 1)]));
        assert(lookup_from(nt, chain[l - 1], l - 1, w) == lookup_from(nt, chain[l], l, w));
    }
}


} // verus!
