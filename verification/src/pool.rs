//! Table-page storage and the capabilities the engine consumes.
//!
//! Table pages live in an arena; a table's frame number is its slot in the
//! arena, so the same number a descriptor stores is the handle used to
//! dereference the table. `PageTableMapper` is the capability to read and
//! write descriptors of a table named by frame number; `PageAllocator` is the
//! capability to produce a fresh zeroed table page. `PageTableAllocator` is
//! the standard arena (allocation never fails); `SmallocPageAlloc` draws from
//! a fixed budget and reports `NoMemory` when it is spent, standing in for
//! the boot-time bump allocator.
use vstd::prelude::*;

use crate::errors::MapError;
use crate::model::tables_wf;

verus! {

/// One page-table page: 512 raw descriptors, created zeroed.
pub struct PgTableArray {
    pub entries: Vec<u64>,
}

impl PgTableArray {
    /// The descriptors of this table, in index order.
    pub open spec fn row(&self) -> Seq<u64> {
        self.entries@
    }

    /// A table page always holds exactly 512 descriptors.
    pub open spec fn wf(&self) -> bool {
        self.entries@.len() == 512
    }

    /// A zeroed table page: every entry invalid.
    pub fn new() -> (r: Self)
        ensures
            r.wf(),
            r.row() == Seq::new(512, |i: int| 0u64),
    {
        let mut entries: Vec<u64> = Vec::new();
        let mut k: usize = 0;
        while k < 512
            invariant
                k <= 512,
                entries@.len() == k,
                forall|i: int| 0 <= i < k ==> entries@[i] == 0u64,
            decreases 512 - k,
        {
            entries.push(0);
            k = k + 1;
        }
        let r = PgTableArray { entries };
        proof {
            assert(r.row() =~= Seq::new(512, |i: int| 0u64));
        }
        r
    }
}

/// Capability to dereference a table page by its frame number: the view a
/// temporary window or linear map would give, without the raw pointer.
pub trait PageTableMapper: Sized {
    /// Every table page currently backing the hierarchy, by frame number.
    spec fn tables(&self) -> Seq<Seq<u64>>;

    /// True for arenas whose page supply cannot run out; exhaustion is then
    /// impossible and allocation always succeeds.
    spec fn infallible(&self) -> bool;

    /// Number of table pages in the arena.
    fn num_tables(&self) -> (n: usize)
        ensures
            n as int == self.tables().len(),
            tables_wf(self.tables()),
    ;

    /// Reads descriptor `idx` of the table in frame `table`.
    fn read_entry(&self, table: usize, idx: usize) -> (r: u64)
        requires
            (table as int) < self.tables().len(),
            idx < 512,
        ensures
            r == self.tables()[table as int][idx as int],
            tables_wf(self.tables()),
    ;

    /// Writes descriptor `idx` of the table in frame `table`.
    fn write_entry(&mut self, table: usize, idx: usize, desc: u64)
        requires
            (table as int) < old(self).tables().len(),
            idx < 512,
        ensures
            final(self).tables() == old(self).tables().update(
                table as int,
                old(self).tables()[table as int].update(idx as int, desc),
            ),
            tables_wf(old(self).tables()),
            tables_wf(final(self).tables()),
            final(self).infallible() == old(self).infallible(),
    ;
}

/// Capability to produce a zeroed table page on demand.
pub trait PageAllocator: PageTableMapper {
    /// Hands out a fresh zeroed table page and returns its frame number;
    /// exhaustion surfaces as `NoMemory` with nothing changed.
    fn allocate_page_table(&mut self) -> (r: Result<usize, MapError>)
        ensures
            final(self).infallible() == old(self).infallible(),
            tables_wf(old(self).tables()),
            tables_wf(final(self).tables()),
            match r {
                Ok(t) => t as int == old(self).tables().len() && final(self).tables() == old(
                    self,
                ).tables().push(Seq::new(512, |i: int| 0u64)),
                Err(e) => e == MapError::NoMemory && final(self).tables() == old(self).tables()
                    && !old(self).infallible(),
            },
    ;
}

/// The standard table-page arena: owns every table page of a hierarchy and
/// serves both capabilities; allocation grows the arena and never fails.
pub struct PageTableAllocator {
    tables: Vec<PgTableArray>,
}

impl PageTableAllocator {
    #[verifier::type_invariant]
    spec fn inv(&self) -> bool {
        forall|t: int| 0 <= t < self.tables@.len() ==> (#[trigger] self.tables@[t]).wf()
    }

    /// The arena contents as raw descriptor rows.
    pub closed spec fn rows(&self) -> Seq<Seq<u64>> {
        self.tables@.map(|t: int, a: PgTableArray| a.row())
    }

    /// An empty arena. Its page supply is the process heap: allocation
    /// never reports exhaustion.
    pub fn new() -> (r: Self)
        ensures
            r.rows().len() == 0,
            r.infallible(),
    {
        PageTableAllocator { tables: Vec::new() }
    }
}

impl PageTableMapper for PageTableAllocator {
    closed spec fn tables(&self) -> Seq<Seq<u64>> {
        self.rows()
    }

    closed spec fn infallible(&self) -> bool {
        true
    }

    fn num_tables(&self) -> (n: usize) {
        proof {
            use_type_invariant(&*self);
            assert forall|t: int|
                0 <= t < self.rows().len() implies (#[trigger] self.rows()[t]).len() == 512 by {}
        }
        self.tables.len()
    }

    fn read_entry(&self, table: usize, idx: usize) -> (r: u64) {
        proof {
            use_type_invariant(&*self);
            assert forall|t: int|
                0 <= t < self.rows().len() implies (#[trigger] self.rows()[t]).len() == 512 by {}
        }
        self.tables[table].entries[idx]
    }

    fn write_entry(&mut self, table: usize, idx: usize, desc: u64) {
        proof {
            use_type_invariant(&*self);
        }
        let mut tables: Vec<PgTableArray> = Vec::new();
        core::mem::swap(&mut tables, &mut self.tables);
        tables[table].entries[idx] = desc;
        core::mem::swap(&mut tables, &mut self.tables);
        proof {
            assert(final(self).tables() =~~= old(self).tables().update(
                table as int,
                old(self).tables()[table as int].update(idx as int, desc),
            ));
        }
    }
}

impl PageAllocator for PageTableAllocator {
    fn allocate_page_table(&mut self) -> (r: Result<usize, MapError>) {
        proof {
            use_type_invariant(&*self);
        }
        let mut tables: Vec<PgTableArray> = Vec::new();
        core::mem::swap(&mut tables, &mut self.tables);
        let t = tables.len();
        tables.push(PgTableArray::new());
        core::mem::swap(&mut tables, &mut self.tables);
        proof {
            assert(final(self).tables() =~~= old(self).tables().push(
                Seq::new(512, |i: int| 0u64),
            ));
        }
        Ok(t)
    }
}

/// A table-page allocator drawing from a fixed budget of pages, as the early
/// boot allocator does; once the budget is spent it reports `NoMemory`.
pub struct SmallocPageAlloc {
    arena: PageTableAllocator,
    budget: usize,
}

impl SmallocPageAlloc {
    /// Remaining pages this allocator may still hand out.
    pub closed spec fn remaining(&self) -> int {
        self.budget as int
    }

    /// An arena that will serve at most `budget` table pages.
    pub fn new(budget: usize) -> (r: Self)
        ensures
            r.tables().len() == 0,
            r.remaining() == budget,
            !r.infallible(),
    {
        SmallocPageAlloc { arena: PageTableAllocator::new(), budget }
    }
}

impl PageTableMapper for SmallocPageAlloc {
    closed spec fn tables(&self) -> Seq<Seq<u64>> {
        self.arena.rows()
    }

    closed spec fn infallible(&self) -> bool {
        false
    }

    fn num_tables(&self) -> (n: usize) {
        self.arena.num_tables()
    }

    fn read_entry(&self, table: usize, idx: usize) -> (r: u64) {
        self.arena.read_entry(table, idx)
    }

    fn write_entry(&mut self, table: usize, idx: usize, desc: u64) {
        self.arena.write_entry(table, idx, desc)
    }
}

impl PageAllocator for SmallocPageAlloc {
    fn allocate_page_table(&mut self) -> (r: Result<usize, MapError>) {
        if self.budget == 0 {
            proof {
                use_type_invariant(&self.arena);
                assert forall|t: int| 0 <= t < self.arena.rows().len() implies (
                #[trigger] self.arena.rows()[t]).len() == 512 by {}
            }
            return Err(MapError::NoMemory);
        }
        self.budget = self.budget - 1;
        self.arena.allocate_page_table()
    }
}

} // verus!
