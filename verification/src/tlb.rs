//! Making stale translations unobservable.
//!
//! Flushing a hardware TLB is an architectural effect the model cannot
//! observe; what it can track is which pages the engine asked to have
//! flushed. Every invalidator therefore keeps a log of requested pages, and
//! the engine's obligation — a flush request for every rewritten leaf,
//! before the call returns — becomes a statement about that log.
use vstd::prelude::*;

verus! {

/// Capability to flush stale translations, passed by reference into every
/// engine call and never stored.
pub trait TLBInvalidator: Sized {
    /// The virtual addresses whose translations were requested flushed, in
    /// request order.
    spec fn log(&self) -> Seq<u64>;

    /// Requests that translations of the page holding `va` become
    /// unobservable before the surrounding table operation returns.
    fn invalidate_page(&mut self, va: u64)
        ensures
            final(self).log() == old(self).log().push(va),
    ;

    /// Requests that every translation become unobservable; page-level
    /// bookkeeping is untouched.
    fn invalidate_all(&mut self)
        ensures
            final(self).log() == old(self).log(),
    ;
}

/// The invalidator for bootstrap, before the MMU is enabled: no translation
/// can be stale yet, so a request only needs to be remembered, not acted on.
pub struct NullTlbInvalidator {
    log: Ghost<Seq<u64>>,
}

impl NullTlbInvalidator {
    /// A fresh no-op invalidator with an empty log.
    pub fn new() -> (r: Self)
        ensures
            r.log() == Seq::<u64>::empty(),
    {
        NullTlbInvalidator { log: Ghost(Seq::empty()) }
    }
}

impl TLBInvalidator for NullTlbInvalidator {
    closed spec fn log(&self) -> Seq<u64> {
        self.log@
    }

    fn invalidate_page(&mut self, va: u64) {
        proof {
            self.log@ = self.log@.push(va);
        }
    }

    fn invalidate_all(&mut self) {
    }
}

/// The invalidator for a live MMU: records every page whose translation
/// must be flushed, so the platform layer (which owns the actual flush
/// instruction) and the tests can observe exactly what the engine demanded.
pub struct AllTlbInvalidator {
    /// Pages requested flushed, oldest first.
    pub requested: Vec<u64>,
}

impl AllTlbInvalidator {
    /// A fresh invalidator with an empty log.
    pub fn new() -> (r: Self)
        ensures
            r.log() == Seq::<u64>::empty(),
    {
        AllTlbInvalidator { requested: Vec::new() }
    }

    /// How many page flushes were requested so far.
    pub fn len(&self) -> (n: usize)
        ensures
            n == self.log().len(),
    {
        self.requested.len()
    }
}

impl TLBInvalidator for AllTlbInvalidator {
    open spec fn log(&self) -> Seq<u64> {
        self.requested@
    }

    fn invalidate_page(&mut self, va: u64) {
        self.requested.push(va);
    }

    fn invalidate_all(&mut self) {
    }
}

} // verus!
