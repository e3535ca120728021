//! Counters accumulated over a stream of translations.

use vstd::prelude::*;

use crate::memory::QueryResult;

verus! {

/// How many addresses were translated, and how many of those were page
/// faults and cache hits.
#[derive(Clone, Copy, Debug, PartialEq, Eq, Structural)]
pub struct Tally {
    pub count: u64,
    pub page_faults: u64,
    pub tlb_hits: u64,
}

impl Tally {
    /// Neither kind of outcome is counted more often than there were
    /// translations, so each rate lies between zero and one.
    pub open spec fn wf(self) -> bool {
        &&& self.page_faults <= self.count
        &&& self.tlb_hits <= self.count
    }

    /// Counters of an empty stream.
    pub fn new() -> (t: Tally)
        ensures
            t == (Tally { count: 0, page_faults: 0, tlb_hits: 0 }),
            t.wf(),
    {
        Tally { count: 0, page_faults: 0, tlb_hits: 0 }
    }

    /// Counts one more translation and its outcome.
    pub fn record(&mut self, r: &QueryResult)
        requires
            old(self).wf(),
            old(self).count < u64::MAX,
        ensures
            final(self).count == old(self).count + 1,
            final(self).page_faults == old(self).page_faults + (if r.page_fault {
                1int
            } else {
                0int
            }),
            final(self).tlb_hits == old(self).tlb_hits + (if r.tlb_hit {
                1int
            } else {
                0int
            }),
            final(self).wf(),
    {
        self.count = self.count + 1;
        if r.page_fault {
            self.page_faults = self.page_faults + 1;
        }
        if r.tlb_hit {
            self.tlb_hits = self.tlb_hits + 1;
        }
    }
}

} // verus!
