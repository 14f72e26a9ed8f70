//! Hit and miss counters for the cache store.

use vstd::prelude::*;

verus! {

/// The next counter value: one more, until the counter is full.
pub open spec fn saturating_incr(n: int) -> int {
    if n < usize::MAX {
        n + 1
    } else {
        n
    }
}

/// Cache observability counters: hits and misses, monotonically increasing,
/// reset only by an explicit clear.
#[derive(Clone, Copy, Debug, PartialEq, Eq, Structural)]
pub struct Stats {
    hits: usize,
    misses: usize,
}

impl Stats {
    /// The number of cache hits recorded so far.
    pub closed spec fn spec_hits(self) -> int {
        self.hits as int
    }

    /// The number of cache misses recorded so far.
    pub closed spec fn spec_misses(self) -> int {
        self.misses as int
    }

    /// Count one cache hit.
    pub fn register_hit(&mut self)
        ensures
            final(self).spec_hits() == saturating_incr(old(self).spec_hits()),
            final(self).spec_misses() == old(self).spec_misses(),
    {
        if self.hits < usize::MAX {
            self.hits = self.hits + 1;
        }
    }

    /// Count one cache miss.
    pub fn register_miss(&mut self)
        ensures
            final(self).spec_misses() == saturating_incr(old(self).spec_misses()),
            final(self).spec_hits() == old(self).spec_hits(),
    {
        if self.misses < usize::MAX {
            self.misses = self.misses + 1;
        }
    }

    /// The number of cache hits recorded so far.
    pub fn get_hits(&self) -> (r: usize)
        ensures
            r == self.spec_hits(),
    {
        self.hits
    }

    /// The number of cache misses recorded so far.
    pub fn get_misses(&self) -> (r: usize)
        ensures
            r == self.spec_misses(),
    {
        self.misses
    }

    /// Reset both counters to zero.
    pub fn clear(&mut self)
        ensures
            final(self).spec_hits() == 0,
            final(self).spec_misses() == 0,
    {
        self.hits = 0;
        self.misses = 0;
    }
}

impl core::default::Default for Stats {
    fn default() -> (r: Stats)
        ensures
            r.spec_hits() == 0,
            r.spec_misses() == 0,
    {
        Stats { hits: 0, misses: 0 }
    }
}

} // verus!
