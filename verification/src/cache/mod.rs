//! The cache store: a mapping from resource identity to a shared, immutable
//! decoded document, with hit and miss counters.

pub mod stats;

use crate::document::{Document, SharedDocument, decimal_of, share_document, u64_to_decimal};
use crate::url_helpers::CanonicalUrl;
use stats::{Stats, saturating_incr};
use vstd::prelude::*;

verus! {

/// Maps the textual form of a resource key to a shared decoded document.
/// An entry, once obtained by a caller, is never invalidated: a later `set`
/// for the same key replaces the stored handle, and handles already handed
/// out keep their value.
pub struct CacheStore {
    entries: vstd::hash_map::StringHashMap<SharedDocument>,
    stats: Stats,
}

impl CacheStore {
    /// The cached documents, keyed by the resource key's textual form.
    pub closed spec fn spec_map(self) -> Map<Seq<char>, SharedDocument> {
        self.entries@
    }

    /// The hit and miss counters.
    pub closed spec fn spec_stats(self) -> Stats {
        self.stats
    }

    /// An empty cache with zeroed counters.
    pub fn new() -> (r: CacheStore)
        ensures
            r.spec_map() == Map::<Seq<char>, SharedDocument>::empty(),
            r.spec_stats().spec_hits() == 0,
            r.spec_stats().spec_misses() == 0,
    {
        CacheStore {
            entries: vstd::hash_map::StringHashMap::new(),
            stats: Stats::default(),
        }
    }

    /// Look the key up: on presence return a cloned shared handle and count
    /// a hit, otherwise count a miss. The mapping itself never changes.
    pub fn get(&mut self, key: &CanonicalUrl) -> (r: Option<SharedDocument>)
        ensures
            final(self).spec_map() == old(self).spec_map(),
            match r {
                Some(d) => {
                    &&& old(self).spec_map().contains_key(key@.to_seq())
                    &&& d == old(self).spec_map()[key@.to_seq()]
                    &&& final(self).spec_stats().spec_hits() == saturating_incr(
                        old(self).spec_stats().spec_hits(),
                    )
                    &&& final(self).spec_stats().spec_misses() == old(self).spec_stats().spec_misses()
                },
                None => {
                    &&& !old(self).spec_map().contains_key(key@.to_seq())
                    &&& final(self).spec_stats().spec_misses() == saturating_incr(
                        old(self).spec_stats().spec_misses(),
                    )
                    &&& final(self).spec_stats().spec_hits() == old(self).spec_stats().spec_hits()
                },
            },
    {
        let k = key.as_string();
        match self.entries.get(k.as_str()) {
            Some(v) => {
                let d = share_document(v);
                self.stats.register_hit();
                Some(d)
            },
            None => {
                self.stats.register_miss();
                None
            },
        }
    }

    /// Insert or replace the entry for the key with an already shared
    /// handle; the counters are untouched.
    pub fn set_shared(&mut self, key: &CanonicalUrl, value: SharedDocument)
        ensures
            final(self).spec_map() == old(self).spec_map().insert(key@.to_seq(), value),
            final(self).spec_stats() == old(self).spec_stats(),
    {
        let k = key.as_string();
        self.entries.insert(k, value);
    }

    /// Insert or replace the entry for the key, wrapping the document in a
    /// fresh shared handle; the counters are untouched.
    pub fn set(&mut self, key: &CanonicalUrl, value: Document)
        ensures
            final(self).spec_map() == old(self).spec_map().insert(
                key@.to_seq(),
                final(self).spec_map()[key@.to_seq()],
            ),
            final(self).spec_map()[key@.to_seq()] == value,
            final(self).spec_stats() == old(self).spec_stats(),
    {
        self.set_shared(key, std::sync::Arc::new(value));
    }

    /// A copy of the counters.
    pub fn stats(&self) -> (r: Stats)
        ensures
            r == self.spec_stats(),
    {
        self.stats
    }

    /// Reset the counters; the cached entries stay.
    pub fn clear_stats(&mut self)
        ensures
            final(self).spec_map() == old(self).spec_map(),
            final(self).spec_stats().spec_hits() == 0,
            final(self).spec_stats().spec_misses() == 0,
    {
        self.stats.clear();
    }
}

impl CacheStore {
    /// A textual summary of the cache: how many documents it holds and the
    /// counters, in the form
    /// `ThreadSafeCache { cache_size: N, cache_hits: N, cache_misses: N }`.
    pub fn describe(&self) -> (r: String)
        ensures
            r@ == "ThreadSafeCache { cache_size: "@ + decimal_of(self.spec_map().len() as int)
                + ", cache_hits: "@ + decimal_of(self.spec_stats().spec_hits())
                + ", cache_misses: "@ + decimal_of(self.spec_stats().spec_misses()) + " }"@,
    {
        broadcast use vstd::hash_map::axiom_string_hash_map_spec_len;

        let mut out = String::from_str("ThreadSafeCache { cache_size: ");
        let size = self.entries.len();
        out.append(u64_to_decimal(size as u64).as_str());
        out.append(", cache_hits: ");
        out.append(u64_to_decimal(self.stats.get_hits() as u64).as_str());
        out.append(", cache_misses: ");
        out.append(u64_to_decimal(self.stats.get_misses() as u64).as_str());
        out.append(" }");
        out
    }
}

} // verus!
