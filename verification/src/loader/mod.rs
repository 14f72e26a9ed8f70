//! The loader orchestrator: canonicalize, consult the cache, fetch and
//! decode on a miss, then extract the requested fragment.

pub mod error;

use crate::cache::CacheStore;
use crate::cache::stats::{Stats, saturating_incr};
use crate::document::{Document, DocView, SharedDocument, share_document};
use crate::fragment::{doc_lookup, extract_fragment, fragment_tokens, not_found_message};
use crate::url_helpers::{CanonicalOutcome, CanonicalUrl, UrlError, canonicalize, canonicalize_spec};
use error::LoaderError;
use vstd::prelude::*;

verus! {

/// Whether `r` is what extracting `frag` from a document viewed as `dv`
/// must return: the addressed sub-value, or a `JsonFragmentError` naming
/// the fragment and the document's JSON text when it addresses nothing.
pub open spec fn extraction_result(
    dv: DocView,
    frag: Seq<char>,
    r: Result<SharedDocument, LoaderError>,
) -> bool {
    match doc_lookup(dv, fragment_tokens(frag)) {
        Some(v) => r matches Ok(d) && d@ == v,
        None => r matches Err(e) && (e matches LoaderError::InvalidURL(
            UrlError::JsonFragmentError(m),
        ) && m@ == not_found_message(frag, dv)),
    }
}

/// The orchestrator: owns the cache store and composes canonicalization,
/// lookup, an injected fetch-and-decode step, and fragment extraction.
pub struct Loader {
    cache: CacheStore,
}

impl Loader {
    /// The cached documents, keyed by the resource key's textual form.
    pub closed spec fn spec_map(self) -> Map<Seq<char>, SharedDocument> {
        self.cache.spec_map()
    }

    /// The cache's hit and miss counters.
    pub closed spec fn spec_stats(self) -> Stats {
        self.cache.spec_stats()
    }

    /// A loader with an empty cache and zeroed counters.
    pub fn new() -> (r: Loader)
        ensures
            r.spec_map() == Map::<Seq<char>, SharedDocument>::empty(),
            r.spec_stats().spec_hits() == 0,
            r.spec_stats().spec_misses() == 0,
    {
        Loader { cache: CacheStore::new() }
    }

    /// Look a key up in the cache store, counting a hit or a miss.
    pub fn get_from_cache(&mut self, key: &CanonicalUrl) -> (r: Option<SharedDocument>)
        ensures
            final(self).spec_map() == old(self).spec_map(),
            match r {
                Some(d) => {
                    &&& old(self).spec_map().contains_key(key@.to_seq())
                    &&& d == old(self).spec_map()[key@.to_seq()]
                    &&& final(self).spec_stats().spec_hits() == saturating_incr(
                        old(self).spec_stats().spec_hits(),
                    )
                    &&& final(self).spec_stats().spec_misses() == old(self).spec_stats().spec_misses()
                },
                None => {
                    &&& !old(self).spec_map().contains_key(key@.to_seq())
                    &&& final(self).spec_stats().spec_misses() == saturating_incr(
                        old(self).spec_stats().spec_misses(),
                    )
                    &&& final(self).spec_stats().spec_hits() == old(self).spec_stats().spec_hits()
                },
            },
    {
        self.cache.get(key)
    }

    /// Insert or replace the cache entry for a key with a shared handle.
    pub fn save_in_cache(&mut self, key: &CanonicalUrl, value: &SharedDocument)
        ensures
            final(self).spec_map() == old(self).spec_map().insert(key@.to_seq(), *value),
            final(self).spec_stats() == old(self).spec_stats(),
    {
        self.cache.set_shared(key, share_document(value));
    }

    /// Canonicalize the URL and seed the cache under its resource key,
    /// without fetching.
    pub fn set(&mut self, raw_url: &str, value: Document) -> (r: Result<(), LoaderError>)
        ensures
            final(self).spec_stats() == old(self).spec_stats(),
            match canonicalize_spec(raw_url@) {
                CanonicalOutcome::Canonical(c) => {
                    &&& r is Ok
                    &&& final(self).spec_map().contains_key(c.resource_key_spec().to_seq())
                    &&& final(self).spec_map()[c.resource_key_spec().to_seq()] == value
                    &&& final(self).spec_map() == old(self).spec_map().insert(
                        c.resource_key_spec().to_seq(),
                        final(self).spec_map()[c.resource_key_spec().to_seq()],
                    )
                },
                CanonicalOutcome::BadParse(k) => r == Err::<(), LoaderError>(
                    LoaderError::InvalidURL(UrlError::ParseError(k)),
                ) && final(self).spec_map() == old(self).spec_map(),
                CanonicalOutcome::BadSyntax(k) => r == Err::<(), LoaderError>(
                    LoaderError::InvalidURL(UrlError::SyntaxViolation(k)),
                ) && final(self).spec_map() == old(self).spec_map(),
                CanonicalOutcome::BadFragment(b) => r matches Err(LoaderError::InvalidURL(
                    UrlError::JsonFragmentError(m),
                )) && m@ == b && final(self).spec_map() == old(self).spec_map(),
            },
    {
        match canonicalize(raw_url) {
            Err(e) => Err(LoaderError::InvalidURL(e)),
            Ok(canonical) => {
                let key = canonical.resource_key();
                self.cache.set(&key, value);
                Ok(())
            },
        }
    }

    /// A copy of the hit and miss counters.
    pub fn stats(&self) -> (r: Stats)
        ensures
            r == self.spec_stats(),
    {
        self.cache.stats()
    }

    /// Reset the counters; cached entries stay.
    pub fn clear_stats(&mut self)
        ensures
            final(self).spec_map() == old(self).spec_map(),
            final(self).spec_stats().spec_hits() == 0,
            final(self).spec_stats().spec_misses() == 0,
    {
        self.cache.clear_stats();
    }

    /// Serve the document a raw URL addresses: canonicalize, look the
    /// resource up in the cache; on a miss invoke the injected
    /// fetch-and-decode step with the resource-identity URL and cache its
    /// result on success (a failed fetch is not cached); finally extract the
    /// canonical fragment from the resolved document.
    pub fn get_or_fetch<F: Fn(CanonicalUrl) -> Result<Document, LoaderError>>(
        &mut self,
        raw_url: &str,
        fetch: F,
    ) -> (r: Result<SharedDocument, LoaderError>)
        requires
            forall|u: CanonicalUrl| #[trigger] call_requires(fetch, (u,)),
        ensures
            match canonicalize_spec(raw_url@) {
                CanonicalOutcome::Canonical(c) => {
                    let key = c.resource_key_spec().to_seq();
                    &&& (r is Ok ==> final(self).spec_map().contains_key(key))
                    &&& if old(self).spec_map().contains_key(key) {
                        &&& final(self).spec_map() == old(self).spec_map()
                        &&& final(self).spec_stats().spec_hits() == saturating_incr(
                            old(self).spec_stats().spec_hits(),
                        )
                        &&& final(self).spec_stats().spec_misses() == old(self).spec_stats().spec_misses()
                        &&& extraction_result(old(self).spec_map()[key]@, c.fragment, r)
                        &&& (c.fragment == seq!['/'] ==> (r matches Ok(d) && d == old(
                            self,
                        ).spec_map()[key]))
                    } else {
                        &&& final(self).spec_stats().spec_misses() == saturating_incr(
                            old(self).spec_stats().spec_misses(),
                        )
                        &&& final(self).spec_stats().spec_hits() == old(self).spec_stats().spec_hits()
                        &&& exists|u: CanonicalUrl, fr: Result<Document, LoaderError>|
                            {
                                &&& u@ == c.resource_key_spec()
                                &&& #[trigger] call_ensures(fetch, (u,), fr)
                                &&& match fr {
                                    Ok(d) => {
                                        &&& final(self).spec_map().contains_key(key)
                                        &&& final(self).spec_map()[key]@ == d@
                                        &&& final(self).spec_map() == old(self).spec_map().insert(key, final(self).spec_map()[key])
                                        &&& extraction_result(d@, c.fragment, r)
                                    },
                                    Err(e) => {
                                        &&& r == Err::<SharedDocument, LoaderError>(e)
                                        &&& final(self).spec_map() == old(self).spec_map()
                                    },
                                }
                            }
                    }
                },
                CanonicalOutcome::BadParse(k) => r == Err::<SharedDocument, LoaderError>(
                    LoaderError::InvalidURL(UrlError::ParseError(k)),
                ) && final(self).spec_map() == old(self).spec_map() && final(self).spec_stats()
                    == old(self).spec_stats(),
                CanonicalOutcome::BadSyntax(k) => r == Err::<SharedDocument, LoaderError>(
                    LoaderError::InvalidURL(UrlError::SyntaxViolation(k)),
                ) && final(self).spec_map() == old(self).spec_map() && final(self).spec_stats()
                    == old(self).spec_stats(),
                CanonicalOutcome::BadFragment(b) => r matches Err(LoaderError::InvalidURL(
                    UrlError::JsonFragmentError(m),
                )) && m@ == b && final(self).spec_map() == old(self).spec_map() && final(self).spec_stats() == old(self).spec_stats(),
            },
    {
        let canonical = match canonicalize(raw_url) {
            Err(e) => {
                return Err(LoaderError::InvalidURL(e));
            },
            Ok(c) => c,
        };
        let key = canonical.resource_key();
        let doc = match self.cache.get(&key) {
            Some(d) => d,
            None => {
                let target = canonical.resource_key();
                let ghost target_snapshot = target;
                let fetched = fetch(target);
                proof {
                    assert(call_ensures(fetch, (target_snapshot,), fetched));
                }
                match fetched {
                    Ok(d) => {
                        let shared = std::sync::Arc::new(d);
                        self.cache.set_shared(&key, share_document(&shared));
                        shared
                    },
                    Err(e) => {
                        return Err(e);
                    },
                }
            },
        };
        proof {
            if canonical@.fragment == seq!['/'] {
                assert(canonical@.fragment.skip(1).len() == 0);
                assert(fragment_tokens(canonical@.fragment).len() == 0);
            }
        }
        extract_fragment(&doc, canonical.fragment())
    }
}

impl core::default::Default for Loader {
    fn default() -> (r: Loader)
        ensures
            r.spec_map() == Map::<Seq<char>, SharedDocument>::empty(),
            r.spec_stats().spec_hits() == 0,
            r.spec_stats().spec_misses() == 0,
    {
        Loader::new()
    }
}

} // verus!
