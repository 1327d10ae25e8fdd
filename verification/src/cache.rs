//! The catalog cache: builds the catalog at most once, keeps the result as
//! an immutable snapshot, and answers every query from that snapshot.
//!
//! A front-end owns one `CatalogCache`, hands it the raw scan of the search
//! path when it wants the catalog warmed up, and queries it on every
//! completion request. Warming up an already-warm cache changes nothing, so
//! however many times — and from however many places — the warm-up is
//! triggered, only one build happens and every caller sees the same
//! snapshot.

use vstd::prelude::*;

use crate::catalog::{built_from, build_catalog, candidates, Catalog};
use crate::order::{seq_has, views_sorted};
use crate::scan::ScanDir;

verus! {

/// Holds the catalog once it has been built. The catalog inside is never
/// replaced: after the first warm-up the cache is read-only.
pub struct CatalogCache {
    pub catalog: Option<Catalog>,
}

impl CatalogCache {
    /// The one-time build has happened.
    pub open spec fn is_built(self) -> bool {
        self.catalog is Some
    }

    /// The immutable snapshot, once built.
    pub open spec fn snapshot(self) -> Catalog
        recommends
            self.is_built(),
    {
        self.catalog.unwrap()
    }

    /// Whatever catalog the cache holds is well formed.
    pub open spec fn wf(self) -> bool {
        self.is_built() ==> self.snapshot().well_formed()
    }

    /// A fresh cache: nothing built yet.
    pub fn new() -> (c: CatalogCache)
        ensures
            !c.is_built(),
            c.wf(),
    {
        CatalogCache { catalog: None }
    }

    /// Triggers the one-time build. The first call builds the catalog from
    /// the scan it is given; every later call leaves the cache exactly as
    /// it is, whatever scan it is given — the catalog is built once and
    /// never rebuilt.
    pub fn warm_up(&mut self, scan: &Vec<ScanDir>)
        requires
            old(self).wf(),
        ensures
            final(self).is_built(),
            final(self).wf(),
            old(self).is_built() ==> *final(self) == *old(self),
            !old(self).is_built() ==> built_from(final(self).snapshot(), scan@),
    {
        if self.catalog.is_none() {
            let built = build_catalog(scan);
            self.catalog = Some(built);
        }
    }

    /// Answers a prefix query from the snapshot: exactly the catalog names
    /// that start with `prefix`, in catalog order.
    pub fn query(&self, prefix: &str) -> (r: Vec<String>)
        requires
            self.is_built(),
            self.wf(),
        ensures
            views_sorted(r@),
            forall|n: Seq<char>| #[trigger] seq_has(r@, n) <==> self.snapshot().has(n)
                && prefix@.is_prefix_of(n),
    {
        let snapshot = self.catalog.as_ref().unwrap();
        candidates(snapshot, prefix)
    }
}

} // verus!
