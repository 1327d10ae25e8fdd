//! The catalog: the sorted, duplicate-free list of program names found on
//! the search path, and the prefix query answered from it.

use vstd::prelude::*;

use crate::order::{
    lemma_lex_lt_irreflexive, lemma_sorted_views_unique, lex_lt, insert_name, seq_has,
    str_starts_with, views_sorted,
};
use crate::scan::{
    dirs_offer_upto, lemma_dirs_offer_upto_step, lemma_offers_upto_step, scan_offers,
    entry_accepted, ScanDir,
};

verus! {

/// The catalog of program names: lexicographically sorted and free of
/// duplicates once well formed. Immutable by convention: it is built once
/// and only read afterwards.
pub struct Catalog {
    pub names: Vec<String>,
}

impl Catalog {
    /// The names are strictly ascending, which also means no name repeats.
    pub open spec fn well_formed(self) -> bool {
        views_sorted(self.names@)
    }

    /// The catalog lists a program named `n`.
    pub open spec fn has(self, n: Seq<char>) -> bool {
        seq_has(self.names@, n)
    }

    /// How many names the catalog lists.
    pub fn count(&self) -> (r: usize)
        ensures
            r == self.names@.len(),
    {
        self.names.len()
    }
}

/// `c` is the catalog of the scan `dirs`: sorted, duplicate-free, and
/// listing exactly the names that some search-path directory offers.
pub open spec fn built_from(c: Catalog, dirs: Seq<ScanDir>) -> bool {
    &&& c.well_formed()
    &&& forall|n: Seq<char>| #[trigger] c.has(n) <==> scan_offers(dirs, n)
}

/// Builds the catalog from one scan of the search path: every accepted
/// entry's name is retained once, whichever directories it came from, and
/// the names come out in ascending lexicographic order. Directories that
/// could not be listed and entries whose metadata could not be read
/// contribute nothing and stop nothing.
pub fn build_catalog(dirs: &Vec<ScanDir>) -> (c: Catalog)
    ensures
        built_from(c, dirs@),
{
    let mut names: Vec<String> = Vec::new();
    let mut i: usize = 0;
    while i < dirs.len()
        invariant
            views_sorted(names@),
            i <= dirs@.len(),
            forall|n: Seq<char>| #[trigger] seq_has(names@, n) <==> dirs_offer_upto(
                dirs@,
                i as int,
                n,
            ),
        decreases dirs@.len() - i,
    {
        let ghost di = dirs@[i as int];
        match &dirs[i].entries {
            None => {
                proof {
                    assert(!di.listed());
                }
            },
            Some(entries) => {
                let mut j: usize = 0;
                while j < entries.len()
                    invariant
                        views_sorted(names@),
                        j <= entries@.len(),
                        i < dirs@.len(),
                        di == dirs@[i as int],
                        di.listed(),
                        di.entry_seq() == entries@,
                        forall|n: Seq<char>| #[trigger] seq_has(names@, n) <==> (dirs_offer_upto(
                            dirs@,
                            i as int,
                            n,
                        ) || di.offers_upto(j as int, n)),
                    decreases entries@.len() - j,
                {
                    if entry_accepted(&entries[j]) {
                        let nm = entries[j].name.clone();
                        insert_name(&mut names, nm);
                    }
                    proof {
                        assert forall|n: Seq<char>| #[trigger] seq_has(names@, n)
                            <==> (dirs_offer_upto(dirs@, i as int, n) || di.offers_upto(
                            j as int + 1,
                            n,
                        )) by {
                            lemma_offers_upto_step(di, j as int, n);
                        }
                    }
                    j = j + 1;
                }
            },
        }
        proof {
            assert forall|n: Seq<char>| #[trigger] seq_has(names@, n) <==> dirs_offer_upto(
                dirs@,
                i as int + 1,
                n,
            ) by {
                lemma_dirs_offer_upto_step(dirs@, i as int, n);
            }
        }
        i = i + 1;
    }
    Catalog { names }
}

/// Answers a prefix query: the names of the catalog that start with
/// `prefix`, in the catalog's order. Every returned name starts with the
/// prefix; every catalog name that starts with the prefix is returned; and
/// the result stays strictly sorted, so it is exactly the matching
/// subsequence of the catalog.
pub fn candidates(catalog: &Catalog, prefix: &str) -> (r: Vec<String>)
    requires
        catalog.well_formed(),
    ensures
        views_sorted(r@),
        forall|n: Seq<char>| #[trigger] seq_has(r@, n) <==> catalog.has(n) && prefix@.is_prefix_of(
            n,
        ),
{
    let mut r: Vec<String> = Vec::new();
    let mut i: usize = 0;
    while i < catalog.names.len()
        invariant
            catalog.well_formed(),
            i <= catalog.names@.len(),
            views_sorted(r@),
            forall|t: int| 0 <= t < r@.len() ==> exists|k: int|
                0 <= k < i && (#[trigger] r@[t])@ == (catalog.names@[k])@,
            forall|n: Seq<char>| #[trigger] seq_has(r@, n) <==> exists|k: int|
                0 <= k < i && (#[trigger] catalog.names@[k])@ == n && prefix@.is_prefix_of(n),
        decreases catalog.names@.len() - i,
    {
        let ghost prior = r@;
        if str_starts_with(catalog.names[i].as_str(), prefix) {
            let nm = catalog.names[i].clone();
            r.push(nm);
            proof {
                assert forall|t: int| 0 <= t < r@.len() implies exists|k: int|
                    0 <= k < i + 1 && (#[trigger] r@[t])@ == (catalog.names@[k])@ by {
                    if t < prior.len() {
                        assert(r@[t] == prior[t]);
                        let k = choose|k: int|
                            0 <= k < i && (#[trigger] prior[t])@ == (catalog.names@[k])@;
                        assert((r@[t])@ == (catalog.names@[k])@);
                    } else {
                        assert((r@[t])@ == (catalog.names@[i as int])@);
                    }
                }
                assert forall|k: int, l: int| 0 <= k < l < r@.len() implies lex_lt(
                    (#[trigger] r@[k])@,
                    (#[trigger] r@[l])@,
                ) by {
                    if l == r@.len() - 1 {
                        let k0 = choose|k0: int|
                            0 <= k0 < i && (#[trigger] prior[k])@ == (catalog.names@[k0])@;
                        assert((r@[k])@ == (catalog.names@[k0])@);
                        assert((r@[l])@ == (catalog.names@[i as int])@);
                        assert(lex_lt((catalog.names@[k0])@, (catalog.names@[i as int])@));
                    } else {
                        assert(r@[k] == prior[k]);
                        assert(r@[l] == prior[l]);
                    }
                }
                assert forall|n: Seq<char>| #[trigger] seq_has(r@, n) <==> exists|k: int|
                    0 <= k < i + 1 && (#[trigger] catalog.names@[k])@ == n
                        && prefix@.is_prefix_of(n) by {
                    if seq_has(r@, n) {
                        let t = choose|t: int| 0 <= t < r@.len() && (#[trigger] r@[t])@ == n;
                        if t < prior.len() {
                            assert(seq_has(prior, n));
                        } else {
                            assert((catalog.names@[i as int])@ == n);
                        }
                    }
                    if exists|k: int|
                        0 <= k < i + 1 && (#[trigger] catalog.names@[k])@ == n
                            && prefix@.is_prefix_of(n) {
                        let k = choose|k: int|
                            0 <= k < i + 1 && (#[trigger] catalog.names@[k])@ == n
                                && prefix@.is_prefix_of(n);
                        if k < i {
                            assert(seq_has(prior, n));
                            let t = choose|t: int|
                                0 <= t < prior.len() && (#[trigger] prior[t])@ == n;
                            assert((r@[t])@ == n);
                        } else {
                            assert((r@[r@.len() - 1])@ == n);
                        }
                    }
                }
            }
        } else {
            proof {
                assert forall|n: Seq<char>| #[trigger] seq_has(r@, n) <==> exists|k: int|
                    0 <= k < i + 1 && (#[trigger] catalog.names@[k])@ == n
                        && prefix@.is_prefix_of(n) by {
                    if exists|k: int|
                        0 <= k < i + 1 && (#[trigger] catalog.names@[k])@ == n
                            && prefix@.is_prefix_of(n) {
                        let k = choose|k: int|
                            0 <= k < i + 1 && (#[trigger] catalog.names@[k])@ == n
                                && prefix@.is_prefix_of(n);
                        assert(k < i);
                    }
                }
            }
        }
        i = i + 1;
    }
    proof {
        assert forall|n: Seq<char>| #[trigger] seq_has(r@, n) <==> catalog.has(n)
            && prefix@.is_prefix_of(n) by {
            if catalog.has(n) && prefix@.is_prefix_of(n) {
                let k = choose|k: int|
                    0 <= k < catalog.names@.len() && (#[trigger] catalog.names@[k])@ == n;
                assert(0 <= k < i && (catalog.names@[k])@ == n && prefix@.is_prefix_of(n));
            }
        }
    }
    r
}

/// A query with the empty prefix returns the whole catalog, name for name,
/// in the catalog's order: any result that satisfies the contract of
/// [`candidates`] for an empty prefix equals the catalog itself.
pub proof fn lemma_empty_prefix_returns_all(c: Catalog, r: Seq<String>)
    requires
        c.well_formed(),
        views_sorted(r),
        forall|n: Seq<char>| #[trigger] seq_has(r, n) <==> c.has(n) && Seq::<char>::empty(
        ).is_prefix_of(n),
    ensures
        r.len() == c.names@.len(),
        forall|k: int| 0 <= k < r.len() ==> (#[trigger] r[k])@ == (c.names@[k])@,
{
    assert forall|n: Seq<char>| seq_has(r, n) <==> seq_has(c.names@, n) by {
        assert(Seq::<char>::empty() =~= n.subrange(0, 0));
        assert(Seq::<char>::empty().is_prefix_of(n));
    }
    lemma_sorted_views_unique(r, c.names@);
}

/// A name offered by two different search-path directories still appears at
/// exactly one position of the catalog.
pub proof fn lemma_shared_name_listed_once(
    c: Catalog,
    dirs: Seq<ScanDir>,
    n: Seq<char>,
    i: int,
    j: int,
)
    requires
        built_from(c, dirs),
        0 <= i < dirs.len(),
        0 <= j < dirs.len(),
        i != j,
        dirs[i].offers(n),
        dirs[j].offers(n),
    ensures
        exists|k: int| 0 <= k < c.names@.len() && (#[trigger] c.names@[k])@ == n,
        forall|k: int, l: int|
            0 <= k < c.names@.len() && 0 <= l < c.names@.len() && (c.names@[k])@ == n && (
            c.names@[l])@ == n ==> k == l,
{
    assert(scan_offers(dirs, n));
    assert(c.has(n));
    lemma_catalog_no_duplicates(c);
    assert forall|k: int, l: int|
        0 <= k < c.names@.len() && 0 <= l < c.names@.len() && (c.names@[k])@ == n && (
        c.names@[l])@ == n implies k == l by {
        if k < l {
            assert((c.names@[k])@ != (c.names@[l])@);
        }
        if l < k {
            assert((c.names@[l])@ != (c.names@[k])@);
        }
    }
}

/// Building the catalog is deterministic in its input: two catalogs built
/// from the same scan agree name for name. Triggering the build again —
/// however many times — cannot change the catalog's content.
pub proof fn lemma_build_deterministic(c1: Catalog, c2: Catalog, dirs: Seq<ScanDir>)
    requires
        built_from(c1, dirs),
        built_from(c2, dirs),
    ensures
        c1.names@.len() == c2.names@.len(),
        forall|k: int| 0 <= k < c1.names@.len() ==> (#[trigger] c1.names@[k])@ == (c2.names@[k])@,
{
    assert forall|n: Seq<char>| seq_has(c1.names@, n) <==> seq_has(c2.names@, n) by {
        assert(c1.has(n) <==> scan_offers(dirs, n));
        assert(c2.has(n) <==> scan_offers(dirs, n));
    }
    lemma_sorted_views_unique(c1.names@, c2.names@);
}

/// The catalog never lists the same name twice.
pub proof fn lemma_catalog_no_duplicates(c: Catalog)
    requires
        c.well_formed(),
    ensures
        forall|k: int, l: int| 0 <= k < l < c.names@.len() ==> (#[trigger] c.names@[k])@ != (
        #[trigger] c.names@[l])@,
{
    assert forall|k: int, l: int| 0 <= k < l < c.names@.len() implies (#[trigger] c.names@[k])@
        != (#[trigger] c.names@[l])@ by {
        lemma_lex_lt_irreflexive((c.names@[k])@);
    }
}

} // verus!
