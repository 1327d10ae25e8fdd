//! Plain data describing one pass over the search path: for every directory,
//! the entries a front-end could list, with the metadata it could read for
//! each. The front-end does the filesystem calls; deciding which entries
//! count as runnable programs happens here, in verified code.

use vstd::prelude::*;

verus! {

/// Filesystem metadata for one directory entry, after following symlinks.
#[derive(Clone, Copy)]
pub struct FileMeta {
    /// Whether the entry is a regular file.
    pub is_regular: bool,
    /// The raw permission/type bits of the file, as the platform reports them.
    pub mode: u32,
}

/// One entry of a listed directory. `meta` is `None` when the metadata
/// could not be read; such an entry never counts as a program.
pub struct ScanEntry {
    /// The entry's base name.
    pub name: String,
    /// The entry's metadata, if it could be read.
    pub meta: Option<FileMeta>,
}

/// One directory of the search path. `entries` is `None` when the directory
/// could not be listed (missing, unreadable, or not a directory); such a
/// directory contributes no names, and the remaining directories are still
/// scanned.
pub struct ScanDir {
    /// The directory's immediate entries, if it could be listed.
    pub entries: Option<Vec<ScanEntry>>,
}

/// The owner-read permission bit: the filter that decides whether a regular
/// file counts as a runnable program.
pub const OWNER_READ_BIT: u32 = 0o400;

impl ScanEntry {
    /// The entry denotes a runnable program: its metadata was readable and
    /// says it is a regular file with the owner-read bit set.
    pub open spec fn accepted(self) -> bool {
        match self.meta {
            Some(m) => m.is_regular && (m.mode & OWNER_READ_BIT) != 0,
            None => false,
        }
    }
}

impl ScanDir {
    /// The directory could be listed.
    pub open spec fn listed(self) -> bool {
        self.entries is Some
    }

    /// The entries of the directory, for a directory that could be listed.
    pub open spec fn entry_seq(self) -> Seq<ScanEntry>
        recommends
            self.listed(),
    {
        self.entries.unwrap()@
    }

    /// The directory offers a program named `n`: among its first `upto`
    /// entries, some accepted entry has that name.
    pub open spec fn offers_upto(self, upto: int, n: Seq<char>) -> bool {
        self.listed() && exists|j: int|
            0 <= j < upto && j < self.entry_seq().len() && (#[trigger] self.entry_seq()[j]).accepted()
                && self.entry_seq()[j].name@ == n
    }

    /// The directory offers a program named `n`.
    pub open spec fn offers(self, n: Seq<char>) -> bool {
        self.offers_upto(self.entry_seq().len() as int, n)
    }
}

/// Among the first `upto` directories, some directory offers a program
/// named `n`.
pub open spec fn dirs_offer_upto(dirs: Seq<ScanDir>, upto: int, n: Seq<char>) -> bool {
    exists|i: int| 0 <= i < upto && i < dirs.len() && (#[trigger] dirs[i]).offers(n)
}

/// Some directory of the scan offers a program named `n`.
pub open spec fn scan_offers(dirs: Seq<ScanDir>, n: Seq<char>) -> bool {
    dirs_offer_upto(dirs, dirs.len() as int, n)
}

/// Extending the scanned part of a directory by one entry offers that
/// entry's name exactly when the entry is accepted.
pub proof fn lemma_offers_upto_step(d: ScanDir, j: int, n: Seq<char>)
    requires
        d.listed(),
        0 <= j < d.entry_seq().len(),
    ensures
        d.offers_upto(j + 1, n) == (d.offers_upto(j, n) || (d.entry_seq()[j].accepted()
            && d.entry_seq()[j].name@ == n)),
{
    let es = d.entry_seq();
    if d.offers_upto(j + 1, n) {
        let jj = choose|jj: int|
            0 <= jj < j + 1 && jj < es.len() && (#[trigger] es[jj]).accepted() && es[jj].name@
                == n;
        if jj < j {
            assert(d.offers_upto(j, n));
        }
    }
    if d.offers_upto(j, n) {
        let jj = choose|jj: int|
            0 <= jj < j && jj < es.len() && (#[trigger] es[jj]).accepted() && es[jj].name@ == n;
        assert(0 <= jj < j + 1 && jj < es.len() && es[jj].accepted() && es[jj].name@ == n);
        assert(d.offers_upto(j + 1, n));
    }
    if es[j].accepted() && es[j].name@ == n {
        assert(0 <= j < j + 1 && j < es.len() && es[j].accepted() && es[j].name@ == n);
        assert(d.offers_upto(j + 1, n));
    }
}

/// Extending the scanned part of the search path by one directory offers a
/// name exactly when that directory offers it.
pub proof fn lemma_dirs_offer_upto_step(dirs: Seq<ScanDir>, i: int, n: Seq<char>)
    requires
        0 <= i < dirs.len(),
    ensures
        dirs_offer_upto(dirs, i + 1, n) == (dirs_offer_upto(dirs, i, n) || dirs[i].offers(n)),
{
    if dirs_offer_upto(dirs, i + 1, n) {
        let ii = choose|ii: int|
            0 <= ii < i + 1 && ii < dirs.len() && (#[trigger] dirs[ii]).offers(n);
        if ii < i {
            assert(dirs_offer_upto(dirs, i, n));
        }
    }
    if dirs_offer_upto(dirs, i, n) {
        let ii = choose|ii: int| 0 <= ii < i && ii < dirs.len() && (#[trigger] dirs[ii]).offers(n);
        assert(0 <= ii < i + 1 && ii < dirs.len() && dirs[ii].offers(n));
        assert(dirs_offer_upto(dirs, i + 1, n));
    }
    if dirs[i].offers(n) {
        assert(0 <= i < i + 1 && i < dirs.len() && dirs[i].offers(n));
        assert(dirs_offer_upto(dirs, i + 1, n));
    }
}

/// A directory that could not be listed contributes nothing and stops
/// nothing: inserting such a directory anywhere in the search path leaves
/// the set of offered names exactly as it was.
pub proof fn lemma_unlistable_dir_contributes_nothing(
    dirs: Seq<ScanDir>,
    d: ScanDir,
    pos: int,
    n: Seq<char>,
)
    requires
        !d.listed(),
        0 <= pos <= dirs.len(),
    ensures
        scan_offers(dirs.insert(pos, d), n) == scan_offers(dirs, n),
{
    let w = dirs.insert(pos, d);
    dirs.insert_ensures(pos, d);
    if scan_offers(w, n) {
        let ii = choose|ii: int| 0 <= ii < w.len() && ii < w.len() && (#[trigger] w[ii]).offers(n);
        if ii < pos {
            assert(w[ii] == dirs[ii]);
            assert(0 <= ii < dirs.len() && dirs[ii].offers(n));
            assert(scan_offers(dirs, n));
        } else if ii == pos {
            // the inserted directory offers nothing: it was never listed
            assert(w[pos] == d);
            assert(false);
        } else {
            assert(w[(ii - 1) + 1] == dirs[ii - 1]);
            assert(0 <= ii - 1 < dirs.len() && dirs[ii - 1].offers(n));
            assert(scan_offers(dirs, n));
        }
    }
    if scan_offers(dirs, n) {
        let ii = choose|ii: int|
            0 <= ii < dirs.len() && ii < dirs.len() && (#[trigger] dirs[ii]).offers(n);
        if ii < pos {
            assert(w[ii] == dirs[ii]);
            assert(0 <= ii < w.len() && w[ii].offers(n));
        } else {
            assert(w[ii + 1] == dirs[ii]);
            assert(0 <= ii + 1 < w.len() && w[ii + 1].offers(n));
        }
        assert(scan_offers(w, n));
    }
}

/// Decides `accepted` for one entry.
pub fn entry_accepted(e: &ScanEntry) -> (r: bool)
    ensures
        r == e.accepted(),
{
    match &e.meta {
        Some(m) => m.is_regular && (m.mode & OWNER_READ_BIT) != 0,
        None => false,
    }
}

} // verus!
