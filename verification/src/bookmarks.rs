//! The bookmark store: an ordered, duplicate-free list of directory paths,
//! at most [`crate::MAX_ENTRIES`] long. Insertion order is display and
//! addressing order; entries are never reordered.

use vstd::prelude::*;
use crate::{contains_path, no_dups, lemma_filter_keeps_no_dups, MAX_ENTRIES};

verus! {

/// What became of an attempt to bookmark a path.
#[derive(Clone, Copy, Debug, PartialEq, Eq, Structural)]
pub enum AddOutcome {
    /// The path was appended to the store.
    Added,
    /// The path was already bookmarked; the store is unchanged. A warning,
    /// not a fatal condition.
    AlreadyPresent,
    /// The store already holds the maximum number of entries; the store is
    /// unchanged. A fatal condition.
    AtCapacity,
}

/// The ordered list of bookmarked directory paths.
///
/// A store reached from [`BookmarkStore::new`] by `add` and `remove` calls is
/// well formed: it never exceeds [`crate::MAX_ENTRIES`] entries and never
/// holds the same path twice. A store loaded from an externally edited file
/// ([`BookmarkStore::from_entries`]) carries no such guarantee.
pub struct BookmarkStore {
    entries: Vec<String>,
}

impl View for BookmarkStore {
    type V = Seq<Seq<char>>;

    closed spec fn view(&self) -> Seq<Seq<char>> {
        self.entries.deep_view()
    }
}

impl BookmarkStore {
    /// Well-formedness: within capacity and duplicate-free.
    pub open spec fn wf(self) -> bool {
        self@.len() <= MAX_ENTRIES && no_dups(self@)
    }

    /// An empty store.
    pub fn new() -> (s: Self)
        ensures
            s@ == Seq::<Seq<char>>::empty(),
            s.wf(),
    {
        let s = BookmarkStore { entries: Vec::new() };
        proof {
            assert(s@ =~= Seq::<Seq<char>>::empty());
        }
        s
    }

    /// A store holding exactly `entries`, in order — the load path, fed with
    /// whatever the backing file held.
    pub fn from_entries(entries: Vec<String>) -> (s: Self)
        ensures
            s@ == entries.deep_view(),
    {
        BookmarkStore { entries }
    }

    /// The entries, in store order.
    pub fn entries(&self) -> (r: &Vec<String>)
        ensures
            r.deep_view() == self@,
    {
        &self.entries
    }

    /// Bookmarks `path`: a no-op on a path already present, refused at
    /// capacity, appended otherwise.
    pub fn add(&mut self, path: String) -> (r: AddOutcome)
        ensures
            old(self)@.contains(path@) ==> r == AddOutcome::AlreadyPresent
                && final(self)@ == old(self)@,
            !old(self)@.contains(path@) && old(self)@.len() >= MAX_ENTRIES
                ==> r == AddOutcome::AtCapacity && final(self)@ == old(self)@,
            !old(self)@.contains(path@) && old(self)@.len() < MAX_ENTRIES
                ==> r == AddOutcome::Added && final(self)@ == old(self)@.push(path@),
            old(self).wf() ==> final(self).wf(),
    {
        if contains_path(&self.entries, &path) {
            AddOutcome::AlreadyPresent
        } else if self.entries.len() >= MAX_ENTRIES {
            AddOutcome::AtCapacity
        } else {
            let ghost pre = self@;
            self.entries.push(path);
            proof {
                assert(self@ =~= pre.push(self@[pre.len() as int]));
                if no_dups(pre) {
                    assert forall|i: int, j: int| 0 <= i < j < self@.len()
                        implies self@[i] != self@[j] by {
                        if j == pre.len() {
                            assert(!pre.contains(self@[j]));
                        }
                    }
                }
            }
            AddOutcome::Added
        }
    }

    /// Removes every entry equal to `path`; reports whether any was present.
    pub fn remove(&mut self, path: &String) -> (removed: bool)
        ensures
            final(self)@ == old(self)@.filter(|q: Seq<char>| q != path@),
            removed == old(self)@.contains(path@),
            !final(self)@.contains(path@),
            old(self).wf() ==> final(self).wf(),
    {
        let ghost s = self@;
        let ghost pred = |q: Seq<char>| q != path@;
        let mut kept: Vec<String> = Vec::new();
        let mut found = false;
        let mut i: usize = 0;
        proof {
            assert(s.take(0) =~= Seq::<Seq<char>>::empty());
            reveal(Seq::filter);
        }
        while i < self.entries.len()
            invariant
                i <= self.entries.len(),
                self@ == s,
                s.len() == self.entries.len(),
                kept.deep_view() == s.take(i as int).filter(pred),
                found == s.take(i as int).contains(path@),
                pred == (|q: Seq<char>| q != path@),
            decreases self.entries.len() - i,
        {
            let ghost taken = s.take(i as int);
            let ghost taken1 = s.take(i + 1 as int);
            proof {
                reveal(Seq::filter);
                assert(taken1.drop_last() =~= taken);
                assert(taken1.last() == s[i as int]);
            }
            if self.entries[i] == *path {
                found = true;
                proof {
                    assert(taken1[i as int] == path@);
                    assert(taken1.contains(path@));
                }
            } else {
                let ghost kv = kept.deep_view();
                kept.push(self.entries[i].clone());
                proof {
                    assert(kept.deep_view() =~= kv.push(s[i as int]));
                    assert(taken1.filter(pred) == taken.filter(pred).push(s[i as int]));
                    if taken1.contains(path@) {
                        let m = choose|m: int| 0 <= m < taken1.len() && taken1[m] == path@;
                        assert(m < taken.len() && taken[m] == path@);
                        assert(taken.contains(path@));
                    }
                    if taken.contains(path@) {
                        let m = choose|m: int| 0 <= m < taken.len() && taken[m] == path@;
                        assert(taken1[m] == path@);
                        assert(taken1.contains(path@));
                    }
                }
            }
            i += 1;
        }
        proof {
            assert(s.take(s.len() as int) =~= s);
        }
        self.entries = kept;
        proof {
            if no_dups(s) {
                lemma_filter_keeps_no_dups(s, pred);
                s.lemma_filter_len(pred);
            }
            assert forall|k: int| 0 <= k < self@.len() implies self@[k] != path@ by {
                s.lemma_filter_pred(pred, k);
            }
        }
        found
    }

    /// Forgets every bookmark.
    pub fn clear(&mut self)
        ensures
            final(self)@ == Seq::<Seq<char>>::empty(),
            final(self).wf(),
    {
        self.entries.clear();
        proof {
            assert(self@ =~= Seq::<Seq<char>>::empty());
        }
    }
}

} // verus!
