//! The history store: the most recently visited directories, most recent
//! first, duplicate-free, truncated to the [`crate::MAX_HISTORY`] newest.

use vstd::prelude::*;
use crate::{no_dups, lemma_filter_keeps_no_dups, MAX_HISTORY};

verus! {

/// The history after a visit to `p`: `p` moves (or enters) at the front, any
/// earlier occurrence of `p` is dropped, and only the `MAX_HISTORY` most
/// recent entries are kept.
pub open spec fn record_visit_spec(h: Seq<Seq<char>>, p: Seq<char>) -> Seq<Seq<char>> {
    let moved = seq![p] + h.filter(|q: Seq<char>| q != p);
    if moved.len() <= MAX_HISTORY {
        moved
    } else {
        moved.take(MAX_HISTORY as int)
    }
}

/// The ordered list of recently visited directory paths, most recent first.
///
/// A store reached from [`HistoryStore::new`] by `record_visit` calls is well
/// formed: at most [`crate::MAX_HISTORY`] entries, no path twice, the most
/// recent visit at index 0. A store loaded from an externally edited file
/// ([`HistoryStore::from_entries`]) carries no such guarantee.
pub struct HistoryStore {
    entries: Vec<String>,
}

impl View for HistoryStore {
    type V = Seq<Seq<char>>;

    closed spec fn view(&self) -> Seq<Seq<char>> {
        self.entries.deep_view()
    }
}

impl HistoryStore {
    /// Well-formedness: within capacity and duplicate-free.
    pub open spec fn wf(self) -> bool {
        self@.len() <= MAX_HISTORY && no_dups(self@)
    }

    /// An empty store.
    pub fn new() -> (s: Self)
        ensures
            s@ == Seq::<Seq<char>>::empty(),
            s.wf(),
    {
        let s = HistoryStore { entries: Vec::new() };
        proof {
            assert(s@ =~= Seq::<Seq<char>>::empty());
        }
        s
    }

    /// A store holding exactly `entries`, in order — the load path, fed with
    /// whatever the backing file held.
    pub fn from_entries(entries: Vec<String>) -> (s: Self)
        ensures
            s@ == entries.deep_view(),
    {
        HistoryStore { entries }
    }

    /// The entries, most recent first.
    pub fn entries(&self) -> (r: &Vec<String>)
        ensures
            r.deep_view() == self@,
    {
        &self.entries
    }

    /// Records a visit to `path`: any earlier occurrence is dropped, `path`
    /// goes to the front, and the store is truncated to the
    /// [`crate::MAX_HISTORY`] most recent entries.
    pub fn record_visit(&mut self, path: String)
        ensures
            final(self)@ == record_visit_spec(old(self)@, path@),
            1 <= final(self)@.len() <= MAX_HISTORY,
            final(self)@[0] == path@,
            forall|k: int| 1 <= k < final(self)@.len() ==> final(self)@[k] != path@,
            old(self).wf() ==> final(self).wf(),
    {
        let ghost s = self@;
        let ghost pred = |q: Seq<char>| q != path@;
        let mut kept: Vec<String> = Vec::new();
        let mut i: usize = 0;
        proof {
            assert(s.take(0) =~= Seq::<Seq<char>>::empty());
            reveal(Seq::filter);
        }
        while i < self.entries.len()
            invariant
                i <= self.entries.len(),
                self@ == s,
                s.len() == self.entries.len(),
                kept.deep_view() == s.take(i as int).filter(pred),
                pred == (|q: Seq<char>| q != path@),
            decreases self.entries.len() - i,
        {
            let ghost taken = s.take(i as int);
            let ghost taken1 = s.take(i + 1 as int);
            proof {
                reveal(Seq::filter);
                assert(taken1.drop_last() =~= taken);
                assert(taken1.last() == s[i as int]);
            }
            if !(self.entries[i] == path) {
                let ghost kv = kept.deep_view();
                kept.push(self.entries[i].clone());
                proof {
                    assert(kept.deep_view() =~= kv.push(s[i as int]));
                    assert(taken1.filter(pred) == taken.filter(pred).push(s[i as int]));
                }
            }
            i += 1;
        }
        proof {
            assert(s.take(s.len() as int) =~= s);
        }
        kept.insert(0, path);
        let ghost moved = seq![path@] + s.filter(pred);
        proof {
            assert(kept.deep_view() =~= moved);
        }
        if kept.len() > MAX_HISTORY {
            kept.truncate(MAX_HISTORY);
            proof {
                assert(kept.deep_view() =~= moved.take(MAX_HISTORY as int));
            }
        }
        self.entries = kept;
        proof {
            assert forall|k: int| 1 <= k < self@.len() implies self@[k] != path@ by {
                s.lemma_filter_pred(pred, k - 1);
            }
            if no_dups(s) {
                lemma_filter_keeps_no_dups(s, pred);
                let f = s.filter(pred);
                assert forall|a: int, b: int| 0 <= a < b < moved.len()
                    implies moved[a] != moved[b] by {
                    if a == 0 {
                        s.lemma_filter_pred(pred, b - 1);
                    } else {
                        assert(f[a - 1] != f[b - 1]);
                    }
                }
                assert(no_dups(moved));
                assert forall|a: int, b: int| 0 <= a < b < self@.len()
                    implies self@[a] != self@[b] by {
                    assert(self@[a] == moved[a] && self@[b] == moved[b]);
                }
            }
        }
    }

    /// The most recently visited directory, or `None` on an empty history —
    /// the empty-history failure of the "back" action.
    pub fn most_recent(&self) -> (r: Option<String>)
        ensures
            match r {
                Some(p) => self@.len() > 0 && p@ == self@[0],
                None => self@.len() == 0,
            },
    {
        if self.entries.len() > 0 {
            Some(self.entries[0].clone())
        } else {
            None
        }
    }
}

} // verus!
