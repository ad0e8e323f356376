//! Directory-bookmarking and navigation core.
//!
//! Two small persistent stores — a list of bookmarked directories and a list
//! of recently visited directories — are merged into one addressable list in
//! which every entry is selected by a single character (`0`-`9`, then
//! `a`-`z`). This crate holds the store logic, the addressing scheme and the
//! newline-delimited persistence format; reading and writing the actual
//! files, and the command-line surface, live outside it.

pub mod bookmarks;
pub mod history;
pub mod pathname;
pub mod selector;
pub mod storefmt;
pub mod subdirs;

use vstd::prelude::*;
use vstd::seq_lib::group_seq_properties;

verus! {

/// Upper bound on the number of bookmarks, and on the addressable part of the
/// unified list: one slot per selection character (`0`-`9`, `a`-`z`).
pub const MAX_ENTRIES: usize = 36;

/// Upper bound on the number of history entries kept.
pub const MAX_HISTORY: usize = 10;

/// No two entries of `s` are equal.
pub open spec fn no_dups(s: Seq<Seq<char>>) -> bool {
    forall|i: int, j: int| 0 <= i < j < s.len() ==> s[i] != s[j]
}

/// Filtering a duplicate-free sequence leaves it duplicate-free.
pub proof fn lemma_filter_keeps_no_dups(s: Seq<Seq<char>>, pred: spec_fn(Seq<char>) -> bool)
    requires
        no_dups(s),
    ensures
        no_dups(s.filter(pred)),
    decreases s.len(),
{
    broadcast use group_seq_properties;

    reveal(Seq::filter);
    if s.len() > 0 {
        let rest = s.drop_last();
        assert(no_dups(rest)) by {
            assert(forall|i: int, j: int|
                0 <= i < j < rest.len() ==> rest[i] == s[i] && rest[j] == s[j]);
        }
        lemma_filter_keeps_no_dups(rest, pred);
        if pred(s.last()) {
            let f = rest.filter(pred);
            assert forall|k: int| 0 <= k < f.len() implies f[k] != s.last() by {
                if f[k] == s.last() {
                    rest.lemma_filter_contains_rev(pred, f[k]);
                    let m = choose|m: int| 0 <= m < rest.len() && rest[m] == f[k];
                    assert(s[m] == s[s.len() - 1]);
                }
            }
            assert(s.filter(pred) == f.push(s.last()));
        }
    }
}

/// Whether the entry list `v` holds a path equal to `p`.
pub fn contains_path(v: &Vec<String>, p: &String) -> (r: bool)
    ensures
        r == v.deep_view().contains(p@),
{
    let mut i: usize = 0;
    while i < v.len()
        invariant
            i <= v.len(),
            forall|j: int| 0 <= j < i ==> v.deep_view()[j] != p@,
        decreases v.len() - i,
    {
        if v[i] == *p {
            assert(v.deep_view()[i as int] == p@);
            return true;
        }
        i += 1;
    }
    false
}

} // verus!
