//! The single-character addressing scheme and the unified selection list.
//!
//! Entries of the unified list are addressed by one character: indices
//! `0`-`9` map to the decimal digits and indices `10`-`35` to the lowercase
//! letters `a`-`z`. Indices at or above 36 have no character and are shown
//! with the sentinel `?`, which never resolves back to an index.

use vstd::prelude::*;
use crate::{contains_path, lemma_filter_keeps_no_dups, no_dups};

verus! {

/// Why a selection failed.
#[derive(Clone, Copy, Debug, PartialEq, Eq, Structural)]
pub enum SelectError {
    /// The selection character is outside `0`-`9` and `a`-`z`.
    InvalidChar,
    /// The character names an index at or past the end of the list, or past
    /// the last addressable slot.
    OutOfRange,
}

/// The history entries that are not already bookmarked, in history order.
pub open spec fn filtered_history(bookmarks: Seq<Seq<char>>, history: Seq<Seq<char>>) -> Seq<
    Seq<char>,
> {
    history.filter(|p: Seq<char>| !bookmarks.contains(p))
}

/// The unified addressable list: the bookmarks in store order, then the
/// history entries not already bookmarked, in history order.
pub open spec fn unified_spec(bookmarks: Seq<Seq<char>>, history: Seq<Seq<char>>) -> Seq<
    Seq<char>,
> {
    bookmarks + filtered_history(bookmarks, history)
}

/// The entry of `list` addressed by `c`, or the reason none is.
pub open spec fn resolve_spec(list: Seq<Seq<char>>, c: char) -> Result<Seq<char>, SelectError> {
    match char_to_index_spec(c) {
        None => Err(SelectError::InvalidChar),
        Some(i) => if i >= list.len() || i >= 36 {
            Err(SelectError::OutOfRange)
        } else {
            Ok(list[i])
        },
    }
}

/// Unambiguous addressing: when neither store holds a path twice, no path
/// appears twice in the unified list either, so each selection character
/// names one directory.
pub proof fn lemma_unified_no_dups(bookmarks: Seq<Seq<char>>, history: Seq<Seq<char>>)
    requires
        no_dups(bookmarks),
        no_dups(history),
    ensures
        no_dups(unified_spec(bookmarks, history)),
{
    let pred = |p: Seq<char>| !bookmarks.contains(p);
    let f = history.filter(pred);
    lemma_filter_keeps_no_dups(history, pred);
    let u = unified_spec(bookmarks, history);
    assert forall|i: int, j: int| 0 <= i < j < u.len() implies u[i] != u[j] by {
        if i < bookmarks.len() && j >= bookmarks.len() {
            history.lemma_filter_pred(pred, j - bookmarks.len());
            assert(pred(f[j - bookmarks.len()]));
            if u[i] == u[j] {
                assert(bookmarks.contains(u[j]));
            }
        } else if i >= bookmarks.len() {
            assert(f[i - bookmarks.len()] != f[j - bookmarks.len()]);
        }
    }
}

/// Builds the unified addressable list from the two stores' entries:
/// bookmarks first, then the history entries not already bookmarked, both in
/// their own order. Its length is the bookmark count plus the count of
/// history entries that are not bookmarks.
pub fn build(bookmarks: &Vec<String>, history: &Vec<String>) -> (r: Vec<String>)
    ensures
        r.deep_view() == unified_spec(bookmarks.deep_view(), history.deep_view()),
        r.deep_view().len() == bookmarks.deep_view().len() + filtered_history(
            bookmarks.deep_view(),
            history.deep_view(),
        ).len(),
{
    let ghost bs = bookmarks.deep_view();
    let ghost hs = history.deep_view();
    let ghost pred = |p: Seq<char>| !bs.contains(p);
    let mut r: Vec<String> = Vec::new();
    let mut i: usize = 0;
    while i < bookmarks.len()
        invariant
            i <= bookmarks.len(),
            bookmarks.deep_view() == bs,
            bs.len() == bookmarks.len(),
            r.deep_view() == bs.take(i as int),
        decreases bookmarks.len() - i,
    {
        let ghost rv = r.deep_view();
        r.push(bookmarks[i].clone());
        proof {
            assert(r.deep_view() =~= rv.push(bs[i as int]));
            assert(rv.push(bs[i as int]) =~= bs.take(i + 1 as int));
        }
        i += 1;
    }
    proof {
        assert(bs.take(bs.len() as int) =~= bs);
        assert(hs.take(0) =~= Seq::<Seq<char>>::empty());
        reveal(Seq::filter);
        assert(r.deep_view() =~= bs + hs.take(0).filter(pred));
    }
    let mut j: usize = 0;
    while j < history.len()
        invariant
            j <= history.len(),
            bookmarks.deep_view() == bs,
            history.deep_view() == hs,
            hs.len() == history.len(),
            r.deep_view() == bs + hs.take(j as int).filter(pred),
            pred == (|p: Seq<char>| !bs.contains(p)),
        decreases history.len() - j,
    {
        let ghost taken = hs.take(j as int);
        let ghost taken1 = hs.take(j + 1 as int);
        proof {
            reveal(Seq::filter);
            assert(taken1.drop_last() =~= taken);
            assert(taken1.last() == hs[j as int]);
        }
        if !contains_path(bookmarks, &history[j]) {
            let ghost rv = r.deep_view();
            r.push(history[j].clone());
            proof {
                assert(pred(hs[j as int]));
                assert(taken1.filter(pred) == taken.filter(pred).push(hs[j as int]));
                assert(r.deep_view() =~= rv.push(hs[j as int]));
                assert(rv.push(hs[j as int]) =~= bs + taken1.filter(pred));
            }
        } else {
            proof {
                assert(!pred(hs[j as int]));
                assert(taken1.filter(pred) == taken.filter(pred));
            }
        }
        j += 1;
    }
    proof {
        assert(hs.take(hs.len() as int) =~= hs);
    }
    r
}

/// Resolves a selection character against the addressable list: the entry at
/// the index the character names, or the exact failure — `InvalidChar` for a
/// character outside the addressing alphabet, `OutOfRange` for an index at or
/// past the end of the list or past index 35.
pub fn resolve(list: &Vec<String>, c: char) -> (r: Result<String, SelectError>)
    ensures
        match r {
            Ok(p) => resolve_spec(list.deep_view(), c) == Ok::<Seq<char>, SelectError>(p@),
            Err(e) => resolve_spec(list.deep_view(), c) == Err::<Seq<char>, SelectError>(e),
        },
{
    match char_to_index(c) {
        None => Err(SelectError::InvalidChar),
        Some(i) => {
            if i < list.len() && i < 36 {
                Ok(list[i].clone())
            } else {
                Err(SelectError::OutOfRange)
            }
        },
    }
}

/// The character that addresses index `i`: a digit for `0 <= i < 10`, a
/// lowercase letter for `10 <= i < 36`, and the sentinel `?` otherwise.
pub open spec fn index_to_char_spec(i: int) -> char {
    if 0 <= i < 10 {
        ((48 + i) as u8) as char
    } else if 10 <= i < 36 {
        ((87 + i) as u8) as char
    } else {
        '?'
    }
}

/// The index addressed by character `c`, if any: digits give `0`-`9`,
/// lowercase letters give `10`-`35`, every other character gives `None`.
pub open spec fn char_to_index_spec(c: char) -> Option<int> {
    if '0' <= c && c <= '9' {
        Some(c as int - 48)
    } else if 'a' <= c && c <= 'z' {
        Some(c as int - 87)
    } else {
        None
    }
}

/// Returns the selection character for index `i`.
pub fn index_to_char(i: usize) -> (c: char)
    ensures
        c == index_to_char_spec(i as int),
{
    if i < 10 {
        (48 + i as u8) as char
    } else if i < 36 {
        (87 + i as u8) as char
    } else {
        '?'
    }
}

/// Returns the index selected by character `c`, or `None` for a character
/// outside `0`-`9` and `a`-`z`.
pub fn char_to_index(c: char) -> (r: Option<usize>)
    ensures
        match r {
            Some(i) => char_to_index_spec(c) == Some(i as int),
            None => char_to_index_spec(c) is None,
        },
{
    if '0' <= c && c <= '9' {
        Some((c as u8 - 48) as usize)
    } else if 'a' <= c && c <= 'z' {
        Some((c as u8 - 87) as usize)
    } else {
        None
    }
}

/// Round trip of the addressing scheme: every index in the addressable range
/// maps to a character that maps back to the same index.
pub proof fn lemma_char_round_trip(i: int)
    requires
        0 <= i < 36,
    ensures
        char_to_index_spec(index_to_char_spec(i)) == Some(i),
{
}

/// The inverse round trip: every character that names an index is the
/// character of that index.
pub proof fn lemma_index_round_trip(c: char)
    ensures
        match char_to_index_spec(c) {
            Some(i) => index_to_char_spec(i) == c,
            None => true,
        },
{
}

} // verus!
