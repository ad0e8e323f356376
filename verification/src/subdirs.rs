//! Ordering of the subdirectory listing: the immediate subdirectories shown
//! by the "down" action are sorted lexicographically by full path before
//! they are addressed with the selection characters.

use vstd::prelude::*;
use vstd::relations::total_ordering;
use vstd::seq_lib::group_to_multiset_ensures;
use vstd::multiset::group_multiset_axioms;
use vstd::string::StrSliceExecFns;

verus! {

/// Lexicographic order on path text, by character scalar value; a prefix
/// precedes its extensions.
pub open spec fn lex_le(a: Seq<char>, b: Seq<char>) -> bool
    decreases a.len(),
{
    if a.len() == 0 {
        true
    } else if b.len() == 0 {
        false
    } else if a[0] == b[0] {
        lex_le(a.drop_first(), b.drop_first())
    } else {
        (a[0] as int) < (b[0] as int)
    }
}

/// The entries of `s` stand in lexicographic order.
pub open spec fn paths_sorted(s: Seq<Seq<char>>) -> bool {
    forall|i: int, j: int| 0 <= i < j < s.len() ==> #[trigger] lex_le(s[i], s[j])
}

proof fn lemma_lex_le_refl(a: Seq<char>)
    ensures
        lex_le(a, a),
    decreases a.len(),
{
    if a.len() > 0 {
        lemma_lex_le_refl(a.drop_first());
    }
}

proof fn lemma_lex_le_antisym(a: Seq<char>, b: Seq<char>)
    requires
        lex_le(a, b),
        lex_le(b, a),
    ensures
        a == b,
    decreases a.len(),
{
    if a.len() == 0 {
        assert(b.len() == 0);
        assert(a =~= b);
    } else {
        assert(b.len() > 0);
        assert(a[0] == b[0]);
        lemma_lex_le_antisym(a.drop_first(), b.drop_first());
        assert(a.drop_first().len() == a.len() - 1);
        assert(b.drop_first().len() == b.len() - 1);
        assert(a.len() == b.len());
        assert forall|i: int| 0 <= i < a.len() implies a[i] == b[i] by {
            if i > 0 {
                assert(a[i] == a.drop_first()[i - 1]);
                assert(b[i] == b.drop_first()[i - 1]);
            }
        }
        assert(a =~= b);
    }
}

proof fn lemma_lex_le_trans(a: Seq<char>, b: Seq<char>, c: Seq<char>)
    requires
        lex_le(a, b),
        lex_le(b, c),
    ensures
        lex_le(a, c),
    decreases a.len(),
{
    if a.len() > 0 && b.len() > 0 && c.len() > 0 {
        if a[0] == b[0] && b[0] == c[0] {
            lemma_lex_le_trans(a.drop_first(), b.drop_first(), c.drop_first());
        }
    }
}

proof fn lemma_lex_le_connected(a: Seq<char>, b: Seq<char>)
    ensures
        lex_le(a, b) || lex_le(b, a),
    decreases a.len(),
{
    if a.len() > 0 && b.len() > 0 && a[0] == b[0] {
        lemma_lex_le_connected(a.drop_first(), b.drop_first());
    }
}

/// The lexicographic order on path text is a total order, so the sorted
/// rearrangement of an entry list is unique.
pub proof fn lemma_lex_le_total_ordering()
    ensures
        total_ordering(|a: Seq<char>, b: Seq<char>| lex_le(a, b)),
{
    let leq = |a: Seq<char>, b: Seq<char>| lex_le(a, b);
    assert forall|a: Seq<char>| #[trigger] leq(a, a) by {
        lemma_lex_le_refl(a);
    }
    assert forall|a: Seq<char>, b: Seq<char>| #[trigger] leq(a, b) && #[trigger] leq(b, a)
        implies a == b by {
        lemma_lex_le_antisym(a, b);
    }
    assert forall|a: Seq<char>, b: Seq<char>, c: Seq<char>|
        #[trigger] leq(a, b) && #[trigger] leq(b, c) implies leq(a, c) by {
        lemma_lex_le_trans(a, b, c);
    }
    assert forall|a: Seq<char>, b: Seq<char>| #[trigger] leq(a, b) || #[trigger] leq(b, a) by {
        lemma_lex_le_connected(a, b);
    }
}

/// Whether `a` precedes or equals `b` in lexicographic path order.
pub fn path_le(a: &str, b: &str) -> (r: bool)
    ensures
        r == lex_le(a@, b@),
{
    let na = a.unicode_len();
    let nb = b.unicode_len();
    let mut i: usize = 0;
    proof {
        assert(a@.skip(0) =~= a@);
        assert(b@.skip(0) =~= b@);
    }
    while i < na && i < nb
        invariant
            na == a@.len(),
            nb == b@.len(),
            i <= na,
            i <= nb,
            lex_le(a@, b@) == lex_le(a@.skip(i as int), b@.skip(i as int)),
        decreases na - i,
    {
        let ghost sa = a@.skip(i as int);
        let ghost sb = b@.skip(i as int);
        let ca = a.get_char(i);
        let cb = b.get_char(i);
        proof {
            assert(sa[0] == a@[i as int] && sa.len() == na - i);
            assert(sb[0] == b@[i as int] && sb.len() == nb - i);
        }
        if ca != cb {
            return (ca as u32) < (cb as u32);
        }
        proof {
            assert(sa.drop_first() =~= a@.skip(i + 1 as int));
            assert(sb.drop_first() =~= b@.skip(i + 1 as int));
        }
        i += 1;
    }
    proof {
        assert(a@.skip(i as int).len() == na - i);
        assert(b@.skip(i as int).len() == nb - i);
    }
    na <= nb
}

/// Sorts path entries lexicographically. The result is the sorted
/// rearrangement of the input: ordered, and with exactly the input's
/// entries, multiplicity included.
pub fn sort_paths(list: Vec<String>) -> (r: Vec<String>)
    ensures
        paths_sorted(r.deep_view()),
        r.deep_view().to_multiset() == list.deep_view().to_multiset(),
{
    broadcast use group_to_multiset_ensures;
    broadcast use group_multiset_axioms;

    let ghost lv = list.deep_view();
    let mut out: Vec<String> = Vec::new();
    let mut i: usize = 0;
    proof {
        assert(lv.take(0) =~= Seq::<Seq<char>>::empty());
        assert(out.deep_view() =~= Seq::<Seq<char>>::empty());
    }
    while i < list.len()
        invariant
            i <= list.len(),
            list.deep_view() == lv,
            lv.len() == list.len(),
            paths_sorted(out.deep_view()),
            out.deep_view().to_multiset() == lv.take(i as int).to_multiset(),
        decreases list.len() - i,
    {
        let x = &list[i];
        let ghost ov = out.deep_view();
        let mut p: usize = 0;
        while p < out.len() && path_le(out[p].as_str(), x.as_str())
            invariant
                out.deep_view() == ov,
                ov.len() == out.len(),
                p <= out.len(),
                forall|j: int| 0 <= j < p ==> lex_le(ov[j], x@),
            decreases out.len() - p,
        {
            p += 1;
        }
        out.insert(p, x.clone());
        proof {
            let nv = out.deep_view();
            assert(nv =~= ov.insert(p as int, x@));
            assert forall|m: int, k: int| 0 <= m < k < nv.len() implies #[trigger] lex_le(
                nv[m],
                nv[k],
            ) by {
                if k == p {
                    assert(lex_le(nv[m], x@));
                } else if m == p {
                    assert(p < ov.len());
                    lemma_lex_le_connected(ov[p as int], x@);
                    assert(lex_le(x@, ov[p as int]));
                    if k - 1 > p {
                        assert(lex_le(ov[p as int], ov[k - 1]));
                        lemma_lex_le_trans(x@, ov[p as int], ov[k - 1]);
                    }
                    assert(lex_le(nv[m], nv[k]));
                } else if m < p && k > p {
                    assert(lex_le(ov[m], ov[k - 1]));
                } else if m > p {
                    assert(lex_le(ov[m - 1], ov[k - 1]));
                } else {
                    assert(lex_le(ov[m], ov[k]));
                }
            }
            vstd::seq_lib::to_multiset_insert(ov, p as int, x@);
            assert(nv.to_multiset() == ov.to_multiset().insert(x@));
            assert(x@ == lv[i as int]);
            assert(lv.take(i + 1 as int) =~= lv.take(i as int).push(lv[i as int]));
            vstd::seq_lib::to_multiset_build(lv.take(i as int), lv[i as int]);
        }
        i += 1;
    }
    proof {
        assert(lv.take(lv.len() as int) =~= lv);
    }
    out
}

} // verus!
