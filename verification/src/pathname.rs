//! Path names as plain text: the final segment of a path, the parent of a
//! path, and the bookmarks whose final segment matches a sought name.
//!
//! A path is modelled as its text: the final segment is what follows the
//! last `/`, and the parent is what precedes it (`/` itself, and a path with
//! no `/` at all, have no parent). The working-directory paths this tool
//! handles are absolute and carry no trailing slash, so this matches how the
//! operating system resolves them.

use vstd::prelude::*;
use vstd::string::StrSliceExecFns;

verus! {

/// The index of the last `/` in `s`, or `-1` if there is none.
pub open spec fn last_slash(s: Seq<char>) -> int
    decreases s.len(),
{
    if s.len() == 0 {
        -1
    } else if s.last() == '/' {
        s.len() - 1
    } else {
        last_slash(s.drop_last())
    }
}

/// The final segment of the path `s`: what follows the last `/`, or all of
/// `s` if it has none.
pub open spec fn basename_spec(s: Seq<char>) -> Seq<char> {
    s.skip(last_slash(s) + 1)
}

/// The parent of the path `s`: what precedes the last `/`. The root `/`
/// keeps its single slash as parent of its children; `/` itself, and a path
/// without any `/`, have none.
pub open spec fn parent_spec(s: Seq<char>) -> Option<Seq<char>> {
    let k = last_slash(s);
    if k < 0 {
        None
    } else if k == 0 {
        if s.len() == 1 {
            None
        } else {
            Some(seq!['/'])
        }
    } else {
        Some(s.take(k))
    }
}

proof fn lemma_last_slash_bounds(s: Seq<char>)
    ensures
        -1 <= last_slash(s) < s.len(),
    decreases s.len(),
{
    if s.len() > 0 && s.last() != '/' {
        lemma_last_slash_bounds(s.drop_last());
    }
}

proof fn lemma_last_slash_at(s: Seq<char>, k: int)
    requires
        0 <= k < s.len(),
        s[k] == '/',
        forall|m: int| k < m < s.len() ==> s[m] != '/',
    ensures
        last_slash(s) == k,
    decreases s.len(),
{
    if k < s.len() - 1 {
        let rest = s.drop_last();
        lemma_last_slash_at(rest, k);
    }
}

proof fn lemma_last_slash_none(s: Seq<char>)
    requires
        forall|m: int| 0 <= m < s.len() ==> s[m] != '/',
    ensures
        last_slash(s) == -1,
    decreases s.len(),
{
    if s.len() > 0 {
        lemma_last_slash_none(s.drop_last());
    }
}

/// Scans for the position just past the last `/` of `path`, or 0 if it has
/// none.
fn after_last_slash(path: &str, n: usize) -> (j: usize)
    requires
        n == path@.len(),
    ensures
        j == last_slash(path@) + 1,
{
    let mut j: usize = n;
    while j > 0 && path.get_char(j - 1) != '/'
        invariant
            n == path@.len(),
            j <= n,
            forall|m: int| j <= m < n ==> path@[m] != '/',
        decreases j,
    {
        j -= 1;
    }
    proof {
        if j == 0 {
            lemma_last_slash_none(path@);
        } else {
            lemma_last_slash_at(path@, j - 1);
        }
    }
    j
}

/// The final segment of `path`: what follows its last `/`.
pub fn basename(path: &str) -> (r: String)
    ensures
        r@ == basename_spec(path@),
{
    let n = path.unicode_len();
    let j = after_last_slash(path, n);
    proof {
        lemma_last_slash_bounds(path@);
    }
    let r = path.substring_char(j, n).to_owned();
    proof {
        assert(path@.subrange(j as int, n as int) =~= path@.skip(last_slash(path@) + 1));
    }
    r
}

/// The parent directory of `path`, or `None` when `path` is the root or has
/// no `/` — the already-at-root failure of the "up" action.
pub fn parent_dir(path: &str) -> (r: Option<String>)
    ensures
        match r {
            Some(p) => parent_spec(path@) == Some(p@),
            None => parent_spec(path@) is None,
        },
{
    let n = path.unicode_len();
    let j = after_last_slash(path, n);
    proof {
        lemma_last_slash_bounds(path@);
    }
    if j == 0 {
        None
    } else if j == 1 {
        if n == 1 {
            None
        } else {
            let r = "/".to_owned();
            proof {
                reveal_strlit("/");
                assert(r@ =~= seq!['/']);
            }
            Some(r)
        }
    } else {
        let r = path.substring_char(0, j - 1).to_owned();
        proof {
            assert(path@.subrange(0, j - 1 as int) =~= path@.take(last_slash(path@)));
        }
        Some(r)
    }
}

/// The path of the entry `name` inside the directory `dir`: the two joined
/// with a `/`, unless `dir` already ends in one (the root does).
pub open spec fn joined(dir: Seq<char>, name: Seq<char>) -> Seq<char> {
    if dir.len() > 0 && dir.last() == '/' {
        dir + name
    } else {
        dir + seq!['/'] + name
    }
}

/// The paths `ancestor/name` for the ancestors of `p`, nearest first,
/// walking up at most `depth` levels and stopping at the root — the
/// ancestor phase of finding a directory by name.
pub open spec fn ancestor_candidates_spec(p: Seq<char>, name: Seq<char>, depth: nat) -> Seq<
    Seq<char>,
>
    decreases depth,
{
    if depth == 0 {
        Seq::<Seq<char>>::empty()
    } else {
        match parent_spec(p) {
            None => Seq::<Seq<char>>::empty(),
            Some(par) => seq![joined(par, name)] + ancestor_candidates_spec(
                par,
                name,
                (depth - 1) as nat,
            ),
        }
    }
}

/// The path of the entry `name` inside the directory `dir`.
pub fn join_path(dir: &String, name: &String) -> (r: String)
    ensures
        r@ == joined(dir@, name@),
{
    let mut r = dir.clone();
    let n = dir.as_str().unicode_len();
    if n == 0 || dir.as_str().get_char(n - 1) != '/' {
        r.append("/");
        proof {
            reveal_strlit("/");
            assert(r@ =~= dir@ + seq!['/']);
        }
    }
    r.append(name.as_str());
    r
}

/// The candidate paths `ancestor/name` for the ancestors of `current`,
/// nearest first, up to `depth` levels, stopping at the root. The caller
/// tries them in order and takes the first that names an existing directory.
pub fn ancestor_candidates(current: &String, name: &String, depth: usize) -> (r: Vec<String>)
    ensures
        r.deep_view() == ancestor_candidates_spec(current@, name@, depth as nat),
{
    let mut r: Vec<String> = Vec::new();
    let mut cur: String = current.clone();
    let mut d: usize = depth;
    proof {
        assert(r.deep_view() + ancestor_candidates_spec(cur@, name@, d as nat)
            =~= ancestor_candidates_spec(current@, name@, depth as nat));
    }
    while d > 0
        invariant
            r.deep_view() + ancestor_candidates_spec(cur@, name@, d as nat)
                == ancestor_candidates_spec(current@, name@, depth as nat),
        decreases d,
    {
        match parent_dir(cur.as_str()) {
            None => {
                proof {
                    assert(r.deep_view() + Seq::<Seq<char>>::empty() =~= r.deep_view());
                }
                return r;
            },
            Some(par) => {
                let ghost rv = r.deep_view();
                let ghost before = ancestor_candidates_spec(cur@, name@, d as nat);
                r.push(join_path(&par, name));
                proof {
                    assert(r.deep_view() =~= rv.push(joined(par@, name@)));
                    assert(rv + before =~= r.deep_view() + ancestor_candidates_spec(
                        par@,
                        name@,
                        (d - 1) as nat,
                    ));
                }
                cur = par;
                d -= 1;
            },
        }
    }
    proof {
        assert(r.deep_view() + Seq::<Seq<char>>::empty() =~= r.deep_view());
    }
    r
}

/// The bookmarks whose final path segment equals `name`, in store order —
/// the bookmark phase of finding a directory by name. The caller tries them
/// in order and takes the first that still exists.
pub fn matching_bookmarks(bookmarks: &Vec<String>, name: &String) -> (r: Vec<String>)
    ensures
        r.deep_view() == bookmarks.deep_view().filter(
            |p: Seq<char>| basename_spec(p) == name@,
        ),
{
    let ghost bs = bookmarks.deep_view();
    let ghost pred = |p: Seq<char>| basename_spec(p) == name@;
    let mut r: Vec<String> = Vec::new();
    let mut i: usize = 0;
    proof {
        assert(bs.take(0) =~= Seq::<Seq<char>>::empty());
        reveal(Seq::filter);
    }
    while i < bookmarks.len()
        invariant
            i <= bookmarks.len(),
            bookmarks.deep_view() == bs,
            bs.len() == bookmarks.len(),
            r.deep_view() == bs.take(i as int).filter(pred),
            pred == (|p: Seq<char>| basename_spec(p) == name@),
        decreases bookmarks.len() - i,
    {
        let ghost taken = bs.take(i as int);
        let ghost taken1 = bs.take(i + 1 as int);
        proof {
            reveal(Seq::filter);
            assert(taken1.drop_last() =~= taken);
            assert(taken1.last() == bs[i as int]);
        }
        let base = basename(bookmarks[i].as_str());
        if base == *name {
            let ghost rv = r.deep_view();
            r.push(bookmarks[i].clone());
            proof {
                assert(pred(bs[i as int]));
                assert(taken1.filter(pred) == taken.filter(pred).push(bs[i as int]));
                assert(r.deep_view() =~= rv.push(bs[i as int]));
            }
        } else {
            proof {
                assert(!pred(bs[i as int]));
                assert(taken1.filter(pred) == taken.filter(pred));
            }
        }
        i += 1;
    }
    proof {
        assert(bs.take(bs.len() as int) =~= bs);
    }
    r
}

} // verus!
