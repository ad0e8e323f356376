//! The persistence format shared by both stores: one path per line,
//! newline-separated. On parsing, every line is trimmed of leading and
//! trailing whitespace and blank lines are dropped; on serialization, the
//! entries are joined with single newlines.

use vstd::prelude::*;
use vstd::string::StrSliceExecFns;

verus! {

/// The whitespace characters stripped from line ends.
pub open spec fn is_space(c: char) -> bool {
    c == ' ' || c == '\t' || c == '\r' || c == '\n'
}

/// `s` without its leading whitespace.
pub open spec fn trim_left(s: Seq<char>) -> Seq<char>
    decreases s.len(),
{
    if s.len() > 0 && is_space(s[0]) {
        trim_left(s.drop_first())
    } else {
        s
    }
}

/// `s` without its trailing whitespace.
pub open spec fn trim_right(s: Seq<char>) -> Seq<char>
    decreases s.len(),
{
    if s.len() > 0 && is_space(s.last()) {
        trim_right(s.drop_last())
    } else {
        s
    }
}

/// `s` without leading and trailing whitespace.
pub open spec fn trim_spec(s: Seq<char>) -> Seq<char> {
    trim_right(trim_left(s))
}

/// `s` split at every newline; always at least one (possibly empty) line.
pub open spec fn split_lines(s: Seq<char>) -> Seq<Seq<char>>
    decreases s.len(),
{
    if s.len() == 0 {
        seq![Seq::<char>::empty()]
    } else {
        let rest = split_lines(s.drop_last());
        if s.last() == '\n' {
            rest.push(Seq::<char>::empty())
        } else {
            rest.drop_last().push(rest.last().push(s.last()))
        }
    }
}

/// A one-entry sequence holding `l`, or the empty sequence if `l` is empty —
/// what one parsed line contributes to the store.
pub open spec fn maybe_line(l: Seq<char>) -> Seq<Seq<char>> {
    if l.len() > 0 {
        seq![l]
    } else {
        Seq::<Seq<char>>::empty()
    }
}

/// The lines, trimmed, with blank lines dropped.
pub open spec fn clean_lines(ls: Seq<Seq<char>>) -> Seq<Seq<char>> {
    ls.map_values(|l: Seq<char>| trim_spec(l)).filter(|l: Seq<char>| l.len() > 0)
}

/// What a store file's text holds: its lines, trimmed, blank lines dropped.
pub open spec fn parse_spec(s: Seq<char>) -> Seq<Seq<char>> {
    clean_lines(split_lines(s))
}

/// The file text that holds `es`: the entries joined with single newlines.
pub open spec fn join_lines(es: Seq<Seq<char>>) -> Seq<char>
    decreases es.len(),
{
    if es.len() == 0 {
        Seq::<char>::empty()
    } else if es.len() == 1 {
        es[0]
    } else {
        join_lines(es.drop_last()) + seq!['\n'] + es.last()
    }
}

/// `entry` can be stored in a line of its own: it is not blank, spans no
/// line break, and carries no whitespace at its ends, so trimming leaves it
/// unchanged.
pub open spec fn line_safe(entry: Seq<char>) -> bool {
    &&& entry.len() > 0
    &&& forall|j: int| 0 <= j < entry.len() ==> entry[j] != '\n'
    &&& !is_space(entry[0])
    &&& !is_space(entry[entry.len() - 1])
}

proof fn lemma_trim_safe(l: Seq<char>)
    requires
        l.len() > 0,
        !is_space(l[0]),
        !is_space(l[l.len() - 1]),
    ensures
        trim_spec(l) == l,
{
    assert(trim_left(l) == l);
    assert(trim_right(l) == l);
}

proof fn lemma_split_lines_append_free(s: Seq<char>, t: Seq<char>)
    requires
        forall|j: int| 0 <= j < t.len() ==> t[j] != '\n',
    ensures
        split_lines(s + t) == split_lines(s).drop_last().push(split_lines(s).last() + t),
    decreases t.len(),
{
    lemma_split_lines_len(s);
    if t.len() == 0 {
        assert(s + t =~= s);
        assert(split_lines(s).last() + t =~= split_lines(s).last());
        assert(split_lines(s).drop_last().push(split_lines(s).last()) =~= split_lines(s));
    } else {
        let t0 = t.drop_last();
        lemma_split_lines_append_free(s, t0);
        assert(s + t =~= (s + t0).push(t.last()));
        let u = s + t0;
        lemma_split_lines_len(u);
        assert(split_lines((s + t0).push(t.last())) == split_lines(u).drop_last().push(
            split_lines(u).last().push(t.last()),
        )) by {
            assert((s + t0).push(t.last()).drop_last() =~= u);
            assert((s + t0).push(t.last()).last() == t.last());
        }
        assert(split_lines(u).drop_last() =~= split_lines(s).drop_last());
        assert(split_lines(u).last().push(t.last()) =~= split_lines(s).last() + t);
    }
}

/// Round trip of the persistence format: entries that each fit in a line of
/// their own are restored exactly by parsing the text they serialize to.
/// A store saved to its backing file is read back unchanged.
pub proof fn lemma_parse_join_round_trip(es: Seq<Seq<char>>)
    requires
        forall|i: int| 0 <= i < es.len() ==> #[trigger] line_safe(es[i]),
    ensures
        parse_spec(join_lines(es)) == es,
    decreases es.len(),
{
    if es.len() == 0 {
        assert(join_lines(es) =~= Seq::<char>::empty());
        assert(split_lines(Seq::<char>::empty()) == seq![Seq::<char>::empty()]);
        assert(seq![Seq::<char>::empty()] =~= Seq::<Seq<char>>::empty().push(
            Seq::<char>::empty(),
        ));
        lemma_clean_push(Seq::<Seq<char>>::empty(), Seq::<char>::empty());
        lemma_clean_nil();
        assert(trim_spec(Seq::<char>::empty()).len() == 0);
        assert(parse_spec(join_lines(es)) =~= es);
    } else if es.len() == 1 {
        let l = es[0];
        assert(line_safe(l));
        let e = Seq::<char>::empty();
        assert(join_lines(es) == l);
        lemma_split_lines_append_free(e, l);
        assert(e + l =~= l);
        assert(split_lines(e) == seq![e]);
        assert(split_lines(l) =~= seq![e + l]);
        lemma_trim_safe(l);
        lemma_clean_push(Seq::<Seq<char>>::empty(), l);
        assert(seq![l] =~= Seq::<Seq<char>>::empty().push(l));
        lemma_clean_nil();
        assert(parse_spec(join_lines(es)) =~= es);
    } else {
        let es0 = es.drop_last();
        let l = es.last();
        assert(line_safe(l));
        assert(forall|i: int| 0 <= i < es0.len() ==> #[trigger] line_safe(es0[i]));
        lemma_parse_join_round_trip(es0);
        let s = join_lines(es0);
        assert(join_lines(es) == s + seq!['\n'] + l);
        lemma_split_lines_len(s);
        assert(s.push('\n').drop_last() =~= s);
        assert(s.push('\n').last() == '\n');
        assert(split_lines(s.push('\n')) == split_lines(s).push(Seq::<char>::empty()));
        assert(s + seq!['\n'] =~= s.push('\n'));
        lemma_split_lines_append_free(s + seq!['\n'], l);
        let sl = split_lines(s + seq!['\n']);
        assert(sl.drop_last() =~= split_lines(s));
        assert(sl.last() + l =~= l);
        assert(split_lines(s + seq!['\n'] + l) == split_lines(s).push(l));
        lemma_clean_push(split_lines(s), l);
        lemma_trim_safe(l);
        assert(clean_lines(split_lines(s)) == es0);
        assert(parse_spec(join_lines(es)) =~= es0.push(l));
        assert(es0.push(l) =~= es);
    }
}

proof fn lemma_split_lines_len(s: Seq<char>)
    ensures
        split_lines(s).len() >= 1,
    decreases s.len(),
{
    if s.len() > 0 {
        lemma_split_lines_len(s.drop_last());
    }
}

proof fn lemma_clean_nil()
    ensures
        clean_lines(Seq::<Seq<char>>::empty()) == Seq::<Seq<char>>::empty(),
{
    reveal(Seq::filter);
    assert(Seq::<Seq<char>>::empty().map_values(|l: Seq<char>| trim_spec(l)) =~= Seq::<
        Seq<char>,
    >::empty());
    assert(clean_lines(Seq::<Seq<char>>::empty()) =~= Seq::<Seq<char>>::empty());
}

proof fn lemma_clean_push(ls: Seq<Seq<char>>, l: Seq<char>)
    ensures
        clean_lines(ls.push(l)) == clean_lines(ls) + maybe_line(trim_spec(l)),
{
    let trimf = |x: Seq<char>| trim_spec(x);
    let nonempty = |x: Seq<char>| x.len() > 0;
    let m = ls.push(l).map_values(trimf);
    assert(m =~= ls.map_values(trimf).push(trim_spec(l)));
    reveal(Seq::filter);
    assert(m.drop_last() =~= ls.map_values(trimf));
    if trim_spec(l).len() > 0 {
        assert(clean_lines(ls.push(l)) =~= clean_lines(ls) + maybe_line(trim_spec(l)));
    } else {
        assert(clean_lines(ls.push(l)) =~= clean_lines(ls) + maybe_line(trim_spec(l)));
    }
}

proof fn lemma_trim_left_skip(s: Seq<char>, k: int)
    requires
        0 <= k <= s.len(),
        forall|j: int| 0 <= j < k ==> is_space(s[j]),
        k == s.len() || !is_space(s[k]),
    ensures
        trim_left(s) == s.skip(k),
    decreases k,
{
    if k == 0 {
        assert(s.skip(0) =~= s);
    } else {
        let rest = s.drop_first();
        assert(is_space(s[0]));
        lemma_trim_left_skip(rest, k - 1);
        assert(rest.skip(k - 1) =~= s.skip(k));
    }
}

proof fn lemma_trim_right_take(s: Seq<char>, k: int)
    requires
        0 <= k <= s.len(),
        forall|j: int| k <= j < s.len() ==> is_space(s[j]),
        k == 0 || !is_space(s[k - 1]),
    ensures
        trim_right(s) == s.take(k),
    decreases s.len() - k,
{
    if k == s.len() {
        assert(s.take(k) =~= s);
    } else {
        let rest = s.drop_last();
        assert(is_space(s.last()));
        lemma_trim_right_take(rest, k);
        assert(rest.take(k) =~= s.take(k));
    }
}

/// Whether `c` counts as whitespace for line trimming.
fn is_space_char(c: char) -> (r: bool)
    ensures
        r == is_space(c),
{
    c == ' ' || c == '\t' || c == '\r' || c == '\n'
}

/// `line` without leading and trailing whitespace.
fn trim_exec(line: &str) -> (r: String)
    ensures
        r@ == trim_spec(line@),
{
    let n = line.unicode_len();
    let mut ts: usize = 0;
    while ts < n && is_space_char(line.get_char(ts))
        invariant
            n == line@.len(),
            ts <= n,
            forall|j: int| 0 <= j < ts ==> is_space(line@[j]),
        decreases n - ts,
    {
        ts += 1;
    }
    let mut te: usize = n;
    while te > ts && is_space_char(line.get_char(te - 1))
        invariant
            n == line@.len(),
            ts <= te <= n,
            forall|j: int| te <= j < n ==> is_space(line@[j]),
            forall|j: int| 0 <= j < ts ==> is_space(line@[j]),
            ts == n || !is_space(line@[ts as int]),
        decreases te,
    {
        te -= 1;
    }
    let r = line.substring_char(ts, te).to_owned();
    proof {
        lemma_trim_left_skip(line@, ts as int);
        let u = line@.skip(ts as int);
        lemma_trim_right_take(u, te - ts);
        assert(u.take(te - ts) =~= line@.subrange(ts as int, te as int));
    }
    r
}

/// Appends the line's trimmed text to the entry list, unless it is blank.
fn push_line(r: &mut Vec<String>, line: &str)
    ensures
        final(r).deep_view() == old(r).deep_view() + maybe_line(trim_spec(line@)),
{
    let t = trim_exec(line);
    if t.as_str().unicode_len() > 0 {
        let ghost rv = r.deep_view();
        let ghost tv = t@;
        r.push(t);
        proof {
            assert(r.deep_view() =~= rv + maybe_line(tv));
        }
    } else {
        proof {
            assert(r.deep_view() =~= r.deep_view() + maybe_line(trim_spec(line@)));
        }
    }
}

/// Parses a store file's text into its entries: one per line, trimmed, blank
/// lines dropped, file order kept. Absent files are read as empty text, so
/// they parse to an empty store.
pub fn parse_store(content: &str) -> (r: Vec<String>)
    ensures
        r.deep_view() == parse_spec(content@),
{
    let n = content.unicode_len();
    let mut r: Vec<String> = Vec::new();
    let mut line_start: usize = 0;
    let mut i: usize = 0;
    proof {
        assert(content@.take(0) =~= Seq::<char>::empty());
        assert(r.deep_view() =~= Seq::<Seq<char>>::empty());
        assert(clean_lines(split_lines(content@.take(0)).drop_last()) =~= Seq::<
            Seq<char>,
        >::empty()) by {
            reveal(Seq::filter);
            assert(split_lines(content@.take(0)).drop_last() =~= Seq::<Seq<char>>::empty());
            assert(Seq::<Seq<char>>::empty().map_values(|l: Seq<char>| trim_spec(l)) =~= Seq::<
                Seq<char>,
            >::empty());
        }
        assert(split_lines(content@.take(0)).last() =~= content@.subrange(0, 0));
    }
    while i < n
        invariant
            n == content@.len(),
            line_start <= i <= n,
            r.deep_view() == clean_lines(split_lines(content@.take(i as int)).drop_last()),
            split_lines(content@.take(i as int)).last() == content@.subrange(
                line_start as int,
                i as int,
            ),
        decreases n - i,
    {
        let ghost p0 = content@.take(i as int);
        let ghost p1 = content@.take(i + 1 as int);
        let ghost sl0 = split_lines(p0);
        proof {
            assert(p1.drop_last() =~= p0);
            assert(p1.last() == content@[i as int]);
            lemma_split_lines_len(p0);
        }
        let c = content.get_char(i);
        if c == '\n' {
            let line = content.substring_char(line_start, i);
            push_line(&mut r, line);
            proof {
                assert(split_lines(p1) == sl0.push(Seq::<char>::empty()));
                assert(split_lines(p1).drop_last() =~= sl0);
                assert(sl0 =~= sl0.drop_last().push(sl0.last()));
                lemma_clean_push(sl0.drop_last(), sl0.last());
                assert(r.deep_view() == clean_lines(split_lines(p1).drop_last()));
                assert(split_lines(p1).last() =~= content@.subrange(i + 1 as int, i + 1 as int));
            }
            line_start = i + 1;
        } else {
            proof {
                assert(split_lines(p1) == sl0.drop_last().push(sl0.last().push(content@[i as int])));
                assert(split_lines(p1).drop_last() =~= sl0.drop_last());
                assert(sl0.last().push(content@[i as int]) =~= content@.subrange(
                    line_start as int,
                    i + 1 as int,
                ));
                assert(split_lines(p1).last() == content@.subrange(line_start as int, i + 1 as int));
            }
        }
        i += 1;
    }
    proof {
        assert(content@.take(n as int) =~= content@);
        lemma_split_lines_len(content@);
    }
    let line = content.substring_char(line_start, n);
    push_line(&mut r, line);
    proof {
        let sl = split_lines(content@);
        assert(sl =~= sl.drop_last().push(sl.last()));
        lemma_clean_push(sl.drop_last(), sl.last());
    }
    r
}

/// Serializes store entries into file text: the entries joined with single
/// newlines.
pub fn serialize_store(entries: &Vec<String>) -> (r: String)
    ensures
        r@ == join_lines(entries.deep_view()),
{
    let ghost dv = entries.deep_view();
    let mut r = String::new();
    let mut i: usize = 0;
    proof {
        assert(dv.take(0) =~= Seq::<Seq<char>>::empty());
    }
    while i < entries.len()
        invariant
            entries.deep_view() == dv,
            dv.len() == entries.len(),
            i <= entries.len(),
            r@ == join_lines(dv.take(i as int)),
        decreases entries.len() - i,
    {
        let ghost t1 = dv.take(i + 1 as int);
        proof {
            assert(t1.drop_last() =~= dv.take(i as int));
            assert(t1.last() == dv[i as int]);
        }
        if i > 0 {
            r.append("\n");
            proof {
                reveal_strlit("\n");
                assert("\n"@ =~= seq!['\n']);
            }
        } else {
            proof {
                assert(t1 =~= seq![dv[0]]);
            }
        }
        r.append(entries[i].as_str());
        i += 1;
    }
    proof {
        assert(dv.take(dv.len() as int) =~= dv);
    }
    r
}

} // verus!
