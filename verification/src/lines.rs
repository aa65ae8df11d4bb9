//! Splitting text into physical lines and SDC statements.
use vstd::prelude::*;
use crate::text::{all_ws, begins_with, trim_start, extend_range, trim_start_idx, skip_ws};

verus! {

/// The character sequences held by a vector of character vectors.
pub open spec fn seqs(v: Seq<Vec<char>>) -> Seq<Seq<char>> {
    v.map_values(|x: Vec<char>| x@)
}

/// The pieces of `s` between `sep` characters (`str::split(sep)`); there is
/// always at least one piece.
pub open spec fn split_on(s: Seq<char>, sep: char) -> Seq<Seq<char>>
    decreases s.len(),
{
    if s.len() == 0 {
        seq![Seq::<char>::empty()]
    } else {
        let r = split_on(s.drop_last(), sep);
        if s.last() == sep {
            r.push(Seq::<char>::empty())
        } else {
            r.update(r.len() - 1, r.last().push(s.last()))
        }
    }
}

pub proof fn lemma_split_on_nonempty(s: Seq<char>, sep: char)
    ensures
        split_on(s, sep).len() >= 1,
    decreases s.len(),
{
    if s.len() > 0 {
        lemma_split_on_nonempty(s.drop_last(), sep);
    }
}

/// The pieces of `ps` joined with `sep` between them (`slice::join`).
pub open spec fn join_with(ps: Seq<Seq<char>>, sep: Seq<char>) -> Seq<char>
    decreases ps.len(),
{
    if ps.len() == 0 {
        Seq::<char>::empty()
    } else if ps.len() == 1 {
        ps[0]
    } else {
        join_with(ps.drop_last(), sep) + sep + ps.last()
    }
}

/// Joining the pieces of a split with the separator gives the text back.
pub proof fn lemma_join_split(s: Seq<char>, c: char)
    ensures
        join_with(split_on(s, c), seq![c]) == s,
    decreases s.len(),
{
    if s.len() > 0 {
        let init = s.drop_last();
        lemma_join_split(init, c);
        lemma_split_on_nonempty(init, c);
        let r = split_on(init, c);
        let x = s.last();
        if x == c {
            assert(r.push(Seq::<char>::empty()).drop_last() =~= r);
            assert(init + seq![c] + Seq::<char>::empty() =~= s);
        } else {
            let w = r.update(r.len() - 1, r.last().push(x));
            if r.len() == 1 {
                assert(w[0] == r[0].push(x));
                assert(r[0].push(x) =~= s);
            } else {
                assert(w.drop_last() =~= r.drop_last());
                assert(w.last() == r.last().push(x));
                assert(join_with(r.drop_last(), seq![c]) + seq![c] + r.last().push(x) =~= (join_with(
                    r.drop_last(),
                    seq![c],
                ) + seq![c] + r.last()).push(x));
                assert(init.push(x) =~= s);
            }
        }
    }
}

/// A line that ends in a carriage return loses it.
pub open spec fn strip_cr(p: Seq<char>) -> Seq<char> {
    if p.len() > 0 && p.last() == '\r' {
        p.drop_last()
    } else {
        p
    }
}

/// `str::lines`: the pieces between `\n`, each `\n`-terminated piece losing
/// one trailing `\r`, and an empty final piece dropped.
pub open spec fn text_lines(s: Seq<char>) -> Seq<Seq<char>> {
    let ps = split_on(s, '\n');
    let body = ps.drop_last().map_values(|p: Seq<char>| strip_cr(p));
    if ps.last().len() == 0 {
        body
    } else {
        body.push(ps.last())
    }
}

/// The pieces of `v` between `sep` characters.
pub fn split_exec(v: &Vec<char>, sep: char) -> (r: Vec<Vec<char>>)
    ensures
        seqs(r@) == split_on(v@, sep),
        r@.len() >= 1,
{
    let mut done: Vec<Vec<char>> = Vec::new();
    let mut cur: Vec<char> = Vec::new();
    let mut i: usize = 0;
    while i < v.len()
        invariant
            i <= v@.len(),
            seqs(done@).push(cur@) == split_on(v@.subrange(0, i as int), sep),
        decreases v.len() - i,
    {
        let c = v[i];
        proof {
            let t = v@.subrange(0, i + 1);
            assert(t.drop_last() == v@.subrange(0, i as int));
            assert(t.last() == c);
            lemma_split_on_nonempty(t.drop_last(), sep);
        }
        if c == sep {
            let ghost before = done@;
            let finished = cur;
            done.push(finished);
            cur = Vec::new();
            proof {
                assert(seqs(done@) == seqs(before).push(finished@));
            }
        } else {
            cur.push(c);
        }
        i = i + 1;
    }
    done.push(cur);
    assert(v@.subrange(0, v@.len() as int) == v@);
    done
}

} // verus!

verus! {

/// A comment line: its first non-blank character is `#`.
pub open spec fn is_comment(l: Seq<char>) -> bool {
    begins_with(trim_start(l), seq!['#'])
}

/// A physical line continued by a trailing backslash.
pub open spec fn continues(l: Seq<char>) -> bool {
    l.len() > 0 && l.last() == '\\'
}

/// Splices continued lines: the complete statements so far and the pending
/// (continued) text. A continued line contributes its text without the
/// backslash, followed by one space.
pub open spec fn splice(kept: Seq<Seq<char>>) -> (Seq<Seq<char>>, Seq<char>)
    decreases kept.len(),
{
    if kept.len() == 0 {
        (Seq::<Seq<char>>::empty(), Seq::<char>::empty())
    } else {
        let (out, cur) = splice(kept.drop_last());
        let l = kept.last();
        if continues(l) {
            (out, cur + l.drop_last().push(' '))
        } else {
            (out.push(cur + l), Seq::<char>::empty())
        }
    }
}

/// The logical SDC statements of a text: full-line `#` comments dropped,
/// backslash continuations spliced, and a dangling continued statement kept
/// only if it holds something other than whitespace.
pub open spec fn statements(text: Seq<char>) -> Seq<Seq<char>> {
    let kept = text_lines(text).filter(|l: Seq<char>| !is_comment(l));
    let (out, cur) = splice(kept);
    if all_ws(cur) {
        out
    } else {
        out.push(cur)
    }
}

/// `str::lines` on a character vector.
pub fn lines_exec(v: &Vec<char>) -> (r: Vec<Vec<char>>)
    ensures
        seqs(r@) == text_lines(v@),
{
    let ps = split_exec(v, '\n');
    let n = ps.len();
    let mut out: Vec<Vec<char>> = Vec::new();
    let mut i: usize = 0;
    while i + 1 < n
        invariant
            n == ps@.len(),
            n >= 1,
            i + 1 <= n,
            seqs(out@) == seqs(ps@).drop_last().take(i as int).map_values(|p: Seq<char>| strip_cr(p)),
        decreases n - i,
    {
        let p = &ps[i];
        let mut q: Vec<char> = Vec::new();
        if p.len() > 0 && p[p.len() - 1] == '\r' {
            extend_range(&mut q, p, 0, p.len() - 1);
            assert(p@.subrange(0, p@.len() - 1) == p@.drop_last());
        } else {
            extend_range(&mut q, p, 0, p.len());
            assert(p@.subrange(0, p@.len() as int) == p@);
        }
        let ghost before = out@;
        out.push(q);
        i = i + 1;
        proof {
            let all = seqs(ps@).drop_last();
            assert(all.take(i as int) == all.take(i - 1).push(all[i - 1]));
            assert(seqs(out@) == seqs(before).push(q@));
            assert(all.take(i as int).map_values(|p: Seq<char>| strip_cr(p))
                == all.take(i - 1).map_values(|p: Seq<char>| strip_cr(p)).push(strip_cr(all[i - 1])));
        }
    }
    proof {
        let all = seqs(ps@).drop_last();
        assert(all.take(i as int) == all);
    }
    if ps[n - 1].len() > 0 {
        let last = &ps[n - 1];
        let mut q: Vec<char> = Vec::new();
        extend_range(&mut q, last, 0, last.len());
        assert(last@.subrange(0, last@.len() as int) == last@);
        let ghost before = out@;
        out.push(q);
        assert(seqs(out@) == seqs(before).push(q@));
    }
    out
}

/// Is the line a full-line comment?
pub fn is_comment_exec(l: &Vec<char>) -> (r: bool)
    ensures
        r == is_comment(l@),
{
    let k = trim_start_idx(l, 0, l.len());
    assert(l@.subrange(0, l@.len() as int) == l@);
    let r = k < l.len() && l[k] == '#';
    proof {
        let t = l@.subrange(k as int, l@.len() as int);
        if k < l@.len() {
            assert(t[0] == l@[k as int]);
            if l@[k as int] == '#' {
                assert(t.subrange(0, 1) =~= seq!['#']);
            } else {
                assert(t.subrange(0, 1)[0] != seq!['#'][0]);
            }
        }
    }
    r
}

/// Does every character of `v` count as whitespace?
pub fn all_ws_exec(v: &Vec<char>) -> (r: bool)
    ensures
        r == all_ws(v@),
{
    let k = skip_ws(v, 0, v.len());
    k == v.len()
}

/// The logical statements of an SDC text.
pub fn statements_exec(text: &Vec<char>) -> (r: Vec<Vec<char>>)
    ensures
        seqs(r@) == statements(text@),
{
    let ls = lines_exec(text);
    let ghost lsv = seqs(ls@);
    let ghost pred = |l: Seq<char>| !is_comment(l);
    let mut out: Vec<Vec<char>> = Vec::new();
    let mut cur: Vec<char> = Vec::new();
    let mut i: usize = 0;
    while i < ls.len()
        invariant
            i <= ls@.len(),
            lsv == seqs(ls@),
            pred == (|l: Seq<char>| !is_comment(l)),
            (seqs(out@), cur@) == splice(lsv.take(i as int).filter(pred)),
        decreases ls.len() - i,
    {
        let l = &ls[i];
        proof {
            assert(lsv.take(i + 1) == lsv.take(i as int).push(l@));
            lsv.take(i as int).lemma_filter_push(l@, pred);
        }
        if !is_comment_exec(l) {
            proof {
                let f = lsv.take(i as int).filter(pred);
                assert(f.push(l@).drop_last() == f);
            }
            if l.len() > 0 && l[l.len() - 1] == '\\' {
                extend_range(&mut cur, l, 0, l.len() - 1);
                cur.push(' ');
                assert(l@.subrange(0, l@.len() - 1) == l@.drop_last());
            } else {
                extend_range(&mut cur, l, 0, l.len());
                assert(l@.subrange(0, l@.len() as int) == l@);
                let ghost before = out@;
                let finished = cur;
                out.push(finished);
                cur = Vec::new();
                assert(seqs(out@) == seqs(before).push(finished@));
            }
        }
        i = i + 1;
    }
    assert(lsv.take(ls@.len() as int) == lsv);
    if !all_ws_exec(&cur) {
        let ghost before = out@;
        out.push(cur);
        assert(seqs(out@) == seqs(before).push(cur@));
    }
    out
}

} // verus!
