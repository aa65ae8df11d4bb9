//! The fixer (detect, explain, fix), governed by one honesty guardrail:
//!
//! - **Lint A (phantom clock-group member) is safely auto-fixable.** Removing a
//!   `-group {}` that names only clocks the design never instantiates deletes a
//!   no-op clause. The fixer emits the corrected SDC — identical except the dead
//!   members are gone.
//! - **Lint B (unconstrained real crossing) is not safely auto-fixable.** The
//!   fixer never emits a specific value as if correct: it appends a clearly-marked
//!   UNVERIFIED guided suggestion (a commented constraint template with
//!   placeholders), never a silent auto-fix.
use vstd::prelude::*;
use crate::design::{DesignModel, DesignView, MemView, MemController, is_crossing_kind, scan_design, design_spec};
use crate::lint::{fires_b, universe, kind_name, kind_name_exec};
use crate::sdc::{SdcModel, SdcView, strs, first_async, parse_sdc, parse_spec, strings_of};
use crate::source::{SourceFile, CoreSource, is_sdc_path};
use crate::lines::{seqs, split_on, join_with, split_exec};
use crate::scan::{group_match, pll_tokens, lemma_group_match, group_match_exec, pll_tokens_exec, contains_seq_exec};
use crate::text::{
    lower, has_sub, trim, trim_start, trim_end, begins_with, finishes_with, all_ws, chars_of,
    lower_vec, contains_exec, slice_of, extend_range, trim_start_idx, trim_end_idx, skip_ws,
};

verus! {

/// A `-group {}` clause is pure phantom when it names at least one non-primitive
/// `*_pll` token and every such token is outside the clock universe.
pub open spec fn pure_phantom(clause: Seq<char>, u: Seq<Seq<char>>) -> bool {
    let ts = pll_tokens(clause);
    ts.len() > 0 && forall|i: int| 0 <= i < ts.len() ==> !u.contains(#[trigger] ts[i])
}

/// How a removed clause is described: the clause and the clocks it named.
pub open spec fn describe(clause: Seq<char>) -> Seq<char> {
    trim(clause) + " (clock: "@ + join_with(pll_tokens(clause), ", "@) + ")"@
}

/// The rest of line `s` from `p` with its pure-phantom `-group {}` clauses
/// deleted; every other character is kept.
pub open spec fn strip_from(s: Seq<char>, p: int, u: Seq<Seq<char>>) -> Seq<char>
    decreases s.len() - p,
{
    if p < 0 || p >= s.len() {
        Seq::<char>::empty()
    } else {
        match group_match(s, p) {
            Some((b, e)) => {
                proof {
                    lemma_group_match(s, p);
                }
                let clause = s.subrange(p, e + 1);
                if pure_phantom(clause, u) {
                    strip_from(s, e + 1, u)
                } else {
                    clause + strip_from(s, e + 1, u)
                }
            },
            None => seq![s[p]] + strip_from(s, p + 1, u),
        }
    }
}

/// The descriptions of the clauses [`strip_from`] deletes.
pub open spec fn removed_from(s: Seq<char>, p: int, u: Seq<Seq<char>>) -> Seq<Seq<char>>
    decreases s.len() - p,
{
    if p < 0 || p >= s.len() {
        Seq::<Seq<char>>::empty()
    } else {
        match group_match(s, p) {
            Some((b, e)) => {
                proof {
                    lemma_group_match(s, p);
                }
                let clause = s.subrange(p, e + 1);
                if pure_phantom(clause, u) {
                    seq![describe(clause)] + removed_from(s, e + 1, u)
                } else {
                    removed_from(s, e + 1, u)
                }
            },
            None => removed_from(s, p + 1, u),
        }
    }
}

/// A line that opens a `set_clock_groups` statement (not a comment).
pub open spec fn is_header(l: Seq<char>) -> bool {
    has_sub(lower(l), "set_clock_groups"@) && !begins_with(trim_start(l), seq!['#'])
}

/// A line whose last non-blank character is a backslash.
pub open spec fn ends_bs(l: Seq<char>) -> bool {
    finishes_with(trim_end(l), seq!['\\'])
}

/// The index of the last physical line of the statement that starts at `j`.
pub open spec fn stmt_end(ls: Seq<Seq<char>>, j: int) -> int
    decreases ls.len() - j,
{
    if 0 <= j && j + 1 < ls.len() && ends_bs(ls[j]) {
        stmt_end(ls, j + 1)
    } else {
        j
    }
}

/// Drops every trailing backslash (`str::trim_end_matches('\\')`).
pub open spec fn strip_bs(s: Seq<char>) -> Seq<char>
    decreases s.len(),
{
    if s.len() > 0 && s.last() == '\\' {
        strip_bs(s.drop_last())
    } else {
        s
    }
}

/// Nothing but blanks and continuation backslashes remain on the line.
pub open spec fn is_bare(l: Seq<char>) -> bool {
    all_ws(strip_bs(trim_end(l)))
}

/// Restores the continuation backslashes of a rewritten statement: every line but
/// the last ends in a backslash, and the last loses its trailing backslash with the
/// blanks around it.
pub open spec fn fix_continuations(kept: Seq<Seq<char>>) -> Seq<Seq<char>> {
    kept.map(
        |i: int, k: Seq<char>|
            if i + 1 == kept.len() {
                if ends_bs(k) {
                    trim_end(trim_end(k).drop_last())
                } else {
                    k
                }
            } else if ends_bs(k) {
                k
            } else {
                k + " \\"@
            },
    )
}

/// The lines a `set_clock_groups` statement becomes.
pub open spec fn fix_stmt(stmt: Seq<Seq<char>>, u: Seq<Seq<char>>) -> Seq<Seq<char>> {
    fix_continuations(
        stmt.map_values(|l: Seq<char>| strip_from(l, 0, u)).filter(|l: Seq<char>| !is_bare(l)),
    )
}

pub proof fn lemma_stmt_end(ls: Seq<Seq<char>>, j: int)
    requires
        0 <= j < ls.len(),
    ensures
        j <= stmt_end(ls, j) < ls.len(),
    decreases ls.len() - j,
{
    if j + 1 < ls.len() && ends_bs(ls[j]) {
        lemma_stmt_end(ls, j + 1);
    }
}

/// The rewritten lines from line `i` on.
pub open spec fn fix_lines_from(ls: Seq<Seq<char>>, i: int, u: Seq<Seq<char>>) -> Seq<Seq<char>>
    decreases ls.len() - i,
{
    if i < 0 || i >= ls.len() {
        Seq::<Seq<char>>::empty()
    } else if !is_header(ls[i]) {
        seq![ls[i]] + fix_lines_from(ls, i + 1, u)
    } else {
        let j = stmt_end(ls, i);
        proof {
            lemma_stmt_end(ls, i);
        }
        fix_stmt(ls.subrange(i, j + 1), u) + fix_lines_from(ls, j + 1, u)
    }
}

/// The descriptions of the clauses removed from line `i` on.
pub open spec fn removed_lines_from(ls: Seq<Seq<char>>, i: int, u: Seq<Seq<char>>) -> Seq<Seq<char>>
    decreases ls.len() - i,
{
    if i < 0 || i >= ls.len() {
        Seq::<Seq<char>>::empty()
    } else if !is_header(ls[i]) {
        removed_lines_from(ls, i + 1, u)
    } else {
        let j = stmt_end(ls, i);
        proof {
            lemma_stmt_end(ls, i);
        }
        ls.subrange(i, j + 1).flat_map(|l: Seq<char>| removed_from(l, 0, u)) + removed_lines_from(
            ls,
            j + 1,
            u,
        )
    }
}

/// The corrected text of an SDC file.
pub open spec fn fixed_text(text: Seq<char>, u: Seq<Seq<char>>) -> Seq<char> {
    join_with(fix_lines_from(split_on(text, '\n'), 0, u), seq!['\n'])
}

/// The descriptions of the dead members removed from an SDC file.
pub open spec fn removed_groups(text: Seq<char>, u: Seq<Seq<char>>) -> Seq<Seq<char>> {
    removed_lines_from(split_on(text, '\n'), 0, u)
}

} // verus!

verus! {

/// `ps` joined with `sep`.
pub fn join_exec(ps: &Vec<Vec<char>>, sep: &Vec<char>) -> (r: Vec<char>)
    ensures
        r@ == join_with(seqs(ps@), sep@),
{
    let ghost ss = seqs(ps@);
    let mut out: Vec<char> = Vec::new();
    let mut i: usize = 0;
    while i < ps.len()
        invariant
            i <= ps@.len(),
            ss == seqs(ps@),
            out@ == join_with(ss.take(i as int), sep@),
        decreases ps.len() - i,
    {
        proof {
            assert(ss.take(i + 1).drop_last() == ss.take(i as int));
            assert(ss.take(i + 1).last() == ps@[i as int]@);
        }
        if i > 0 {
            extend_range(&mut out, sep, 0, sep.len());
            assert(sep@.subrange(0, sep@.len() as int) == sep@);
        } else {
            assert(ss.take(1)[0] == ps@[0]@);
        }
        extend_range(&mut out, &ps[i], 0, ps[i].len());
        assert(ps@[i as int]@.subrange(0, ps@[i as int]@.len() as int) == ps@[i as int]@);
        i = i + 1;
    }
    assert(ss.take(ps@.len() as int) == ss);
    out
}

/// Is the clause pure phantom? If so, the tokens it names.
fn pure_phantom_exec(clause: &Vec<char>, u: &Vec<Vec<char>>) -> (r: Option<Vec<Vec<char>>>)
    ensures
        match r {
            Some(ts) => pure_phantom(clause@, seqs(u@)) && seqs(ts@) == pll_tokens(clause@),
            None => !pure_phantom(clause@, seqs(u@)),
        },
{
    let ts = pll_tokens_exec(clause);
    if ts.len() == 0 {
        return None;
    }
    let mut i: usize = 0;
    while i < ts.len()
        invariant
            i <= ts@.len(),
            seqs(ts@) == pll_tokens(clause@),
            forall|k: int| 0 <= k < i ==> !seqs(u@).contains(#[trigger] seqs(ts@)[k]),
        decreases ts.len() - i,
    {
        if contains_seq_exec(u, &ts[i]) {
            assert(seqs(u@).contains(seqs(ts@)[i as int]));
            return None;
        }
        i = i + 1;
    }
    Some(ts)
}

/// The description of a removed clause.
fn describe_exec(clause: &Vec<char>, toks: &Vec<Vec<char>>) -> (r: Vec<char>)
    requires
        seqs(toks@) == pll_tokens(clause@),
    ensures
        r@ == describe(clause@),
{
    let lo = trim_start_idx(clause, 0, clause.len());
    let hi = trim_end_idx(clause, lo, clause.len());
    assert(clause@.subrange(0, clause@.len() as int) == clause@);
    let mut out = slice_of(clause, lo, hi);
    let a = chars_of(" (clock: ");
    extend_range(&mut out, &a, 0, a.len());
    assert(a@.subrange(0, a@.len() as int) == a@);
    let sep = chars_of(", ");
    let j = join_exec(toks, &sep);
    extend_range(&mut out, &j, 0, j.len());
    assert(j@.subrange(0, j@.len() as int) == j@);
    let c = chars_of(")");
    extend_range(&mut out, &c, 0, c.len());
    assert(c@.subrange(0, c@.len() as int) == c@);
    out
}

/// One line with its pure-phantom clauses deleted, and their descriptions.
fn strip_line_exec(s: &Vec<char>, u: &Vec<Vec<char>>) -> (r: (Vec<char>, Vec<Vec<char>>))
    ensures
        r.0@ == strip_from(s@, 0, seqs(u@)),
        seqs(r.1@) == removed_from(s@, 0, seqs(u@)),
{
    let g = chars_of("-group");
    let ghost uv = seqs(u@);
    let mut out: Vec<char> = Vec::new();
    let mut removed: Vec<Vec<char>> = Vec::new();
    let mut i: usize = 0;
    while i < s.len()
        invariant
            g@ == "-group"@,
            i <= s@.len(),
            uv == seqs(u@),
            out@ + strip_from(s@, i as int, uv) == strip_from(s@, 0, uv),
            seqs(removed@) + removed_from(s@, i as int, uv) == removed_from(s@, 0, uv),
        decreases s.len() - i,
    {
        match group_match_exec(s, &g, i) {
            Some((b, e)) => {
                proof {
                    lemma_group_match(s@, i as int);
                }
                let clause = slice_of(s, i, e + 1);
                match pure_phantom_exec(&clause, u) {
                    Some(toks) => {
                        let d = describe_exec(&clause, &toks);
                        let ghost before = removed@;
                        removed.push(d);
                        proof {
                            assert(seqs(removed@) == seqs(before).push(d@));
                            assert(seqs(before) + (seq![d@] + removed_from(s@, e + 1, uv)) =~= seqs(
                                removed@,
                            ) + removed_from(s@, e + 1, uv));
                        }
                    },
                    None => {
                        let ghost before = out@;
                        extend_range(&mut out, &clause, 0, clause.len());
                        proof {
                            assert(clause@.subrange(0, clause@.len() as int) == clause@);
                            assert(before + (clause@ + strip_from(s@, e + 1, uv)) =~= out@ + strip_from(
                                s@,
                                e + 1,
                                uv,
                            ));
                        }
                    },
                }
                i = e + 1;
            },
            None => {
                let ghost before = out@;
                out.push(s[i]);
                proof {
                    assert(before + (seq![s@[i as int]] + strip_from(s@, i + 1, uv)) =~= out@ + strip_from(
                        s@,
                        i + 1,
                        uv,
                    ));
                }
                i = i + 1;
            },
        }
    }
    assert(out@ + Seq::<char>::empty() == out@);
    assert(seqs(removed@) + Seq::<Seq<char>>::empty() == seqs(removed@));
    (out, removed)
}

/// Does the line's last non-blank character be a backslash?
fn ends_bs_exec(l: &Vec<char>) -> (r: bool)
    ensures
        r == ends_bs(l@),
{
    let te = trim_end_idx(l, 0, l.len());
    assert(l@.subrange(0, l@.len() as int) == l@);
    let r = te > 0 && l[te - 1] == '\\';
    proof {
        let t = l@.subrange(0, te as int);
        if te > 0 {
            assert(t.subrange(t.len() - 1, t.len() as int) =~= seq![l@[te - 1]]);
            if l@[te - 1] != '\\' {
                assert(seq![l@[te - 1]][0] != seq!['\\'][0]);
            }
        }
    }
    r
}

/// Is nothing but blanks and continuation backslashes left on the line?
fn is_bare_exec(l: &Vec<char>) -> (r: bool)
    ensures
        r == is_bare(l@),
{
    let te = trim_end_idx(l, 0, l.len());
    assert(l@.subrange(0, l@.len() as int) == l@);
    let mut k = te;
    while k > 0 && l[k - 1] == '\\'
        invariant
            k <= te <= l@.len(),
            strip_bs(l@.subrange(0, te as int)) == strip_bs(l@.subrange(0, k as int)),
        decreases k,
    {
        assert(l@.subrange(0, k as int).drop_last() == l@.subrange(0, k - 1));
        k = k - 1;
    }
    let w = skip_ws(l, 0, k);
    proof {
        let t = l@.subrange(0, k as int);
        if k > 0 {
            assert(t.last() == l@[k - 1]);
        }
        assert(strip_bs(t) == t);
        if w == k {
            assert forall|i: int| 0 <= i < t.len() implies crate::text::is_ws(#[trigger] t[i]) by {
                assert(t[i] == l@[i]);
            }
        } else {
            assert(t[w as int] == l@[w as int]);
        }
    }
    w == k
}

} // verus!

verus! {

/// [`fix_continuations`] on kept lines.
fn fix_continuations_exec(kept: &Vec<Vec<char>>) -> (r: Vec<Vec<char>>)
    ensures
        seqs(r@) == fix_continuations(seqs(kept@)),
{
    let ghost kv = seqs(kept@);
    let n = kept.len();
    let bs = chars_of(" \\");
    let mut out: Vec<Vec<char>> = Vec::new();
    let mut idx: usize = 0;
    while idx < n
        invariant
            n == kept@.len(),
            idx <= n,
            kv == seqs(kept@),
            bs@ == " \\"@,
            seqs(out@) == fix_continuations(kv).take(idx as int),
        decreases n - idx,
    {
        let k = &kept[idx];
        let has_bs = ends_bs_exec(k);
        let line: Vec<char>;
        if idx + 1 == n {
            if has_bs {
                let te = trim_end_idx(k, 0, k.len());
                assert(k@.subrange(0, k@.len() as int) == k@);
                let te2 = trim_end_idx(k, 0, te - 1);
                assert(k@.subrange(0, te as int).drop_last() == k@.subrange(0, te - 1));
                line = slice_of(k, 0, te2);
            } else {
                line = slice_of(k, 0, k.len());
                assert(k@.subrange(0, k@.len() as int) == k@);
            }
        } else if has_bs {
            line = slice_of(k, 0, k.len());
            assert(k@.subrange(0, k@.len() as int) == k@);
        } else {
            let mut l = slice_of(k, 0, k.len());
            assert(k@.subrange(0, k@.len() as int) == k@);
            extend_range(&mut l, &bs, 0, bs.len());
            assert(bs@.subrange(0, bs@.len() as int) == bs@);
            line = l;
        }
        assert(line@ == fix_continuations(kv)[idx as int]);
        let ghost before = out@;
        out.push(line);
        idx = idx + 1;
        assert(seqs(out@) == seqs(before).push(line@));
        assert(fix_continuations(kv).take(idx as int) == fix_continuations(kv).take(idx - 1).push(
            fix_continuations(kv)[idx - 1],
        ));
    }
    assert(fix_continuations(kv).take(n as int) == fix_continuations(kv));
    out
}

/// The lines and removals of the statement spanning lines `i..=j`.
fn fix_stmt_exec(ls: &Vec<Vec<char>>, i: usize, j: usize, u: &Vec<Vec<char>>) -> (r: (
    Vec<Vec<char>>,
    Vec<Vec<char>>,
))
    requires
        i <= j < ls@.len(),
    ensures
        seqs(r.0@) == fix_stmt(seqs(ls@).subrange(i as int, j + 1), seqs(u@)),
        seqs(r.1@) == seqs(ls@).subrange(i as int, j + 1).flat_map(
            |l: Seq<char>| removed_from(l, 0, seqs(u@)),
        ),
{
    let ghost stmt = seqs(ls@).subrange(i as int, j + 1);
    let ghost uv = seqs(u@);
    let ghost st = |l: Seq<char>| strip_from(l, 0, uv);
    let ghost nb = |l: Seq<char>| !is_bare(l);
    let ghost rm = |l: Seq<char>| removed_from(l, 0, uv);
    let mut kept: Vec<Vec<char>> = Vec::new();
    let mut removed: Vec<Vec<char>> = Vec::new();
    let mut k = i;
    let n = ls.len();
    assert(seqs(removed@) =~= stmt.take(0).flat_map(rm));
    assert(seqs(kept@) =~= stmt.take(0).map_values(st).filter(nb));
    while k <= j
        invariant
            i <= k <= j + 1,
            j < ls@.len(),
            n == ls@.len(),
            stmt == seqs(ls@).subrange(i as int, j + 1),
            uv == seqs(u@),
            st == (|l: Seq<char>| strip_from(l, 0, uv)),
            nb == (|l: Seq<char>| !is_bare(l)),
            rm == (|l: Seq<char>| removed_from(l, 0, uv)),
            seqs(kept@) == stmt.take(k - i).map_values(st).filter(nb),
            seqs(removed@) == stmt.take(k - i).flat_map(rm),
        decreases j + 1 - k,
    {
        let ghost l = ls@[k as int]@;
        let (nl, mut rem) = strip_line_exec(&ls[k], u);
        proof {
            assert(stmt.take(k - i + 1) == stmt.take(k - i).push(l));
            stmt.take(k - i).lemma_flat_map_push(rm, l);
            stmt.take(k - i).lemma_push_map_commute(st, l);
            stmt.take(k - i).map_values(st).lemma_filter_push(nl@, nb);
        }
        let ghost r0 = removed@;
        let ghost rv = rem@;
        removed.append(&mut rem);
        assert(seqs(removed@) =~= seqs(r0) + seqs(rv));
        if !is_bare_exec(&nl) {
            let ghost before = kept@;
            kept.push(nl);
            assert(seqs(kept@) == seqs(before).push(nl@));
        }
        k = k + 1;
    }
    assert(stmt.take(j + 1 - i) == stmt);
    let lines = fix_continuations_exec(&kept);
    (lines, removed)
}

/// The last line of the statement that starts at line `i`.
fn stmt_end_exec(ls: &Vec<Vec<char>>, i: usize) -> (j: usize)
    requires
        i < ls@.len(),
    ensures
        j == stmt_end(seqs(ls@), i as int),
        i <= j < ls@.len(),
{
    let mut j = i;
    let n = ls.len();
    while j + 1 < n && ends_bs_exec(&ls[j])
        invariant
            n == ls@.len(),
            i <= j < ls@.len(),
            stmt_end(seqs(ls@), j as int) == stmt_end(seqs(ls@), i as int),
        decreases ls.len() - j,
    {
        j = j + 1;
    }
    j
}

/// Is the line a `set_clock_groups` header?
fn is_header_exec(l: &Vec<char>) -> (r: bool)
    ensures
        r == is_header(l@),
{
    let low = lower_vec(l);
    let scg = chars_of("set_clock_groups");
    contains_exec(&low, &scg) && !crate::lines::is_comment_exec(l)
}

/// Remove pure-phantom `-group {}` clauses from an SDC file's text, preserving
/// every other character. Returns the corrected text and the removed members'
/// descriptions.
pub fn remove_phantom_groups(text: &Vec<char>, u: &Vec<Vec<char>>) -> (r: (Vec<char>, Vec<Vec<char>>))
    ensures
        r.0@ == fixed_text(text@, seqs(u@)),
        seqs(r.1@) == removed_groups(text@, seqs(u@)),
{
    let ls = split_exec(text, '\n');
    let ghost lv = seqs(ls@);
    let ghost uv = seqs(u@);
    let mut out: Vec<Vec<char>> = Vec::new();
    let mut removed: Vec<Vec<char>> = Vec::new();
    let mut i: usize = 0;
    while i < ls.len()
        invariant
            i <= ls@.len(),
            lv == seqs(ls@),
            uv == seqs(u@),
            seqs(out@) + fix_lines_from(lv, i as int, uv) == fix_lines_from(lv, 0, uv),
            seqs(removed@) + removed_lines_from(lv, i as int, uv) == removed_lines_from(lv, 0, uv),
        decreases ls.len() - i,
    {
        if !is_header_exec(&ls[i]) {
            let line = slice_of(&ls[i], 0, ls[i].len());
            assert(ls@[i as int]@.subrange(0, ls@[i as int]@.len() as int) == ls@[i as int]@);
            let ghost before = out@;
            out.push(line);
            proof {
                assert(seqs(out@) == seqs(before).push(line@));
                assert(seqs(before) + (seq![line@] + fix_lines_from(lv, i + 1, uv)) =~= seqs(out@)
                    + fix_lines_from(lv, i + 1, uv));
            }
            i = i + 1;
        } else {
            let j = stmt_end_exec(&ls, i);
            let (mut lines, mut rem) = fix_stmt_exec(&ls, i, j, u);
            let ghost o0 = out@;
            let ghost r0 = removed@;
            let ghost lines_v = lines@;
            let ghost rem_v = rem@;
            out.append(&mut lines);
            removed.append(&mut rem);
            proof {
                assert(seqs(out@) =~= seqs(o0) + seqs(lines_v));
                assert(seqs(removed@) =~= seqs(r0) + seqs(rem_v));
                assert(seqs(o0) + (seqs(lines_v) + fix_lines_from(lv, j + 1, uv)) =~= seqs(out@)
                    + fix_lines_from(lv, j + 1, uv));
                assert(seqs(r0) + (seqs(rem_v) + removed_lines_from(lv, j + 1, uv)) =~= seqs(
                    removed@,
                ) + removed_lines_from(lv, j + 1, uv));
            }
            i = j + 1;
        }
    }
    assert(seqs(out@) + Seq::<Seq<char>>::empty() == seqs(out@));
    assert(seqs(removed@) + Seq::<Seq<char>>::empty() == seqs(removed@));
    let nl = chars_of("\n");
    proof {
        reveal_strlit("\n");
        assert(nl@ =~= seq!['\n']);
    }
    let joined = join_exec(&out, &nl);
    (joined, removed)
}

} // verus!

verus! {

/// The banner every crossing suggestion carries.
pub const UNVERIFIED_BANNER: &'static str = "UNVERIFIED — set the real value and confirm in STA";

/// The UNVERIFIED guided suggestion block for one crossing: fully commented,
/// placeholders in place of any value, and the banner.
pub open spec fn block_spec(crossing: Seq<char>, evidence: Seq<char>) -> Seq<char> {
    "\n# ============================================================\n"@
        + "# cdc-sentinel: GUIDED SUGGESTION — do NOT apply blind.\n"@
        + "# Crossing: "@ + crossing + "\n"@
        + "# Evidence: "@ + evidence + "\n"@
        + "# This crossing sits under the blanket -asynchronous cut with no datapath\n"@
        + "# timing, so static timing analysis is blind to it. Replace the blanket cut\n"@
        + "# for THIS crossing with real datapath timing. The correct value depends on\n"@
        + "# your actual clock relationship — cdc-sentinel does NOT know it.\n"@
        + "#\n#   "@ + UNVERIFIED_BANNER@ + ":\n"@
        + "#   set_multicycle_path -from [get_clocks <CORE_CLK>] -to [get_clocks <MEM_CLK>] <N>  ;# set <N>, verify in STA\n"@
        + "#   # -- or, only if the path is genuinely a don't-care: --\n"@
        + "#   set_false_path -from [get_clocks <CORE_CLK>] -to [get_clocks <MEM_CLK>]           ;# confirm the path is truly async\n"@
        + "# ============================================================\n"@
}

/// Build the UNVERIFIED guided suggestion block for one crossing.
fn suggestion_block(crossing: &str, evidence: &str) -> (b: String)
    ensures
        b@ == block_spec(crossing@, evidence@),
{
    let mut b = "\n# ============================================================\n".to_owned();
    b.append("# cdc-sentinel: GUIDED SUGGESTION — do NOT apply blind.\n");
    b.append("# Crossing: ");
    b.append(crossing);
    b.append("\n");
    b.append("# Evidence: ");
    b.append(evidence);
    b.append("\n");
    b.append("# This crossing sits under the blanket -asynchronous cut with no datapath\n");
    b.append("# timing, so static timing analysis is blind to it. Replace the blanket cut\n");
    b.append("# for THIS crossing with real datapath timing. The correct value depends on\n");
    b.append("# your actual clock relationship — cdc-sentinel does NOT know it.\n");
    b.append("#\n#   ");
    b.append(UNVERIFIED_BANNER);
    b.append(":\n");
    b.append(
        "#   set_multicycle_path -from [get_clocks <CORE_CLK>] -to [get_clocks <MEM_CLK>] <N>  ;# set <N>, verify in STA\n",
    );
    b.append("#   # -- or, only if the path is genuinely a don't-care: --\n");
    b.append(
        "#   set_false_path -from [get_clocks <CORE_CLK>] -to [get_clocks <MEM_CLK>]           ;# confirm the path is truly async\n",
    );
    b.append("# ============================================================\n");
    b
}

} // verus!

verus! {

/// A corrected SDC file: the safe phantom removals applied, plus (on the file that
/// carries the blanket cut) any appended UNVERIFIED crossing suggestions.
#[derive(Debug, Clone, PartialEq, Eq)]
pub struct FixedFile {
    /// Source path (relative).
    pub path: String,
    /// The original text, verbatim.
    pub original: String,
    /// The corrected text.
    pub fixed: String,
    /// Human descriptions of the dead group members removed (empty means none).
    pub removed_groups: Vec<String>,
    /// How many UNVERIFIED suggestion blocks were appended to this file.
    pub suggestions_appended: usize,
}

/// A guided, UNVERIFIED suggestion for a real crossing (Lint B). Never a bare value.
#[derive(Debug, Clone, PartialEq, Eq)]
pub struct CrossingSuggestion {
    /// A short description of the crossing.
    pub crossing: String,
    /// The commented suggestion block (banner + placeholders).
    pub block: String,
}

/// The complete fix plan for a core.
#[derive(Debug, Clone, PartialEq, Eq)]
pub struct FixPlan {
    /// Core label.
    pub core: String,
    /// Corrected SDC files (only those that changed).
    pub fixed_files: Vec<FixedFile>,
    /// The UNVERIFIED crossing suggestions produced.
    pub suggestions: Vec<CrossingSuggestion>,
    /// Notes / limits.
    pub notes: Vec<String>,
}

/// What a [`FixedFile`] holds.
pub struct FixedView {
    pub path: Seq<char>,
    pub original: Seq<char>,
    pub fixed: Seq<char>,
    pub removed_groups: Seq<Seq<char>>,
    pub suggestions_appended: nat,
}

/// What a [`CrossingSuggestion`] holds.
pub struct SuggestionView {
    pub crossing: Seq<char>,
    pub block: Seq<char>,
}

/// What a [`FixPlan`] holds.
pub struct PlanView {
    pub core: Seq<char>,
    pub fixed_files: Seq<FixedView>,
    pub suggestions: Seq<SuggestionView>,
    pub notes: Seq<Seq<char>>,
}

impl View for FixedFile {
    type V = FixedView;

    open spec fn view(&self) -> FixedView {
        FixedView {
            path: self.path@,
            original: self.original@,
            fixed: self.fixed@,
            removed_groups: strs(self.removed_groups@),
            suggestions_appended: self.suggestions_appended as nat,
        }
    }
}

impl View for CrossingSuggestion {
    type V = SuggestionView;

    open spec fn view(&self) -> SuggestionView {
        SuggestionView { crossing: self.crossing@, block: self.block@ }
    }
}

impl View for FixPlan {
    type V = PlanView;

    open spec fn view(&self) -> PlanView {
        PlanView {
            core: self.core@,
            fixed_files: self.fixed_files@.map_values(|f: FixedFile| f@),
            suggestions: self.suggestions@.map_values(|s: CrossingSuggestion| s@),
            notes: strs(self.notes@),
        }
    }
}

impl FixedFile {
    /// True if this file's content actually changed.
    pub fn changed(&self) -> (r: bool)
        ensures
            r == (self@.original != self@.fixed),
    {
        self.original != self.fixed
    }
}

/// Some fixed file carries a removal.
pub open spec fn has_removal(p: PlanView) -> bool {
    exists|i: int| 0 <= i < p.fixed_files.len() && (#[trigger] p.fixed_files[i]).removed_groups.len() > 0
}

impl FixPlan {
    /// True if any safe auto-fix was produced.
    pub fn has_safe_fixes(&self) -> (r: bool)
        ensures
            r == has_removal(self@),
    {
        let mut i: usize = 0;
        while i < self.fixed_files.len()
            invariant
                i <= self.fixed_files@.len(),
                forall|j: int| 0 <= j < i ==> (#[trigger] self@.fixed_files[j]).removed_groups.len() == 0,
            decreases self.fixed_files.len() - i,
        {
            assert(self@.fixed_files[i as int] == self.fixed_files@[i as int]@);
            if self.fixed_files[i].removed_groups.len() > 0 {
                return true;
            }
            i = i + 1;
        }
        false
    }
}

/// The removal fix of one file, if it is an SDC file with a pure-phantom member.
pub open spec fn removal_fix(f: SourceFile, u: Seq<Seq<char>>) -> Seq<FixedView> {
    if is_sdc_path(f.path@) && removed_groups(f.text@, u).len() > 0 {
        seq![
            FixedView {
                path: f.path@,
                original: f.text@,
                fixed: fixed_text(f.text@, u),
                removed_groups: removed_groups(f.text@, u),
                suggestions_appended: 0,
            },
        ]
    } else {
        Seq::<FixedView>::empty()
    }
}

/// How a crossing is labelled.
pub open spec fn crossing_label(m: MemView) -> Seq<char> {
    "core \u{2194} external memory ("@ + kind_name(m.kind) + ")"@
}

/// One suggestion per crossing controller when Lint B fires.
pub open spec fn suggestions_spec(sdc: SdcView, d: DesignView) -> Seq<SuggestionView> {
    if fires_b(sdc, d) {
        d.memory.filter(|m: MemView| is_crossing_kind(m.kind)).map_values(
            |m: MemView| SuggestionView { crossing: crossing_label(m), block: block_spec(crossing_label(m), m.evidence) },
        )
    } else {
        Seq::<SuggestionView>::empty()
    }
}

/// The suggestion blocks, concatenated.
pub open spec fn all_blocks(ss: Seq<SuggestionView>) -> Seq<char> {
    ss.map_values(|s: SuggestionView| s.block).flatten()
}

/// Index of the first fixed file with path `p`.
pub open spec fn find_fixed(ffs: Seq<FixedView>, p: Seq<char>) -> Option<int> {
    if exists|k: int| 0 <= k < ffs.len() && (#[trigger] ffs[k]).path == p {
        Some(choose|k: int| 0 <= k < ffs.len() && ffs[k].path == p && forall|m: int| 0 <= m < k ==> (#[trigger] ffs[m]).path != p)
    } else {
        None
    }
}

/// Index of the first source file with path `p`.
pub open spec fn find_file(files: Seq<SourceFile>, p: Seq<char>) -> Option<int> {
    if exists|k: int| 0 <= k < files.len() && (#[trigger] files[k]).path@ == p {
        Some(choose|k: int| 0 <= k < files.len() && files[k].path@ == p && forall|m: int| 0 <= m < k ==> (#[trigger] files[m]).path@ != p)
    } else {
        None
    }
}

/// The note recorded when a suggestion has no blanket-async file to go to.
pub open spec fn no_target_note() -> Seq<char> {
    "a crossing suggestion was produced but no blanket-async SDC file was found to \
     append it to; see the suggestion list"@
}

/// The note recorded when there is nothing to fix.
pub open spec fn nothing_note() -> Seq<char> {
    "nothing to fix: no phantom groups and no unconstrained crossing"@
}

/// The note every plan records.
pub open spec fn fixer_note() -> Seq<char> {
    "heuristic fixer: phantom removal is safe (a no-op line deleted); crossing suggestions are \
     UNVERIFIED templates — you must set the value and confirm in static timing analysis"@
}

/// The fixed files once the suggestions are appended to the blanket-async file
/// (extending its removal fix, or as a new fixed file), and the notes that step
/// records.
pub open spec fn with_suggestions(
    ffs: Seq<FixedView>,
    files: Seq<SourceFile>,
    target: Option<Seq<char>>,
    ss: Seq<SuggestionView>,
) -> (Seq<FixedView>, Seq<Seq<char>>) {
    if ss.len() == 0 {
        (ffs, Seq::<Seq<char>>::empty())
    } else {
        match target {
            Some(p) => match find_fixed(ffs, p) {
                Some(k) => (
                    ffs.update(
                        k,
                        FixedView {
                            path: ffs[k].path,
                            original: ffs[k].original,
                            fixed: ffs[k].fixed + all_blocks(ss),
                            removed_groups: ffs[k].removed_groups,
                            suggestions_appended: ss.len(),
                        },
                    ),
                    Seq::<Seq<char>>::empty(),
                ),
                None => match find_file(files, p) {
                    Some(o) => (
                        ffs.push(
                            FixedView {
                                path: p,
                                original: files[o].text@,
                                fixed: files[o].text@ + all_blocks(ss),
                                removed_groups: Seq::<Seq<char>>::empty(),
                                suggestions_appended: ss.len(),
                            },
                        ),
                        Seq::<Seq<char>>::empty(),
                    ),
                    None => (ffs, Seq::<Seq<char>>::empty()),
                },
            },
            None => (ffs, seq![no_target_note()]),
        }
    }
}

/// The plan [`plan_fix_models`] produces.
pub open spec fn plan_spec(core: Seq<char>, sdc: SdcView, d: DesignView, files: Seq<SourceFile>) -> PlanView {
    let u = universe(sdc, d);
    let ffs0 = files.flat_map(|f: SourceFile| removal_fix(f, u));
    let ss = suggestions_spec(sdc, d);
    let (ffs, notes0) = with_suggestions(ffs0, files, first_async(sdc.clock_groups), ss);
    PlanView {
        core,
        fixed_files: ffs,
        suggestions: ss,
        notes: notes0 + (if ffs.len() == 0 && ss.len() == 0 {
            seq![nothing_note()]
        } else {
            Seq::<Seq<char>>::empty()
        }) + seq![fixer_note()],
    }
}

} // verus!

verus! {

/// The characters of each string.
fn char_vecs(v: &Vec<String>) -> (r: Vec<Vec<char>>)
    ensures
        seqs(r@) == strs(v@),
{
    let mut r: Vec<Vec<char>> = Vec::new();
    let mut i: usize = 0;
    while i < v.len()
        invariant
            i <= v@.len(),
            seqs(r@) == strs(v@).take(i as int),
        decreases v.len() - i,
    {
        let c = chars_of(v[i].as_str());
        let ghost before = r@;
        r.push(c);
        i = i + 1;
        assert(seqs(r@) == seqs(before).push(c@));
        assert(strs(v@).take(i as int) == strs(v@).take(i - 1).push(v@[i - 1]@));
    }
    assert(strs(v@).take(v@.len() as int) == strs(v@));
    r
}

/// The views of a vector of fixed files.
pub open spec fn fixed_views(v: Seq<FixedFile>) -> Seq<FixedView> {
    v.map_values(|f: FixedFile| f@)
}

/// The views of a vector of suggestions.
pub open spec fn suggestion_views(v: Seq<CrossingSuggestion>) -> Seq<SuggestionView> {
    v.map_values(|s: CrossingSuggestion| s@)
}

/// The safe removal fixes of every SDC file.
fn removal_fixes_exec(files: &[SourceFile], u: &Vec<Vec<char>>) -> (r: Vec<FixedFile>)
    ensures
        fixed_views(r@) == files@.flat_map(|f: SourceFile| removal_fix(f, seqs(u@))),
{
    let ghost uv = seqs(u@);
    let ghost rf = |f: SourceFile| removal_fix(f, uv);
    let mut out: Vec<FixedFile> = Vec::new();
    let mut i: usize = 0;
    assert(fixed_views(out@) =~= files@.take(0).flat_map(rf));
    while i < files.len()
        invariant
            i <= files@.len(),
            uv == seqs(u@),
            rf == (|f: SourceFile| removal_fix(f, uv)),
            fixed_views(out@) == files@.take(i as int).flat_map(rf),
        decreases files.len() - i,
    {
        let f = &files[i];
        proof {
            assert(files@.take(i + 1) == files@.take(i as int).push(*f));
            files@.take(i as int).lemma_flat_map_push(rf, *f);
        }
        let ghost before = fixed_views(out@);
        if f.is_sdc() {
            let text = chars_of(f.text.as_str());
            let (fixed, removed) = remove_phantom_groups(&text, u);
            if removed.len() > 0 {
                let ff = FixedFile {
                    path: f.path.clone(),
                    original: f.text.clone(),
                    fixed: crate::text::string_of(&fixed),
                    removed_groups: strings_of(&removed),
                    suggestions_appended: 0,
                };
                out.push(ff);
                assert(fixed_views(out@) == before.push(ff@));
                assert(removal_fix(*f, uv) =~= seq![ff@]);
            } else {
                assert(removal_fix(*f, uv) =~= Seq::<FixedView>::empty());
                assert(before + removal_fix(*f, uv) =~= before);
            }
        } else {
            assert(removal_fix(*f, uv) =~= Seq::<FixedView>::empty());
            assert(before + removal_fix(*f, uv) =~= before);
        }
        i = i + 1;
    }
    assert(files@.take(files@.len() as int) == files@);
    out
}

/// One suggestion per crossing controller.
fn suggestions_exec(memory: &Vec<MemController>) -> (r: Vec<CrossingSuggestion>)
    ensures
        suggestion_views(r@) == crate::design::mem_views(memory@).filter(
            |m: MemView| is_crossing_kind(m.kind),
        ).map_values(
            |m: MemView| SuggestionView { crossing: crossing_label(m), block: block_spec(crossing_label(m), m.evidence) },
        ),
{
    let ghost ms = crate::design::mem_views(memory@);
    let ghost pc = |m: MemView| is_crossing_kind(m.kind);
    let ghost mk = |m: MemView| SuggestionView { crossing: crossing_label(m), block: block_spec(crossing_label(m), m.evidence) };
    let mut out: Vec<CrossingSuggestion> = Vec::new();
    let mut i: usize = 0;
    while i < memory.len()
        invariant
            i <= memory@.len(),
            ms == crate::design::mem_views(memory@),
            pc == (|m: MemView| is_crossing_kind(m.kind)),
            mk == (|m: MemView| SuggestionView { crossing: crossing_label(m), block: block_spec(crossing_label(m), m.evidence) }),
            suggestion_views(out@) == ms.take(i as int).filter(pc).map_values(mk),
        decreases memory.len() - i,
    {
        let mc = &memory[i];
        proof {
            assert(ms.take(i + 1) == ms.take(i as int).push(mc@));
            ms.take(i as int).lemma_filter_push(mc@, pc);
            ms.take(i as int).filter(pc).lemma_push_map_commute(mk, mc@);
        }
        if mc.kind.is_crossing() {
            let crossing = crate::text::concat3("core \u{2194} external memory (", kind_name_exec(mc.kind), ")");
            let block = suggestion_block(crossing.as_str(), mc.evidence.as_str());
            let s = CrossingSuggestion { block, crossing };
            let ghost before = out@;
            out.push(s);
            assert(suggestion_views(out@) == suggestion_views(before).push(s@));
        }
        i = i + 1;
    }
    assert(ms.take(memory@.len() as int) == ms);
    out
}

/// The suggestion blocks, concatenated.
fn all_blocks_exec(ss: &Vec<CrossingSuggestion>) -> (r: String)
    ensures
        r@ == all_blocks(suggestion_views(ss@)),
{
    let ghost sv = suggestion_views(ss@);
    let ghost bl = |s: SuggestionView| s.block;
    let mut r = String::new();
    let mut i: usize = 0;
    assert(sv.take(0).map_values(bl).flatten() =~= Seq::<char>::empty());
    while i < ss.len()
        invariant
            i <= ss@.len(),
            sv == suggestion_views(ss@),
            bl == (|s: SuggestionView| s.block),
            r@ == sv.take(i as int).map_values(bl).flatten(),
        decreases ss.len() - i,
    {
        proof {
            assert(sv.take(i + 1) == sv.take(i as int).push(ss@[i as int]@));
            sv.take(i as int).lemma_push_map_commute(bl, ss@[i as int]@);
            sv.take(i as int).map_values(bl).lemma_flatten_push(ss@[i as int]@.block);
        }
        r.append(ss[i].block.as_str());
        i = i + 1;
    }
    assert(sv.take(ss@.len() as int) == sv);
    r
}

} // verus!

verus! {

/// Index of the first fixed file with the given path.
fn find_fixed_exec(ffs: &Vec<FixedFile>, p: &String) -> (r: Option<usize>)
    ensures
        match r {
            Some(k) => find_fixed(fixed_views(ffs@), p@) == Some(k as int) && k < ffs@.len(),
            None => find_fixed(fixed_views(ffs@), p@) is None,
        },
{
    let ghost fv = fixed_views(ffs@);
    let pc = chars_of(p.as_str());
    let mut k: usize = 0;
    while k < ffs.len()
        invariant
            k <= ffs@.len(),
            pc@ == p@,
            fv == fixed_views(ffs@),
            forall|m: int| 0 <= m < k ==> (#[trigger] fv[m]).path != p@,
        decreases ffs.len() - k,
    {
        let fp = chars_of(ffs[k].path.as_str());
        if crate::text::eq_exec(&fp, &pc) {
            assert(fv[k as int].path == p@);
            assert(find_fixed(fv, p@) == Some(k as int)) by {
                let c = choose|c: int| 0 <= c < fv.len() && fv[c].path == p@ && forall|m: int| 0 <= m < c ==> (#[trigger] fv[m]).path != p@;
                if c < k {
                } else if c > k {
                    assert(fv[k as int].path != p@);
                }
            }
            return Some(k);
        }
        k = k + 1;
    }
    None
}

/// Index of the first source file with the given path.
fn find_file_exec(files: &[SourceFile], p: &String) -> (r: Option<usize>)
    ensures
        match r {
            Some(k) => find_file(files@, p@) == Some(k as int) && k < files@.len(),
            None => find_file(files@, p@) is None,
        },
{
    let pc = chars_of(p.as_str());
    let mut k: usize = 0;
    while k < files.len()
        invariant
            k <= files@.len(),
            pc@ == p@,
            forall|m: int| 0 <= m < k ==> (#[trigger] files@[m]).path@ != p@,
        decreases files.len() - k,
    {
        let fp = chars_of(files[k].path.as_str());
        if crate::text::eq_exec(&fp, &pc) {
            assert(find_file(files@, p@) == Some(k as int)) by {
                let c = choose|c: int| 0 <= c < files@.len() && files@[c].path@ == p@ && forall|m: int| 0 <= m < c ==> (#[trigger] files@[m]).path@ != p@;
                if c < k {
                } else if c > k {
                    assert(files@[k as int].path@ != p@);
                }
            }
            return Some(k);
        }
        k = k + 1;
    }
    None
}

/// Appends the suggestion blocks to the blanket-async file, returning the notes
/// that step records.
fn append_suggestions(
    fixed_files: &mut Vec<FixedFile>,
    files: &[SourceFile],
    target: Option<String>,
    suggestions: &Vec<CrossingSuggestion>,
) -> (notes: Vec<String>)
    ensures
        (fixed_views(final(fixed_files)@), strs(notes@)) == with_suggestions(
            fixed_views(old(fixed_files)@),
            files@,
            match target {
                Some(t) => Some(t@),
                None => None,
            },
            suggestion_views(suggestions@),
        ),
{
    let ghost ffs0 = fixed_views(fixed_files@);
    let mut notes: Vec<String> = Vec::new();
    if suggestions.len() == 0 {
        assert(strs(notes@) =~= Seq::<Seq<char>>::empty());
        return notes;
    }
    match target {
        Some(path) => {
            let appended = all_blocks_exec(suggestions);
            match find_fixed_exec(fixed_files, &path) {
                Some(k) => {
                    let mut ff = fixed_files.remove(k);
                    ff.fixed.append(appended.as_str());
                    ff.suggestions_appended = suggestions.len();
                    let ghost ffv = ff@;
                    fixed_files.insert(k, ff);
                    assert(fixed_views(fixed_files@) =~= ffs0.update(k as int, ffv));
                },
                None => {
                    match find_file_exec(files, &path) {
                        Some(o) => {
                            let mut fixed = files[o].text.clone();
                            fixed.append(appended.as_str());
                            let ff = FixedFile {
                                path: path.clone(),
                                original: files[o].text.clone(),
                                fixed,
                                removed_groups: Vec::new(),
                                suggestions_appended: suggestions.len(),
                            };
                            let ghost before = fixed_views(fixed_files@);
                            fixed_files.push(ff);
                            assert(strs(ff.removed_groups@) =~= Seq::<Seq<char>>::empty());
                            assert(fixed_views(fixed_files@) == before.push(ff@));
                        },
                        None => {},
                    }
                },
            }
            assert(strs(notes@) =~= Seq::<Seq<char>>::empty());
        },
        None => {
            notes.push(
                "a crossing suggestion was produced but no blanket-async SDC file was found to \
                 append it to; see the suggestion list".to_owned(),
            );
            assert(strs(notes@) =~= seq![no_target_note()]);
        },
    }
    notes
}

/// Produce the fix plan from parsed models + the raw source files. Pure.
pub fn plan_fix_models(core: &str, sdc: &SdcModel, design: &DesignModel, files: &[SourceFile]) -> (p: FixPlan)
    ensures
        p@ == plan_spec(core@, sdc@, design@, files@),
{
    let uni = design.clock_universe(sdc.created_clocks.as_slice());
    let u = char_vecs(&uni);
    let mut fixed_files = removal_fixes_exec(files, &u);
    let suggestions: Vec<CrossingSuggestion> = if sdc.blanket_async() && design.has_external_crossing()
        && sdc.added_timing().len() == 0 {
        suggestions_exec(&design.memory)
    } else {
        Vec::new()
    };
    let ghost ss = suggestion_views(suggestions@);
    assert(ss == suggestions_spec(sdc@, design@)) by {
        if !fires_b(sdc@, design@) {
            assert(ss =~= Seq::<SuggestionView>::empty());
        }
    }
    let target = sdc.first_async_file();
    let mut notes = append_suggestions(&mut fixed_files, files, target, &suggestions);
    let ghost notes0 = strs(notes@);
    if fixed_files.len() == 0 && suggestions.len() == 0 {
        notes.push("nothing to fix: no phantom groups and no unconstrained crossing".to_owned());
    }
    notes.push(
        "heuristic fixer: phantom removal is safe (a no-op line deleted); crossing suggestions are \
         UNVERIFIED templates — you must set the value and confirm in static timing analysis".to_owned(),
    );
    assert(strs(notes@) =~= notes0 + (if fixed_files@.len() == 0 && ss.len() == 0 {
        seq![nothing_note()]
    } else {
        Seq::<Seq<char>>::empty()
    }) + seq![fixer_note()]);
    FixPlan { core: core.to_owned(), fixed_files, suggestions, notes }
}

/// Convenience: build the models from a source and produce the fix plan.
pub fn plan_fix<S: CoreSource>(core: &str, source: &S) -> (p: FixPlan)
    ensures
        p@ == plan_spec(
            core@,
            parse_spec(source.source_files()),
            design_spec(source.source_files()),
            source.source_files(),
        ),
{
    let files = source.files();
    let sdc = parse_sdc(files.as_slice());
    let design = scan_design(files.as_slice());
    plan_fix_models(core, &sdc, &design, files.as_slice())
}

} // verus!
