//! The lexical grammar cdc-sentinel reads from SDC and Verilog text: identifier
//! runs, `*_pll` clock tokens, `-group {..}` clauses, `-name <clock>` options and
//! `module <name>_pll` declarations. Word characters are the Unicode word
//! characters of [`crate::text::unicode_word`], handed to each scan as a flag per
//! position;
//! whitespace is Unicode `White_Space`.
use vstd::prelude::*;
use crate::lines::seqs;
use crate::text::{
    is_alnum, lower, lower_char, occurs_at, lead_ws, is_alnum_char, lower_vec, eq_exec,
    slice_of, occurs_at_exec, trim_start_idx, chars_of, flag, word_flags, word_flags_exec,
};


verus! {

/// Keeps the first occurrence of each element, in order.
pub open spec fn dedup<A>(s: Seq<A>) -> Seq<A>
    decreases s.len(),
{
    if s.len() == 0 {
        s
    } else {
        let d = dedup(s.drop_last());
        if d.contains(s.last()) {
            d
        } else {
            d.push(s.last())
        }
    }
}

pub proof fn lemma_push_contains<A>(s: Seq<A>, x: A, y: A)
    ensures
        s.push(x).contains(y) <==> s.contains(y) || x == y,
{
    let t = s.push(x);
    if t.contains(y) {
        let w = choose|w: int| 0 <= w < t.len() && t[w] == y;
        if w < s.len() {
            assert(s[w] == y);
        }
    }
    if s.contains(y) {
        let w = choose|w: int| 0 <= w < s.len() && s[w] == y;
        assert(t[w] == y);
    }
    if x == y {
        assert(t[s.len() as int] == y);
    }
}

/// [`dedup`] keeps each element once and loses none.
pub proof fn lemma_dedup<A>(s: Seq<A>)
    ensures
        forall|i: int, j: int| 0 <= i < j < dedup(s).len() ==> dedup(s)[i] != dedup(s)[j],
        forall|x: A| #[trigger] dedup(s).contains(x) <==> s.contains(x),
    decreases s.len(),
{
    if s.len() > 0 {
        let init = s.drop_last();
        lemma_dedup(init);
        let d = dedup(init);
        assert forall|x: A| #[trigger] dedup(s).contains(x) <==> s.contains(x) by {
            lemma_push_contains(d, s.last(), x);
            lemma_push_contains(init, s.last(), x);
            assert(init.push(s.last()) =~= s);
        }
        if !d.contains(s.last()) {
            let e = d.push(s.last());
            assert forall|i: int, j: int| 0 <= i < j < e.len() implies e[i] != e[j] by {
                if j == e.len() - 1 {
                    assert(e[i] == d[i]);
                    assert(d.contains(d[i]));
                }
            }
        }
    }
}

/// An element of a concatenation is an element of one of its parts.
pub proof fn lemma_add_contains<A>(a: Seq<A>, b: Seq<A>, t: A)
    ensures
        (a + b).contains(t) <==> a.contains(t) || b.contains(t),
{
    if (a + b).contains(t) {
        let k = choose|k: int| 0 <= k < (a + b).len() && (a + b)[k] == t;
        if k < a.len() {
            assert(a[k] == t);
        } else {
            assert(b[k - a.len()] == t);
        }
    }
    if a.contains(t) {
        let k = choose|k: int| 0 <= k < a.len() && a[k] == t;
        assert((a + b)[k] == t);
    }
    if b.contains(t) {
        let k = choose|k: int| 0 <= k < b.len() && b[k] == t;
        assert((a + b)[k + a.len()] == t);
    }
}

/// The maximal runs of the characters of `s` flagged in `w` (flags are read by
/// position), in order.
pub open spec fn word_runs_by(s: Seq<char>, w: Seq<bool>) -> Seq<Seq<char>>
    decreases s.len(),
{
    if s.len() == 0 {
        Seq::<Seq<char>>::empty()
    } else {
        let r = word_runs_by(s.drop_last(), w);
        let n = s.len() - 1;
        if !flag(w, n) {
            r
        } else if n >= 1 && flag(w, n - 1) {
            r.update(r.len() - 1, r.last().push(s.last()))
        } else {
            r.push(seq![s.last()])
        }
    }
}

/// The maximal runs of Unicode word characters of `s`, in order.
pub open spec fn word_runs(s: Seq<char>) -> Seq<Seq<char>> {
    word_runs_by(s, word_flags(s))
}

pub proof fn lemma_word_runs_last(s: Seq<char>, w: Seq<bool>)
    requires
        s.len() > 0,
        flag(w, s.len() - 1),
    ensures
        word_runs_by(s, w).len() > 0,
    decreases s.len(),
{
    if s.len() >= 2 && flag(w, s.len() - 2) {
        lemma_word_runs_last(s.drop_last(), w);
    }
}

/// A character of the class `[a-z0-9]` matched case-insensitively: an ASCII
/// letter or digit, or `ſ` / the Kelvin sign, which Unicode simple case folding
/// equates with `s` and `k`.
pub open spec fn fold_alnum(c: char) -> bool {
    is_alnum(c) || c == '\u{17f}' || c == '\u{212a}'
}

/// A word run of the form `[a-z0-9]*_pll`, matched case-insensitively.
pub open spec fn is_pll_word(r: Seq<char>) -> bool {
    &&& r.len() >= 4
    &&& lower(r.subrange(r.len() - 4, r.len() as int)) == seq!['_', 'p', 'l', 'l']
    &&& forall|i: int| 0 <= i < r.len() - 4 ==> fold_alnum(#[trigger] r[i])
}

/// Intel/Altera PLL primitive names; they name no clock domain of their own.
pub open spec fn is_primitive(t: Seq<char>) -> bool {
    t == "cyclonev_pll"@ || t == "altera_pll"@ || t == "altera_pll_reconfig"@
}

/// The distinct, lowercased, non-primitive `*_pll` tokens of a text whose word
/// characters are flagged in `w`, in order of first appearance.
pub open spec fn pll_tokens_by(body: Seq<char>, w: Seq<bool>) -> Seq<Seq<char>> {
    dedup(
        word_runs_by(body, w).filter(|r: Seq<char>| is_pll_word(r)).map_values(|r: Seq<char>| lower(r)).filter(
            |t: Seq<char>| !is_primitive(t),
        ),
    )
}

/// The distinct, lowercased, non-primitive `*_pll` tokens of a text, in order of
/// first appearance.
pub open spec fn pll_tokens(body: Seq<char>) -> Seq<Seq<char>> {
    pll_tokens_by(body, word_flags(body))
}

/// Index of the first `}` at or after `k`.
pub open spec fn close_from(s: Seq<char>, k: int) -> Option<int>
    decreases s.len() - k,
{
    if k < 0 || k >= s.len() {
        None
    } else if s[k] == '}' {
        Some(k)
    } else {
        close_from(s, k + 1)
    }
}

pub proof fn lemma_close_from(s: Seq<char>, k: int)
    requires
        0 <= k,
    ensures
        close_from(s, k) matches Some(e) ==> k <= e < s.len() && s[e] == '}' && forall|j: int|
            k <= j < e ==> s[j] != '}',
        close_from(s, k) is None ==> forall|j: int| k <= j < s.len() ==> s[j] != '}',
    decreases s.len() - k,
{
    if k < s.len() && s[k] != '}' {
        lemma_close_from(s, k + 1);
    }
}

/// A `-group\s*{[^}]*}` clause starting at `i`: the indices of its `{` and `}`.
pub open spec fn group_match(s: Seq<char>, i: int) -> Option<(int, int)> {
    let g = "-group"@;
    if occurs_at(s, g, i) {
        let j = i + g.len();
        let k = j + lead_ws(s.subrange(j, s.len() as int));
        if k < s.len() && s[k] == '{' {
            match close_from(s, k + 1) {
                Some(e) => Some((k, e)),
                None => None,
            }
        } else {
            None
        }
    } else {
        None
    }
}

pub proof fn lemma_group_match(s: Seq<char>, i: int)
    ensures
        group_match(s, i) matches Some((b, e)) ==> 0 <= i < b < e < s.len() && s[b] == '{'
            && s[e] == '}',
{
    reveal_strlit("-group");
    if occurs_at(s, "-group"@, i) {
        let j = i + 6;
        crate::text::lemma_lead_ws_bound(s.subrange(j, s.len() as int));
        let k = j + lead_ws(s.subrange(j, s.len() as int));
        if k < s.len() && s[k] == '{' {
            lemma_close_from(s, k + 1);
        }
    }
}

/// The bodies of the `-group {..}` clauses of a statement, searching from `p`
/// leftmost-first without overlap.
pub open spec fn group_bodies_from(s: Seq<char>, p: int) -> Seq<Seq<char>>
    decreases s.len() - p,
{
    if p < 0 || p >= s.len() {
        Seq::<Seq<char>>::empty()
    } else {
        match group_match(s, p) {
            Some((b, e)) => {
                proof {
                    lemma_group_match(s, p);
                }
                seq![s.subrange(b + 1, e)] + group_bodies_from(s, e + 1)
            },
            None => group_bodies_from(s, p + 1),
        }
    }
}

/// The bodies of all `-group {..}` clauses of a statement.
pub open spec fn group_bodies(s: Seq<char>) -> Seq<Seq<char>> {
    group_bodies_from(s, 0)
}

/// A character that can start a clock name.
pub open spec fn ident_start(c: char) -> bool {
    ('a' <= c && c <= 'z') || ('A' <= c && c <= 'Z') || c == '_'
}

/// Length of the run of clock-name characters (`[\w$]`) starting at `k`.
pub open spec fn ident_len(s: Seq<char>, w: Seq<bool>, k: int) -> nat
    decreases s.len() - k,
{
    if 0 <= k < s.len() && (flag(w, k) || s[k] == '$') {
        1 + ident_len(s, w, k + 1)
    } else {
        0
    }
}

/// A `-name\s+<clock>` option starting at `i`, and the clock it names.
pub open spec fn name_at(s: Seq<char>, w: Seq<bool>, i: int) -> Option<Seq<char>> {
    let opt = "-name"@;
    if occurs_at(s, opt, i) {
        let j = i + opt.len();
        let n = lead_ws(s.subrange(j, s.len() as int));
        let k = j + n;
        if n >= 1 && k < s.len() && ident_start(s[k]) {
            Some(s.subrange(k, k + 1 + ident_len(s, w, k + 1)))
        } else {
            None
        }
    } else {
        None
    }
}

/// The clock named by the leftmost `-name` option at or after `p`.
pub open spec fn first_name_from(s: Seq<char>, w: Seq<bool>, p: int) -> Option<Seq<char>>
    decreases s.len() - p,
{
    if p < 0 || p >= s.len() {
        None
    } else {
        match name_at(s, w, p) {
            Some(n) => Some(n),
            None => first_name_from(s, w, p + 1),
        }
    }
}

/// The clock named by the first `-name` option of a statement whose word
/// characters are flagged in `w`.
pub open spec fn first_name_by(s: Seq<char>, w: Seq<bool>) -> Option<Seq<char>> {
    first_name_from(s, w, 0)
}

/// The clock named by a statement's first `-name` option.
pub open spec fn first_name(s: Seq<char>) -> Option<Seq<char>> {
    first_name_by(s, word_flags(s))
}

/// Length of the run of word characters starting at `k`.
pub open spec fn word_len(s: Seq<char>, w: Seq<bool>, k: int) -> nat
    decreases s.len() - k,
{
    if 0 <= k < s.len() && flag(w, k) {
        1 + word_len(s, w, k + 1)
    } else {
        0
    }
}

/// A character of `[a-z0-9_]` matched case-insensitively.
pub open spec fn name_class(c: char) -> bool {
    fold_alnum(c) || c == '_'
}

/// A `\bmodule\s+([a-z0-9_]*_pll)\b` declaration (case-insensitive) starting at
/// `i`: the declared name and the index just past it.
pub open spec fn module_at(s: Seq<char>, w: Seq<bool>, i: int) -> Option<(Seq<char>, int)> {
    let kw = "module"@;
    if 0 <= i && (i == 0 || !flag(w, i - 1)) && i + kw.len() <= s.len() && lower(
        s.subrange(i, i + kw.len()),
    ) == kw {
        let j = i + kw.len();
        let n = lead_ws(s.subrange(j, s.len() as int));
        let k = j + n;
        let e = k + word_len(s, w, k);
        if n >= 1 && e - k >= 4 && lower(s.subrange(e - 4, e)) == seq!['_', 'p', 'l', 'l'] && (forall|m: int|
            k <= m < e - 4 ==> name_class(#[trigger] s[m])) {
            Some((s.subrange(k, e), e))
        } else {
            None
        }
    } else {
        None
    }
}

pub proof fn lemma_word_len(s: Seq<char>, w: Seq<bool>, k: int)
    requires
        0 <= k,
    ensures
        k + word_len(s, w, k) <= s.len() || word_len(s, w, k) == 0,
        forall|j: int| k <= j < k + word_len(s, w, k) ==> flag(w, j),
        k + word_len(s, w, k) < s.len() ==> !flag(w, k + word_len(s, w, k)),
    decreases s.len() - k,
{
    if 0 <= k < s.len() && flag(w, k) {
        lemma_word_len(s, w, k + 1);
    }
}

pub proof fn lemma_module_at(s: Seq<char>, w: Seq<bool>, i: int)
    ensures
        module_at(s, w, i) matches Some((n, e)) ==> i < e <= s.len(),
{
    reveal_strlit("module");
    if module_at(s, w, i) is Some {
        let j = i + 6;
        crate::text::lemma_lead_ws_bound(s.subrange(j, s.len() as int));
        let k = j + lead_ws(s.subrange(j, s.len() as int));
        lemma_word_len(s, w, k);
    }
}

/// The names of the `module <name>_pll` declarations of a text, searching from
/// `p` leftmost-first without overlap.
pub open spec fn module_names_from(s: Seq<char>, w: Seq<bool>, p: int) -> Seq<Seq<char>>
    decreases s.len() - p,
{
    if p < 0 || p >= s.len() {
        Seq::<Seq<char>>::empty()
    } else {
        match module_at(s, w, p) {
            Some((n, e)) => {
                proof {
                    lemma_module_at(s, w, p);
                }
                seq![n] + module_names_from(s, w, e)
            },
            None => module_names_from(s, w, p + 1),
        }
    }
}

/// The names of all `module <name>_pll` declarations of a text whose word
/// characters are flagged in `w`.
pub open spec fn module_names_by(s: Seq<char>, w: Seq<bool>) -> Seq<Seq<char>> {
    module_names_from(s, w, 0)
}

/// The names of all `module <name>_pll` declarations of a text.
pub open spec fn module_names(s: Seq<char>) -> Seq<Seq<char>> {
    module_names_by(s, word_flags(s))
}

} // verus!

verus! {

/// Does `v` hold a vector equal to `x`?
pub fn contains_seq_exec(v: &Vec<Vec<char>>, x: &Vec<char>) -> (r: bool)
    ensures
        r == seqs(v@).contains(x@),
{
    let mut i: usize = 0;
    while i < v.len()
        invariant
            i <= v@.len(),
            forall|j: int| 0 <= j < i ==> v@[j]@ != x@,
        decreases v.len() - i,
    {
        if eq_exec(&v[i], x) {
            assert(seqs(v@)[i as int] == x@);
            return true;
        }
        i = i + 1;
    }
    assert forall|j: int| 0 <= j < seqs(v@).len() implies seqs(v@)[j] != x@ by {
        assert(seqs(v@)[j] == v@[j]@);
    }
    false
}

/// The maximal runs of the characters of `s` flagged in `w`.
pub fn word_runs_marked(s: &Vec<char>, w: &Vec<bool>) -> (r: Vec<Vec<char>>)
    ensures
        seqs(r@) == word_runs_by(s@, w@),
{
    let mut done: Vec<Vec<char>> = Vec::new();
    let mut cur: Vec<char> = Vec::new();
    let mut i: usize = 0;
    while i < s.len()
        invariant
            i <= s@.len(),
            word_runs_by(s@.subrange(0, i as int), w@) == (if cur@.len() > 0 {
                seqs(done@).push(cur@)
            } else {
                seqs(done@)
            }),
            cur@.len() > 0 <==> (i > 0 && flag(w@, i - 1)),
        decreases s.len() - i,
    {
        let c = s[i];
        let ghost t = s@.subrange(0, i + 1);
        assert(t.drop_last() == s@.subrange(0, i as int));
        assert(t.last() == c);
        let f = i < w.len() && w[i];
        if !f {
            if cur.len() > 0 {
                let ghost before = done@;
                let finished = cur;
                done.push(finished);
                cur = Vec::new();
                assert(seqs(done@) == seqs(before).push(finished@));
            }
        } else {
            let ghost old_cur = cur@;
            cur.push(c);
            proof {
                if old_cur.len() > 0 {
                    let r = seqs(done@).push(old_cur);
                    assert(word_runs_by(t, w@) == r.update(r.len() - 1, r.last().push(c)));
                    assert(r.update(r.len() - 1, r.last().push(c)) =~= seqs(done@).push(cur@));
                } else {
                    assert(cur@ =~= seq![c]);
                }
            }
        }
        i = i + 1;
    }
    assert(s@.subrange(0, s@.len() as int) == s@);
    if cur.len() > 0 {
        let ghost before = done@;
        done.push(cur);
        assert(seqs(done@) == seqs(before).push(cur@));
    }
    done
}

/// The maximal runs of Unicode word characters of `s`.
pub fn word_runs_exec(s: &Vec<char>) -> (r: Vec<Vec<char>>)
    ensures
        seqs(r@) == word_runs(s@),
{
    let w = word_flags_exec(s);
    word_runs_marked(s, &w)
}

/// Is `c` in `[a-z0-9]` matched case-insensitively?
pub fn fold_alnum_char(c: char) -> (r: bool)
    ensures
        r == fold_alnum(c),
{
    is_alnum_char(c) || c == '\u{17f}' || c == '\u{212a}'
}

/// Is the run of the form `[a-z0-9]*_pll`, matched case-insensitively?
pub fn is_pll_word_exec(r: &Vec<char>) -> (b: bool)
    ensures
        b == is_pll_word(r@),
{
    let n = r.len();
    if n < 4 {
        return false;
    }
    let tail = slice_of(r, n - 4, n);
    let low = lower_vec(&tail);
    let mut suffix: Vec<char> = Vec::new();
    suffix.push('_');
    suffix.push('p');
    suffix.push('l');
    suffix.push('l');
    assert(suffix@ == seq!['_', 'p', 'l', 'l']);
    if !eq_exec(&low, &suffix) {
        return false;
    }
    let mut i: usize = 0;
    while i < n - 4
        invariant
            n == r@.len(),
            n >= 4,
            i <= n - 4,
            forall|j: int| 0 <= j < i ==> fold_alnum(#[trigger] r@[j]),
        decreases n - 4 - i,
    {
        if !fold_alnum_char(r[i]) {
            return false;
        }
        i = i + 1;
    }
    true
}

/// Is the token one of the Altera PLL primitives?
pub fn is_primitive_exec(t: &Vec<char>) -> (b: bool)
    ensures
        b == is_primitive(t@),
{
    let a = chars_of("cyclonev_pll");
    let b = chars_of("altera_pll");
    let c = chars_of("altera_pll_reconfig");
    eq_exec(t, &a) || eq_exec(t, &b) || eq_exec(t, &c)
}

/// The distinct non-primitive `*_pll` tokens of a text whose word characters are
/// flagged in `w`.
pub fn pll_tokens_marked(body: &Vec<char>, w: &Vec<bool>) -> (out: Vec<Vec<char>>)
    ensures
        seqs(out@) == pll_tokens_by(body@, w@),
{
    let runs = word_runs_marked(body, w);
    let ghost rs = seqs(runs@);
    let ghost p1 = |r: Seq<char>| is_pll_word(r);
    let ghost f = |r: Seq<char>| lower(r);
    let ghost p2 = |t: Seq<char>| !is_primitive(t);
    let mut out: Vec<Vec<char>> = Vec::new();
    let mut i: usize = 0;
    while i < runs.len()
        invariant
            i <= runs@.len(),
            rs == seqs(runs@),
            p1 == (|r: Seq<char>| is_pll_word(r)),
            f == (|r: Seq<char>| lower(r)),
            p2 == (|t: Seq<char>| !is_primitive(t)),
            seqs(out@) == dedup(rs.take(i as int).filter(p1).map_values(f).filter(p2)),
        decreases runs.len() - i,
    {
        let r = &runs[i];
        proof {
            assert(rs.take(i + 1) == rs.take(i as int).push(r@));
            rs.take(i as int).lemma_filter_push(r@, p1);
            let a = rs.take(i as int).filter(p1);
            a.lemma_push_map_commute(f, r@);
            a.map_values(f).lemma_filter_push(lower(r@), p2);
        }
        if is_pll_word_exec(r) {
            let t = lower_vec(r);
            proof {
                let a = rs.take(i as int).filter(p1).map_values(f).filter(p2);
                assert(a.push(t@).drop_last() == a);
            }
            if !is_primitive_exec(&t) && !contains_seq_exec(&out, &t) {
                let ghost before = out@;
                out.push(t);
                assert(seqs(out@) == seqs(before).push(t@));
            }
        }
        i = i + 1;
    }
    assert(rs.take(runs@.len() as int) == rs);
    out
}

/// The distinct non-primitive `*_pll` tokens of a text.
pub fn pll_tokens_exec(body: &Vec<char>) -> (out: Vec<Vec<char>>)
    ensures
        seqs(out@) == pll_tokens(body@),
{
    let w = word_flags_exec(body);
    pll_tokens_marked(body, &w)
}

} // verus!

verus! {

/// The first `}` at or after `k`.
pub fn close_from_exec(s: &Vec<char>, k: usize) -> (r: Option<usize>)
    ensures
        match r {
            Some(e) => close_from(s@, k as int) == Some(e as int),
            None => close_from(s@, k as int) is None,
        },
{
    let mut j = k;
    while j < s.len()
        invariant
            k <= j,
            close_from(s@, j as int) == close_from(s@, k as int),
        decreases s.len() - j,
    {
        if s[j] == '}' {
            return Some(j);
        }
        j = j + 1;
    }
    None
}

/// The `-group {..}` clause starting at `i`, as the indices of its braces.
pub(crate) fn group_match_exec(s: &Vec<char>, g: &Vec<char>, i: usize) -> (r: Option<(usize, usize)>)
    requires
        g@ == "-group"@,
    ensures
        match r {
            Some((b, e)) => group_match(s@, i as int) == Some((b as int, e as int)),
            None => group_match(s@, i as int) is None,
        },
{
    proof {
        reveal_strlit("-group");
    }
    if !occurs_at_exec(s, g, i) {
        return None;
    }
    assert(g@.len() == 6);
    let n = s.len();
    let j = i + 6;
    let k = trim_start_idx(s, j, s.len());
    if k < s.len() && s[k] == '{' {
        match close_from_exec(s, k + 1) {
            Some(e) => Some((k, e)),
            None => None,
        }
    } else {
        None
    }
}

/// The bodies of the `-group {..}` clauses of a statement.
pub fn group_bodies_exec(s: &Vec<char>) -> (r: Vec<Vec<char>>)
    ensures
        seqs(r@) == group_bodies(s@),
{
    let g = chars_of("-group");
    let mut out: Vec<Vec<char>> = Vec::new();
    let mut i: usize = 0;
    while i < s.len()
        invariant
            g@ == "-group"@,
            i <= s@.len(),
            seqs(out@) + group_bodies_from(s@, i as int) == group_bodies(s@),
        decreases s.len() - i,
    {
        match group_match_exec(s, &g, i) {
            Some((b, e)) => {
                proof {
                    lemma_group_match(s@, i as int);
                }
                let body = slice_of(s, b + 1, e);
                let ghost before = out@;
                out.push(body);
                proof {
                    assert(seqs(out@) == seqs(before).push(body@));
                    assert(group_bodies_from(s@, i as int) == seq![body@] + group_bodies_from(
                        s@,
                        e + 1,
                    ));
                    assert(seqs(before) + (seq![body@] + group_bodies_from(s@, e + 1)) =~= seqs(
                        before,
                    ).push(body@) + group_bodies_from(s@, e + 1));
                }
                i = e + 1;
            },
            None => {
                i = i + 1;
            },
        }
    }
    assert(seqs(out@) + Seq::<Seq<char>>::empty() == seqs(out@));
    out
}

/// Length of the run of clock-name characters starting at `k`.
fn ident_len_exec(s: &Vec<char>, w: &Vec<bool>, k: usize) -> (n: usize)
    requires
        k <= s@.len(),
    ensures
        n == ident_len(s@, w@, k as int),
        k + n <= s@.len(),
{
    let mut j = k;
    while j < s.len() && ((j < w.len() && w[j]) || s[j] == '$')
        invariant
            k <= j <= s@.len(),
            ident_len(s@, w@, k as int) == (j - k) + ident_len(s@, w@, j as int),
        decreases s.len() - j,
    {
        j = j + 1;
    }
    j - k
}

/// The clock named by the leftmost `-name` option of a statement whose word
/// characters are flagged in `w`.
pub fn first_name_marked(s: &Vec<char>, w: &Vec<bool>) -> (r: Option<Vec<char>>)
    ensures
        match r {
            Some(n) => first_name_by(s@, w@) == Some(n@),
            None => first_name_by(s@, w@) is None,
        },
{
    let opt = chars_of("-name");
    proof {
        reveal_strlit("-name");
    }
    let mut i: usize = 0;
    while i < s.len()
        invariant
            opt@ == "-name"@,
            i <= s@.len(),
            first_name_from(s@, w@, i as int) == first_name_by(s@, w@),
        decreases s.len() - i,
    {
        proof {
            reveal_strlit("-name");
        }
        if occurs_at_exec(s, &opt, i) {
            assert(opt@.len() == 5);
            let j = i + 5;
            let k = trim_start_idx(s, j, s.len());
            if k > j && k < s.len() && (('a' <= s[k] && s[k] <= 'z') || ('A' <= s[k] && s[k] <= 'Z')
                || s[k] == '_') {
                let n = ident_len_exec(s, w, k + 1);
                let name = slice_of(s, k, k + 1 + n);
                return Some(name);
            }
        }
        i = i + 1;
    }
    None
}

/// The clock named by the leftmost `-name` option of a statement.
pub fn first_name_exec(s: &Vec<char>) -> (r: Option<Vec<char>>)
    ensures
        match r {
            Some(n) => first_name(s@) == Some(n@),
            None => first_name(s@) is None,
        },
{
    let w = word_flags_exec(s);
    first_name_marked(s, &w)
}

/// Length of the run of word characters starting at `k`.
fn word_len_exec(s: &Vec<char>, w: &Vec<bool>, k: usize) -> (n: usize)
    requires
        k <= s@.len(),
    ensures
        n == word_len(s@, w@, k as int),
        k + n <= s@.len(),
{
    let mut j = k;
    while j < s.len() && j < w.len() && w[j]
        invariant
            k <= j <= s@.len(),
            word_len(s@, w@, k as int) == (j - k) + word_len(s@, w@, j as int),
        decreases s.len() - j,
    {
        j = j + 1;
    }
    j - k
}

/// The `module <name>_pll` declaration starting at `i`: its name and end.
fn module_at_exec(s: &Vec<char>, w: &Vec<bool>, kw: &Vec<char>, i: usize) -> (r: Option<(Vec<char>, usize)>)
    requires
        kw@ == "module"@,
        i <= s@.len(),
    ensures
        match r {
            Some((n, e)) => module_at(s@, w@, i as int) == Some((n@, e as int)),
            None => module_at(s@, w@, i as int) is None,
        },
{
    proof {
        reveal_strlit("module");
    }
    if i > 0 && i - 1 < w.len() && w[i - 1] {
        return None;
    }
    if s.len() < 6 || i > s.len() - 6 {
        return None;
    }
    let head = slice_of(s, i, i + 6);
    let low = lower_vec(&head);
    if !eq_exec(&low, kw) {
        return None;
    }
    let j = i + 6;
    let k = trim_start_idx(s, j, s.len());
    let n = word_len_exec(s, w, k);
    let e = k + n;
    if k > j && n >= 4 {
        let tail = slice_of(s, e - 4, e);
        let tl = lower_vec(&tail);
        let mut suffix: Vec<char> = Vec::new();
        suffix.push('_');
        suffix.push('p');
        suffix.push('l');
        suffix.push('l');
        assert(suffix@ == seq!['_', 'p', 'l', 'l']);
        if eq_exec(&tl, &suffix) {
            let mut m = k;
            assert(module_at(s@, w@, i as int) == (if forall|x: int| k <= x < e - 4 ==> name_class(#[trigger] s@[x]) {
                Some((s@.subrange(k as int, e as int), e as int))
            } else {
                None
            }));
            while m < e - 4
                invariant
                    k <= m <= e - 4,
                    e <= s@.len(),
                    forall|x: int| k <= x < m ==> name_class(#[trigger] s@[x]),
                    module_at(s@, w@, i as int) == (if forall|x: int| k <= x < e - 4 ==> name_class(#[trigger] s@[x]) {
                        Some((s@.subrange(k as int, e as int), e as int))
                    } else {
                        None
                    }),
                decreases e - 4 - m,
            {
                if !(fold_alnum_char(s[m]) || s[m] == '_') {
                    assert(!name_class(s@[m as int]));
                    return None;
                }
                m = m + 1;
            }
            let name = slice_of(s, k, e);
            return Some((name, e));
        }
    }
    None
}

/// The names of all `module <name>_pll` declarations of a text whose word
/// characters are flagged in `w`.
pub fn module_names_marked(s: &Vec<char>, w: &Vec<bool>) -> (r: Vec<Vec<char>>)
    ensures
        seqs(r@) == module_names_by(s@, w@),
{
    let kw = chars_of("module");
    let mut out: Vec<Vec<char>> = Vec::new();
    let mut i: usize = 0;
    while i < s.len()
        invariant
            kw@ == "module"@,
            i <= s@.len(),
            seqs(out@) + module_names_from(s@, w@, i as int) == module_names_by(s@, w@),
        decreases s.len() - i,
    {
        match module_at_exec(s, w, &kw, i) {
            Some((name, e)) => {
                proof {
                    lemma_module_at(s@, w@, i as int);
                }
                let ghost before = out@;
                let ghost nv = name@;
                out.push(name);
                proof {
                    assert(seqs(out@) == seqs(before).push(nv));
                    assert(seqs(before) + (seq![nv] + module_names_from(s@, w@, e as int)) =~= seqs(
                        before,
                    ).push(nv) + module_names_from(s@, w@, e as int));
                }
                i = e;
            },
            None => {
                i = i + 1;
            },
        }
    }
    assert(seqs(out@) + Seq::<Seq<char>>::empty() == seqs(out@));
    out
}

/// The names of all `module <name>_pll` declarations of a text.
pub fn module_names_exec(s: &Vec<char>) -> (r: Vec<Vec<char>>)
    ensures
        seqs(r@) == module_names(s@),
{
    let w = word_flags_exec(s);
    module_names_marked(s, &w)
}

} // verus!
