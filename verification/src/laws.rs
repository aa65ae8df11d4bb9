//! Properties that relate the library's functions to one another, proved over the
//! specifications their contracts use.
use vstd::prelude::*;
use crate::design::{
    DesignView, MemKind, MemView, design_spec, file_mem, file_pll_candidates, first_crossing,
    first_per_kind, has_crossing, is_crossing_kind, pll_candidate, universe_of,
};
use crate::fix::{
    UNVERIFIED_BANNER, all_blocks, block_spec, describe, find_file, find_fixed, fix_lines_from,
    ends_bs, fix_continuations, fixed_text, is_header, plan_spec, pure_phantom, removal_fix, removed_from, removed_groups,
    removed_lines_from, suggestions_spec, with_suggestions, FixedView,
};
use crate::lines::split_on;
use crate::lint::{
    crossing_findings, fired_spec, fires_b, phantom_findings, report_spec, universe, Lint, Severity,
};
use crate::scan::{dedup, group_bodies, group_match, is_pll_word, lemma_group_match, pll_tokens_by, word_runs_by};
use crate::sdc::{
    SdcView, added_kinds, all_kinds, async_token, async_tokens, file_clocks, file_datapath,
    file_groups, file_statements, first_async, has_async, parse_spec,
};
use crate::source::{
    SourceFile, first_after, is_rtl_path, is_sdc_path, lemma_first_after, sort_by_path,
};
use crate::text::{has_sub, lower, occurs_at, trim, trim_end};

verus! {

proof fn lemma_first_crossing(ms: Seq<MemView>)
    ensures
        first_crossing(ms) is Some <==> exists|i: int| 0 <= i < ms.len() && is_crossing_kind(#[trigger] ms[i].kind),
    decreases ms.len(),
{
    if ms.len() > 0 {
        lemma_first_crossing(ms.drop_first());
        if exists|i: int| 0 <= i < ms.len() && is_crossing_kind(#[trigger] ms[i].kind) {
            let i = choose|i: int| 0 <= i < ms.len() && is_crossing_kind(#[trigger] ms[i].kind);
            if i > 0 {
                assert(ms.drop_first()[i - 1] == ms[i]);
            }
        }
        if exists|i: int| 0 <= i < ms.len() - 1 && is_crossing_kind(#[trigger] ms.drop_first()[i].kind) {
            let i = choose|i: int| 0 <= i < ms.len() - 1 && is_crossing_kind(#[trigger] ms.drop_first()[i].kind);
            assert(ms[i + 1] == ms.drop_first()[i]);
        }
    }
}

/// Lint B fires exactly when the core sits under a blanket `-asynchronous` cut,
/// ships an SDRAM/PSRAM controller, and adds no datapath timing of its own; it
/// then yields one high-severity finding. A BRAM-only core (no crossing
/// controller) is never flagged.
pub proof fn law_lint_b_fires_iff(sdc: SdcView, d: DesignView)
    ensures
        crossing_findings(sdc, d).len() > 0 <==> (has_crossing(d) && crate::sdc::has_async(sdc)
            && added_kinds(sdc).len() == 0),
        crossing_findings(sdc, d).len() <= 1,
        forall|i: int| 0 <= i < crossing_findings(sdc, d).len() ==> (#[trigger] crossing_findings(sdc, d)[i]).lint == Lint::B
            && crossing_findings(sdc, d)[i].severity == Severity::High,
{
    lemma_first_crossing(d.memory);
}

/// Lint A flags exactly the `*_pll` tokens of `-asynchronous` groups that resolve to
/// no shipped PLL and no created clock, each once, as a warning.
pub proof fn law_lint_a_phantom_set(sdc: SdcView, d: DesignView)
    ensures
        forall|t: Seq<char>|
            (exists|i: int| 0 <= i < phantom_findings(sdc, d).len() && (#[trigger] phantom_findings(sdc, d)[i]).subject == t)
                <==> (async_token(sdc, t) && !universe(sdc, d).contains(t)),
        forall|i: int, j: int| 0 <= i < j < phantom_findings(sdc, d).len() ==>
            (#[trigger] phantom_findings(sdc, d)[i]).subject != (#[trigger] phantom_findings(sdc, d)[j]).subject,
        forall|i: int| 0 <= i < phantom_findings(sdc, d).len() ==> (#[trigger] phantom_findings(sdc, d)[i]).lint == Lint::A
            && phantom_findings(sdc, d)[i].severity == Severity::Warning,
{
    let ts = async_tokens(sdc);
    let p = |t: Seq<char>| !universe(sdc, d).contains(t);
    crate::sdc::lemma_async_tokens(sdc);
    let fs = ts.filter(p);
    let pf = phantom_findings(sdc, d);
    assert(pf.len() == fs.len());
    assert forall|i: int| 0 <= i < pf.len() implies (#[trigger] pf[i]).subject == fs[i] && p(fs[i]) && ts.contains(fs[i]) by {
        ts.lemma_filter_pred(p, i);
        assert(fs.contains(fs[i]));
        ts.lemma_filter_contains_rev(p, fs[i]);
    }
    assert forall|t: Seq<char>|
        (exists|i: int| 0 <= i < pf.len() && (#[trigger] pf[i]).subject == t)
            <==> (async_token(sdc, t) && !universe(sdc, d).contains(t)) by {
        if async_token(sdc, t) && !universe(sdc, d).contains(t) {
            assert(ts.contains(t));
            let k = choose|k: int| 0 <= k < ts.len() && ts[k] == t;
            ts.lemma_filter_contains(p, k);
            let i = choose|i: int| 0 <= i < fs.len() && fs[i] == t;
            assert(pf[i].subject == t);
        }
    }
    assert forall|i: int, j: int| 0 <= i < j < pf.len() implies
        (#[trigger] pf[i]).subject != (#[trigger] pf[j]).subject by {
        crate::order::lemma_filter_sorted(ts, p);
        crate::order::lemma_lex_irreflexive(fs[i]);
    }
}

/// Lint B fires in a report exactly when its three conditions hold; Lint A fires
/// exactly when some `-asynchronous` `*_pll` token is outside the clock universe;
/// and every Lint B finding comes before every Lint A finding.
pub proof fn law_report_fired(core: Seq<char>, sdc: SdcView, d: DesignView)
    ensures
        fired_spec(report_spec(core, sdc, d), Lint::B) <==> (has_async(sdc) && has_crossing(d)
            && added_kinds(sdc).len() == 0),
        fired_spec(report_spec(core, sdc, d), Lint::A) <==> exists|t: Seq<char>|
            #[trigger] async_token(sdc, t) && !universe(sdc, d).contains(t),
        forall|i: int, j: int| 0 <= i < j < report_spec(core, sdc, d).findings.len()
            && (#[trigger] report_spec(core, sdc, d).findings[i]).lint == Lint::A
            ==> (#[trigger] report_spec(core, sdc, d).findings[j]).lint == Lint::A,
{
    law_lint_b_fires_iff(sdc, d);
    law_lint_a_phantom_set(sdc, d);
    let r = report_spec(core, sdc, d);
    let cf = crossing_findings(sdc, d);
    let pf = phantom_findings(sdc, d);
    assert(r.findings == cf + pf);
    if fired_spec(r, Lint::B) {
        let i = choose|i: int| 0 <= i < r.findings.len() && (#[trigger] r.findings[i]).lint == Lint::B;
        if i >= cf.len() {
            assert(pf[i - cf.len()] == r.findings[i]);
        }
    }
    if has_async(sdc) && has_crossing(d) && added_kinds(sdc).len() == 0 {
        assert(r.findings[0] == cf[0]);
    }
    if fired_spec(r, Lint::A) {
        let i = choose|i: int| 0 <= i < r.findings.len() && (#[trigger] r.findings[i]).lint == Lint::A;
        assert(i >= cf.len());
        let k = i - cf.len();
        assert(pf[k] == r.findings[i]);
        let t = pf[k].subject;
        assert(exists|m: int| 0 <= m < pf.len() && (#[trigger] pf[m]).subject == t);
        assert(async_token(sdc, t) && !universe(sdc, d).contains(t));
    }
    if exists|t: Seq<char>| #[trigger] async_token(sdc, t) && !universe(sdc, d).contains(t) {
        let t = choose|t: Seq<char>| #[trigger] async_token(sdc, t) && !universe(sdc, d).contains(t);
        let i = choose|i: int| 0 <= i < pf.len() && (#[trigger] pf[i]).subject == t;
        assert(r.findings[cf.len() + i] == pf[i]);
    }
    assert forall|i: int, j: int| 0 <= i < j < r.findings.len() && (#[trigger] r.findings[i]).lint == Lint::A
        implies (#[trigger] r.findings[j]).lint == Lint::A by {
        assert(i >= cf.len());
        assert(r.findings[j] == pf[j - cf.len()]);
    }
}

/// No added datapath timing means every datapath constraint came from the
/// framework file.
pub proof fn law_added_timing_empty(sdc: SdcView)
    ensures
        added_kinds(sdc).len() == 0 <==> forall|i: int| 0 <= i < sdc.datapath.len() ==> (#[trigger] sdc.datapath[i]).framework,
{
    let ks = all_kinds();
    let p = |k: crate::sdc::DatapathKind| exists|i: int|
        0 <= i < sdc.datapath.len() && !(#[trigger] sdc.datapath[i]).framework && sdc.datapath[i].kind == k;
    if added_kinds(sdc).len() > 0 {
        ks.lemma_filter_pred(p, 0);
    }
    if exists|i: int| 0 <= i < sdc.datapath.len() && !(#[trigger] sdc.datapath[i]).framework {
        let i = choose|i: int| 0 <= i < sdc.datapath.len() && !(#[trigger] sdc.datapath[i]).framework;
        let k = sdc.datapath[i].kind;
        let n: int = match k {
            crate::sdc::DatapathKind::Multicycle => 0,
            crate::sdc::DatapathKind::FalsePath => 1,
            crate::sdc::DatapathKind::InputDelay => 2,
            crate::sdc::DatapathKind::OutputDelay => 3,
        };
        assert(ks[n] == k);
        ks.lemma_filter_contains(p, n);
    }
}

proof fn lemma_universe_of(plls: Seq<Seq<char>>, created: Seq<Seq<char>>, t: Seq<char>)
    ensures
        universe_of(plls, created).contains(t) <==> plls.contains(t) || exists|j: int|
            0 <= j < created.len() && lower(#[trigger] created[j]) == t,
    decreases created.len(),
{
    if created.len() > 0 {
        let init = created.drop_last();
        lemma_universe_of(plls, init, t);
        crate::scan::lemma_push_contains(universe_of(plls, init), lower(created.last()), t);
        if exists|j: int| 0 <= j < created.len() && lower(#[trigger] created[j]) == t {
            let j = choose|j: int| 0 <= j < created.len() && lower(#[trigger] created[j]) == t;
            if j < created.len() - 1 {
                assert(init[j] == created[j]);
            }
        }
        if exists|j: int| 0 <= j < init.len() && lower(#[trigger] init[j]) == t {
            let j = choose|j: int| 0 <= j < init.len() && lower(#[trigger] init[j]) == t;
            assert(created[j] == init[j]);
        }
        if lower(created.last()) == t {
            assert(lower(created[created.len() - 1]) == t);
        }
    }
}

/// A clock name is in the universe exactly when it is a shipped PLL token or
/// the lowercase of a created clock.
pub proof fn law_universe_membership(sdc: SdcView, d: DesignView, t: Seq<char>)
    ensures
        universe(sdc, d).contains(t) <==> d.pll_modules.contains(t) || exists|j: int|
            0 <= j < sdc.created_clocks.len() && lower(#[trigger] sdc.created_clocks[j]) == t,
{
    lemma_universe_of(d.pll_modules, sdc.created_clocks, t);
}

/// The `*_pll` tokens of a text, for any word flags, occur once each, are
/// ASCII-lowercase (lowercasing leaves them as they are) and none is a PLL
/// primitive.
pub proof fn law_pll_tokens_distinct(body: Seq<char>, w: Seq<bool>)
    ensures
        forall|i: int, j: int| 0 <= i < j < pll_tokens_by(body, w).len() ==>
            #[trigger] pll_tokens_by(body, w)[i] != #[trigger] pll_tokens_by(body, w)[j],
        forall|i: int| 0 <= i < pll_tokens_by(body, w).len() ==>
            !crate::scan::is_primitive(#[trigger] pll_tokens_by(body, w)[i])
            && lower(pll_tokens_by(body, w)[i]) == pll_tokens_by(body, w)[i],
{
    let l = word_runs_by(body, w).filter(|r: Seq<char>| is_pll_word(r)).map_values(|r: Seq<char>| lower(r));
    let np = |t: Seq<char>| !crate::scan::is_primitive(t);
    let f = l.filter(np);
    crate::scan::lemma_dedup(f);
    let ts = pll_tokens_by(body, w);
    assert forall|i: int| 0 <= i < ts.len() implies !crate::scan::is_primitive(#[trigger] ts[i])
        && lower(ts[i]) == ts[i] by {
        assert(ts.contains(ts[i]));
        assert(f.contains(ts[i]));
        let k = choose|k: int| 0 <= k < f.len() && f[k] == ts[i];
        l.lemma_filter_pred(np, k);
        assert(f.contains(f[k]));
        l.lemma_filter_contains_rev(np, f[k]);
        let m = choose|m: int| 0 <= m < l.len() && l[m] == f[k];
        crate::text::lemma_lower_idem(word_runs_by(body, w).filter(|r: Seq<char>| is_pll_word(r))[m]);
    }
}

broadcast proof fn lemma_has_sub_add(x: Seq<char>, y: Seq<char>, t: Seq<char>)
    ensures
        (has_sub(x, t) || has_sub(y, t)) ==> #[trigger] has_sub(x + y, t),
{
    if has_sub(x, t) {
        let i = choose|i: int| occurs_at(x, t, i);
        assert((x + y).subrange(i, i + t.len()) =~= x.subrange(i, i + t.len()));
        assert(occurs_at(x + y, t, i));
    } else if has_sub(y, t) {
        let i = choose|i: int| occurs_at(y, t, i);
        assert((x + y).subrange(x.len() + i, x.len() + i + t.len()) =~= y.subrange(i, i + t.len()));
        assert(occurs_at(x + y, t, x.len() + i));
    }
}

/// Every suggestion block names the UNVERIFIED banner and leaves the clocks and
/// the cycle count as the placeholders `<CORE_CLK>`, `<MEM_CLK>` and `<N>`.
pub proof fn law_block_markers(crossing: Seq<char>, evidence: Seq<char>)
    ensures
        has_sub(block_spec(crossing, evidence), UNVERIFIED_BANNER@),
        has_sub(block_spec(crossing, evidence), "<N>"@),
        has_sub(block_spec(crossing, evidence), "<CORE_CLK>"@),
        has_sub(block_spec(crossing, evidence), "<MEM_CLK>"@),
{
    broadcast use lemma_has_sub_add;
    let line = "#   set_multicycle_path -from [get_clocks <CORE_CLK>] -to [get_clocks <MEM_CLK>] <N>  ;# set <N>, verify in STA\n"@;
    reveal_strlit("#   set_multicycle_path -from [get_clocks <CORE_CLK>] -to [get_clocks <MEM_CLK>] <N>  ;# set <N>, verify in STA\n");
    reveal_strlit("<N>");
    reveal_strlit("<CORE_CLK>");
    reveal_strlit("<MEM_CLK>");
    assert(occurs_at(line, "<CORE_CLK>"@, 42)) by {
        assert(line.subrange(42, 52) =~= "<CORE_CLK>"@);
    }
    assert(occurs_at(line, "<MEM_CLK>"@, 70)) by {
        assert(line.subrange(70, 79) =~= "<MEM_CLK>"@);
    }
    assert(occurs_at(line, "<N>"@, 81)) by {
        assert(line.subrange(81, 84) =~= "<N>"@);
    }
    assert(occurs_at(UNVERIFIED_BANNER@, UNVERIFIED_BANNER@, 0)) by {
        assert(UNVERIFIED_BANNER@.subrange(0, UNVERIFIED_BANNER@.len() as int) =~= UNVERIFIED_BANNER@);
    }
    assert(has_sub(line, "<CORE_CLK>"@));
    assert(has_sub(line, "<MEM_CLK>"@));
    assert(has_sub(line, "<N>"@));
    assert(has_sub(UNVERIFIED_BANNER@, UNVERIFIED_BANNER@));
}

/// After a leading line break, every line of `s` begins with `#`: each line break
/// but the last is followed by `#`, and `s` ends with a line break.
pub open spec fn commented_lines(s: Seq<char>) -> bool {
    &&& s.len() >= 2
    &&& s[0] == '\n'
    &&& s.last() == '\n'
    &&& forall|i: int| 0 <= i < s.len() - 1 && #[trigger] s[i] == '\n' ==> s[i + 1] == '#'
}

spec fn nl_hash(s: Seq<char>) -> bool {
    forall|i: int| 0 <= i < s.len() - 1 && #[trigger] s[i] == '\n' ==> s[i + 1] == '#'
}

proof fn lemma_nl_hash_add(x: Seq<char>, y: Seq<char>)
    requires
        nl_hash(x),
        nl_hash(y),
        x.len() > 0 && x.last() == '\n' ==> y.len() > 0 && y[0] == '#',
    ensures
        nl_hash(x + y),
{
    let z = x + y;
    assert forall|i: int| 0 <= i < z.len() - 1 && #[trigger] z[i] == '\n' implies z[i + 1] == '#' by {
        if i < x.len() - 1 {
            assert(z[i] == x[i] && z[i + 1] == x[i + 1]);
        } else if i == x.len() - 1 {
            assert(z[i] == x.last());
            assert(z[i + 1] == y[0]);
        } else {
            assert(z[i] == y[i - x.len()]);
            assert(z[i + 1] == y[i + 1 - x.len()]);
        }
    }
}

proof fn lemma_no_nl(s: Seq<char>)
    requires
        !s.contains('\n'),
    ensures
        nl_hash(s),
        s.len() > 0 ==> s.last() != '\n',
{
    if s.len() > 0 {
        assert(s[s.len() - 1] == s.last());
    }
}

/// A suggestion block is fully commented: after its leading line break every line
/// begins with `#`, so no suggested constraint is ever applied as written — where
/// the crossing label and the evidence are single lines.
pub proof fn law_block_commented(crossing: Seq<char>, evidence: Seq<char>)
    requires
        !crossing.contains('\n'),
        !evidence.contains('\n'),
    ensures
        commented_lines(block_spec(crossing, evidence)),
{
    lemma_no_nl(crossing);
    lemma_no_nl(evidence);
    let p_a = "\n# ============================================================\n"@;
    assert(nl_hash(p_a) && p_a.len() > 0) by {
        reveal_strlit("\n# ============================================================\n");
    }
    let p_b = "# cdc-sentinel: GUIDED SUGGESTION — do NOT apply blind.\n"@;
    assert(nl_hash(p_b) && p_b.len() > 0) by {
        reveal_strlit("# cdc-sentinel: GUIDED SUGGESTION — do NOT apply blind.\n");
    }
    let p_c = "# Crossing: "@;
    assert(nl_hash(p_c) && p_c.len() > 0) by {
        reveal_strlit("# Crossing: ");
    }
    let p_n = "\n"@;
    assert(nl_hash(p_n) && p_n.len() > 0) by {
        reveal_strlit("\n");
    }
    let p_e = "# Evidence: "@;
    assert(nl_hash(p_e) && p_e.len() > 0) by {
        reveal_strlit("# Evidence: ");
    }
    let p_f1 = "# This crossing sits under the blanket -asynchronous cut with no datapath\n"@;
    assert(nl_hash(p_f1) && p_f1.len() > 0) by {
        reveal_strlit("# This crossing sits under the blanket -asynchronous cut with no datapath\n");
    }
    let p_f2 = "# timing, so static timing analysis is blind to it. Replace the blanket cut\n"@;
    assert(nl_hash(p_f2) && p_f2.len() > 0) by {
        reveal_strlit("# timing, so static timing analysis is blind to it. Replace the blanket cut\n");
    }
    let p_f3 = "# for THIS crossing with real datapath timing. The correct value depends on\n"@;
    assert(nl_hash(p_f3) && p_f3.len() > 0) by {
        reveal_strlit("# for THIS crossing with real datapath timing. The correct value depends on\n");
    }
    let p_f4 = "# your actual clock relationship — cdc-sentinel does NOT know it.\n"@;
    assert(nl_hash(p_f4) && p_f4.len() > 0) by {
        reveal_strlit("# your actual clock relationship — cdc-sentinel does NOT know it.\n");
    }
    let p_g = "#\n#   "@;
    assert(nl_hash(p_g) && p_g.len() > 0) by {
        reveal_strlit("#\n#   ");
    }
    let p_h = ":\n"@;
    assert(nl_hash(p_h) && p_h.len() > 0) by {
        reveal_strlit(":\n");
    }
    let p_i1 = "#   set_multicycle_path -from [get_clocks <CORE_CLK>] -to [get_clocks <MEM_CLK>] <N>  ;# set <N>, verify in STA\n"@;
    assert(nl_hash(p_i1) && p_i1.len() > 0) by {
        reveal_strlit("#   set_multicycle_path -from [get_clocks <CORE_CLK>] -to [get_clocks <MEM_CLK>] <N>  ;# set <N>, verify in STA\n");
    }
    let p_i2 = "#   # -- or, only if the path is genuinely a don't-care: --\n"@;
    assert(nl_hash(p_i2) && p_i2.len() > 0) by {
        reveal_strlit("#   # -- or, only if the path is genuinely a don't-care: --\n");
    }
    let p_i3 = "#   set_false_path -from [get_clocks <CORE_CLK>] -to [get_clocks <MEM_CLK>]           ;# confirm the path is truly async\n"@;
    assert(nl_hash(p_i3) && p_i3.len() > 0) by {
        reveal_strlit("#   set_false_path -from [get_clocks <CORE_CLK>] -to [get_clocks <MEM_CLK>]           ;# confirm the path is truly async\n");
    }
    let p_j = "# ============================================================\n"@;
    assert(nl_hash(p_j) && p_j.len() > 0) by {
        reveal_strlit("# ============================================================\n");
    }
    assert(p_a[0] == '\n' && p_a.last() == '\n') by { reveal_strlit("\n# ============================================================\n"); }
    assert(p_b[0] == '#' && p_b.last() == '\n') by { reveal_strlit("# cdc-sentinel: GUIDED SUGGESTION — do NOT apply blind.\n"); }
    assert(p_c[0] == '#' && p_c.last() == ' ') by { reveal_strlit("# Crossing: "); }
    assert(p_n[0] == '\n' && p_n.last() == '\n' && p_n.len() == 1) by { reveal_strlit("\n"); }
    assert(p_e[0] == '#' && p_e.last() == ' ') by { reveal_strlit("# Evidence: "); }
    assert(p_f1[0] == '#' && p_f1.last() == '\n') by { reveal_strlit("# This crossing sits under the blanket -asynchronous cut with no datapath\n"); }
    assert(p_f2[0] == '#' && p_f2.last() == '\n') by { reveal_strlit("# timing, so static timing analysis is blind to it. Replace the blanket cut\n"); }
    assert(p_f3[0] == '#' && p_f3.last() == '\n') by { reveal_strlit("# for THIS crossing with real datapath timing. The correct value depends on\n"); }
    assert(p_f4[0] == '#' && p_f4.last() == '\n') by { reveal_strlit("# your actual clock relationship — cdc-sentinel does NOT know it.\n"); }
    assert(p_h[0] == ':' && p_h.last() == '\n') by { reveal_strlit(":\n"); }
    assert(p_i1[0] == '#' && p_i1.last() == '\n') by { reveal_strlit("#   set_multicycle_path -from [get_clocks <CORE_CLK>] -to [get_clocks <MEM_CLK>] <N>  ;# set <N>, verify in STA\n"); }
    assert(p_i2[0] == '#' && p_i2.last() == '\n') by { reveal_strlit("#   # -- or, only if the path is genuinely a don't-care: --\n"); }
    assert(p_i3[0] == '#' && p_i3.last() == '\n') by { reveal_strlit("#   set_false_path -from [get_clocks <CORE_CLK>] -to [get_clocks <MEM_CLK>]           ;# confirm the path is truly async\n"); }
    assert(p_j[0] == '#' && p_j.last() == '\n') by { reveal_strlit("# ============================================================\n"); }
    assert(p_g[0] == '#' && p_g.last() == ' ') by { reveal_strlit("#\n#   "); }
    let ban = UNVERIFIED_BANNER@;
    assert(nl_hash(ban) && ban.len() > 0 && ban[0] == 'U' && ban.last() == 'A') by {
        reveal_strlit("UNVERIFIED — set the real value and confirm in STA");
    }
    let acc0 = p_a;
    lemma_nl_hash_add(acc0, p_b);
    let acc1 = acc0 + p_b;
    lemma_nl_hash_add(acc1, p_c);
    let acc2 = acc1 + p_c;
    lemma_nl_hash_add(acc2, crossing);
    let acc3 = acc2 + crossing;
    lemma_nl_hash_add(acc3, p_n);
    let acc4 = acc3 + p_n;
    lemma_nl_hash_add(acc4, p_e);
    let acc5 = acc4 + p_e;
    lemma_nl_hash_add(acc5, evidence);
    let acc6 = acc5 + evidence;
    lemma_nl_hash_add(acc6, p_n);
    let acc7 = acc6 + p_n;
    lemma_nl_hash_add(acc7, p_f1);
    let acc8 = acc7 + p_f1;
    lemma_nl_hash_add(acc8, p_f2);
    let acc9 = acc8 + p_f2;
    lemma_nl_hash_add(acc9, p_f3);
    let acc10 = acc9 + p_f3;
    lemma_nl_hash_add(acc10, p_f4);
    let acc11 = acc10 + p_f4;
    lemma_nl_hash_add(acc11, p_g);
    let acc12 = acc11 + p_g;
    lemma_nl_hash_add(acc12, ban);
    let acc13 = acc12 + ban;
    lemma_nl_hash_add(acc13, p_h);
    let acc14 = acc13 + p_h;
    lemma_nl_hash_add(acc14, p_i1);
    let acc15 = acc14 + p_i1;
    lemma_nl_hash_add(acc15, p_i2);
    let acc16 = acc15 + p_i2;
    lemma_nl_hash_add(acc16, p_i3);
    let acc17 = acc16 + p_i3;
    lemma_nl_hash_add(acc17, p_j);
    let acc18 = acc17 + p_j;
    assert(acc18 == block_spec(crossing, evidence));
    assert(acc18[0] == '\n');
}

proof fn lemma_first_fixed(ffs: Seq<FixedView>, p: Seq<char>, k: int) -> (m: int)
    requires
        0 <= k < ffs.len(),
        ffs[k].path == p,
    ensures
        0 <= m <= k,
        ffs[m].path == p,
        forall|j: int| 0 <= j < m ==> (#[trigger] ffs[j]).path != p,
    decreases k,
{
    if exists|j: int| 0 <= j < k && (#[trigger] ffs[j]).path == p {
        let j = choose|j: int| 0 <= j < k && (#[trigger] ffs[j]).path == p;
        lemma_first_fixed(ffs, p, j)
    } else {
        k
    }
}

proof fn lemma_find_fixed(ffs: Seq<FixedView>, p: Seq<char>)
    ensures
        match find_fixed(ffs, p) {
            Some(k) => 0 <= k < ffs.len() && ffs[k].path == p,
            None => true,
        },
{
    if exists|k: int| 0 <= k < ffs.len() && (#[trigger] ffs[k]).path == p {
        let k = choose|k: int| 0 <= k < ffs.len() && (#[trigger] ffs[k]).path == p;
        let m = lemma_first_fixed(ffs, p, k);
        assert(0 <= m < ffs.len() && ffs[m].path == p && forall|j: int| 0 <= j < m ==> (#[trigger] ffs[j]).path != p);
    }
}

proof fn lemma_first_file(files: Seq<SourceFile>, p: Seq<char>, k: int) -> (m: int)
    requires
        0 <= k < files.len(),
        files[k].path@ == p,
    ensures
        0 <= m <= k,
        files[m].path@ == p,
        forall|j: int| 0 <= j < m ==> (#[trigger] files[j]).path@ != p,
    decreases k,
{
    if exists|j: int| 0 <= j < k && (#[trigger] files[j]).path@ == p {
        let j = choose|j: int| 0 <= j < k && (#[trigger] files[j]).path@ == p;
        lemma_first_file(files, p, j)
    } else {
        k
    }
}

proof fn lemma_find_file(files: Seq<SourceFile>, p: Seq<char>)
    ensures
        match find_file(files, p) {
            Some(k) => 0 <= k < files.len() && files[k].path@ == p,
            None => true,
        },
{
    if exists|k: int| 0 <= k < files.len() && (#[trigger] files[k]).path@ == p {
        let k = choose|k: int| 0 <= k < files.len() && (#[trigger] files[k]).path@ == p;
        let m = lemma_first_file(files, p, k);
        assert(0 <= m < files.len() && files[m].path@ == p && forall|j: int| 0 <= j < m ==> (#[trigger] files[j]).path@ != p);
    }
}

/// What each removal fix holds: a removal, the corrected text, nothing appended.
spec fn removal_shape(f: FixedView, u: Seq<Seq<char>>) -> bool {
    &&& f.removed_groups.len() > 0
    &&& f.removed_groups == removed_groups(f.original, u)
    &&& f.fixed == fixed_text(f.original, u)
    &&& f.suggestions_appended == 0
}

spec fn removal_fixes(files: Seq<SourceFile>, u: Seq<Seq<char>>) -> Seq<FixedView> {
    files.flat_map(|f: SourceFile| removal_fix(f, u))
}

proof fn lemma_removal_fixes(files: Seq<SourceFile>, u: Seq<Seq<char>>)
    ensures
        forall|k: int| 0 <= k < removal_fixes(files, u).len() ==>
            removal_shape(#[trigger] removal_fixes(files, u)[k], u),
    decreases files.len(),
{
    let rf = |f: SourceFile| removal_fix(f, u);
    if files.len() == 0 {
        assert(files.map_values(rf) =~= Seq::<Seq<FixedView>>::empty());
    } else {
        let init = files.drop_last();
        lemma_removal_fixes(init, u);
        init.lemma_flat_map_push(rf, files.last());
        assert(init.push(files.last()) =~= files);
        let a = removal_fixes(init, u);
        let b = rf(files.last());
        assert(removal_fixes(files, u) == a + b);
        assert forall|k: int| 0 <= k < (a + b).len() implies removal_shape(#[trigger] (a + b)[k], u) by {
            if k < a.len() {
                assert((a + b)[k] == a[k]);
            } else {
                assert((a + b)[k] == b[k - a.len()]);
            }
        }
    }
}

/// Every file the fixer emits changed something, and its corrected text is the
/// file with its dead members removed (or the file itself where none was) followed
/// by the suggestion blocks where any were appended: suggestions are only ever
/// appended, the user's own text stays intact above them.
pub proof fn law_fixed_files_shape(core: Seq<char>, sdc: SdcView, d: DesignView, files: Seq<SourceFile>)
    ensures
        forall|k: int| 0 <= k < plan_spec(core, sdc, d, files).fixed_files.len() ==> {
            let f = #[trigger] plan_spec(core, sdc, d, files).fixed_files[k];
            let ss = plan_spec(core, sdc, d, files).suggestions;
            &&& f.removed_groups.len() > 0 || f.suggestions_appended > 0
            &&& f.fixed == (if f.removed_groups.len() > 0 {
                fixed_text(f.original, universe(sdc, d))
            } else {
                f.original
            }) + (if f.suggestions_appended > 0 {
                all_blocks(ss)
            } else {
                Seq::<char>::empty()
            })
            &&& f.suggestions_appended > 0 ==> f.suggestions_appended == ss.len()
        },
{
    let u = universe(sdc, d);
    let ffs0 = removal_fixes(files, u);
    let ss = suggestions_spec(sdc, d);
    let target = first_async(sdc.clock_groups);
    lemma_removal_fixes(files, u);
    let plan = plan_spec(core, sdc, d, files);
    assert(plan.fixed_files == with_suggestions(ffs0, files, target, ss).0);
    assert(plan.suggestions == ss);
    let ffs = plan.fixed_files;
    if ss.len() > 0 {
        if let Some(p) = target {
            lemma_find_fixed(ffs0, p);
            lemma_find_file(files, p);
            match find_fixed(ffs0, p) {
                Some(k) => {
                    assert forall|m: int| 0 <= m < ffs.len() implies ffs[m] == (if m == k {
                        FixedView {
                            path: ffs0[k].path,
                            original: ffs0[k].original,
                            fixed: ffs0[k].fixed + all_blocks(ss),
                            removed_groups: ffs0[k].removed_groups,
                            suggestions_appended: ss.len(),
                        }
                    } else {
                        ffs0[m]
                    }) by {}
                    assert(removal_shape(ffs0[k], u));
                },
                None => {
                    match find_file(files, p) {
                        Some(o) => {
                            assert forall|m: int| 0 <= m < ffs0.len() implies ffs[m] == ffs0[m] by {}
                        },
                        None => {},
                    }
                },
            }
        }
    }
    assert forall|k: int| 0 <= k < ffs.len() implies {
        let f = #[trigger] ffs[k];
        &&& f.removed_groups.len() > 0 || f.suggestions_appended > 0
        &&& f.fixed == (if f.removed_groups.len() > 0 {
            fixed_text(f.original, u)
        } else {
            f.original
        }) + (if f.suggestions_appended > 0 {
            all_blocks(ss)
        } else {
            Seq::<char>::empty()
        })
        &&& f.suggestions_appended > 0 ==> f.suggestions_appended == ss.len()
    } by {
        if k < ffs0.len() {
            assert(removal_shape(ffs0[k], u));
        }
        if ffs[k].suggestions_appended == 0 && ffs[k].removed_groups.len() > 0 {
            assert(ffs[k].fixed + Seq::<char>::empty() =~= ffs[k].fixed);
        }
    }
}

/// The fixer suggests something exactly when Lint B fires, one suggestion per
/// controller that implies a crossing, and every suggestion carries the
/// UNVERIFIED banner and the `<CORE_CLK>` / `<MEM_CLK>` / `<N>` placeholders in
/// place of any value.
pub proof fn law_plan_suggestions(core: Seq<char>, sdc: SdcView, d: DesignView, files: Seq<SourceFile>)
    ensures
        plan_spec(core, sdc, d, files).suggestions.len() > 0 <==> crossing_findings(sdc, d).len() > 0,
        crossing_findings(sdc, d).len() > 0 ==> plan_spec(core, sdc, d, files).suggestions.len()
            == d.memory.filter(|m: MemView| is_crossing_kind(m.kind)).len(),
        forall|i: int| 0 <= i < plan_spec(core, sdc, d, files).suggestions.len() ==> {
            let b = (#[trigger] plan_spec(core, sdc, d, files).suggestions[i]).block;
            &&& has_sub(b, UNVERIFIED_BANNER@)
            &&& has_sub(b, "<N>"@)
            &&& has_sub(b, "<CORE_CLK>"@)
            &&& has_sub(b, "<MEM_CLK>"@)
        },
{
    law_lint_b_fires_iff(sdc, d);
    let plan = plan_spec(core, sdc, d, files);
    let ss = suggestions_spec(sdc, d);
    assert(plan.suggestions == ss);
    let cp = |m: MemView| is_crossing_kind(m.kind);
    let cm = d.memory.filter(cp);
    if fires_b(sdc, d) {
        let i = choose|i: int| 0 <= i < d.memory.len() && is_crossing_kind(#[trigger] d.memory[i].kind);
        d.memory.lemma_filter_contains(cp, i);
        assert(cm.len() > 0);
    }
    assert forall|i: int| 0 <= i < ss.len() implies {
        let b = (#[trigger] ss[i]).block;
        &&& has_sub(b, UNVERIFIED_BANNER@)
        &&& has_sub(b, "<N>"@)
        &&& has_sub(b, "<CORE_CLK>"@)
        &&& has_sub(b, "<MEM_CLK>"@)
    } by {
        let m = cm[i];
        assert(ss[i].block == block_spec(crate::fix::crossing_label(m), m.evidence));
        law_block_markers(crate::fix::crossing_label(m), m.evidence);
    }
}

proof fn lemma_no_header_lines(ls: Seq<Seq<char>>, i: int, u: Seq<Seq<char>>)
    requires
        0 <= i <= ls.len(),
        forall|k: int| 0 <= k < ls.len() ==> !is_header(#[trigger] ls[k]),
    ensures
        fix_lines_from(ls, i, u) == ls.subrange(i, ls.len() as int),
        removed_lines_from(ls, i, u).len() == 0,
    decreases ls.len() - i,
{
    if i < ls.len() {
        lemma_no_header_lines(ls, i + 1, u);
        assert(seq![ls[i]] + ls.subrange(i + 1, ls.len() as int) =~= ls.subrange(i, ls.len() as int));
    } else {
        assert(ls.subrange(i, ls.len() as int) =~= Seq::<Seq<char>>::empty());
    }
}

/// An SDC file with no `set_clock_groups` statement comes out of the fixer
/// byte-identical, with nothing removed.
pub proof fn law_untouched_without_groups(text: Seq<char>, u: Seq<Seq<char>>)
    requires
        forall|k: int| 0 <= k < split_on(text, '\n').len() ==> !is_header(#[trigger] split_on(text, '\n')[k]),
    ensures
        fixed_text(text, u) == text,
        removed_groups(text, u).len() == 0,
{
    let ls = split_on(text, '\n');
    lemma_no_header_lines(ls, 0, u);
    assert(ls.subrange(0, ls.len() as int) =~= ls);
    crate::lines::lemma_join_split(text, '\n');
}

spec fn all_candidates(files: Seq<SourceFile>) -> Seq<Seq<char>> {
    files.flat_map(|f: SourceFile| file_pll_candidates(f))
}

proof fn lemma_all_candidates(files: Seq<SourceFile>, t: Seq<char>)
    ensures
        all_candidates(files).contains(t) <==> pll_candidate(files, t),
    decreases files.len(),
{
    let fc = |f: SourceFile| file_pll_candidates(f);
    if files.len() == 0 {
        assert(files.map_values(fc) =~= Seq::<Seq<Seq<char>>>::empty());
    } else {
        let init = files.drop_last();
        lemma_all_candidates(init, t);
        init.lemma_flat_map_push(fc, files.last());
        assert(init.push(files.last()) =~= files);
        assert(all_candidates(files) == all_candidates(init) + file_pll_candidates(files.last()));
        crate::scan::lemma_add_contains(all_candidates(init), file_pll_candidates(files.last()), t);
        if pll_candidate(files, t) {
            let i = choose|i: int| 0 <= i < files.len() && #[trigger] file_pll_candidates(files[i]).contains(t);
            if i < files.len() - 1 {
                assert(init[i] == files[i]);
            }
        }
        if pll_candidate(init, t) {
            let i = choose|i: int| 0 <= i < init.len() && #[trigger] file_pll_candidates(init[i]).contains(t);
            assert(files[i] == init[i]);
        }
        if file_pll_candidates(files.last()).contains(t) {
            assert(file_pll_candidates(files[files.len() - 1]).contains(t));
        }
    }
}

/// The shipped PLL modules of a design are sorted, each once, and are exactly the
/// tokens some RTL file contributes.
pub proof fn law_design_plls(files: Seq<SourceFile>)
    ensures
        crate::order::strictly_sorted(design_spec(files).pll_modules),
        forall|t: Seq<char>| #[trigger] design_spec(files).pll_modules.contains(t) <==> pll_candidate(files, t),
{
    let l = all_candidates(files);
    assert forall|t: Seq<char>| #[trigger] l.contains(t) <==> pll_candidate(files, t) by {
        lemma_all_candidates(files, t);
    }
    crate::order::lemma_sorted_set_of(l, |t: Seq<char>| pll_candidate(files, t));
}

proof fn lemma_first_per_kind(s: Seq<MemView>)
    ensures
        forall|i: int, j: int| 0 <= i < j < first_per_kind(s).len() ==>
            (#[trigger] first_per_kind(s)[i]).kind != (#[trigger] first_per_kind(s)[j]).kind,
    decreases s.len(),
{
    if s.len() > 0 {
        lemma_first_per_kind(s.drop_last());
    }
}

/// The scan records at most one controller of each kind.
pub proof fn law_design_memory_kinds_distinct(files: Seq<SourceFile>)
    ensures
        forall|i: int, j: int| 0 <= i < j < design_spec(files).memory.len() ==>
            (#[trigger] design_spec(files).memory[i]).kind != (#[trigger] design_spec(files).memory[j]).kind,
{
    lemma_first_per_kind(files.flat_map(|f: SourceFile| file_mem(f)));
}

/// A DDR controller alone — a vestige on this platform — never makes Lint B fire.
pub proof fn law_ddr_alone_never_fires(sdc: SdcView, d: DesignView)
    requires
        forall|i: int| 0 <= i < d.memory.len() ==> (#[trigger] d.memory[i]).kind == MemKind::Ddr,
    ensures
        crossing_findings(sdc, d).len() == 0,
{
    law_lint_b_fires_iff(sdc, d);
}

/// No file sorts before an earlier one: the files are in path order.
pub open spec fn path_ordered(s: Seq<SourceFile>) -> bool {
    forall|i: int, j: int| 0 <= i < j < s.len() ==> !crate::order::lex_lt(
        (#[trigger] s[j]).path@,
        (#[trigger] s[i]).path@,
    )
}

/// The walked files of a directory are held in path order, and they are the same
/// files, each as often as it was handed in.
pub proof fn law_walk_sorted(files: Seq<SourceFile>)
    ensures
        path_ordered(sort_by_path(files)),
        sort_by_path(files).to_multiset() == files.to_multiset(),
    decreases files.len(),
{
    broadcast use vstd::seq_lib::to_multiset_insert, vstd::seq_lib::to_multiset_build;
    if files.len() == 0 {
    } else {
        let init = files.drop_last();
        let x = files.last();
        law_walk_sorted(init);
        let r = sort_by_path(init);
        let k = first_after(r, x.path@);
        lemma_first_after(r, x.path@);
        let t = r.insert(k, x);
        assert(t == sort_by_path(files));
        assert forall|i: int, j: int| 0 <= i < j < t.len() implies !crate::order::lex_lt(
            (#[trigger] t[j]).path@,
            (#[trigger] t[i]).path@,
        ) by {
            if j < k {
                assert(t[i] == r[i] && t[j] == r[j]);
            } else if j == k {
                assert(t[i] == r[i]);
            } else if i < k {
                assert(t[i] == r[i] && t[j] == r[j - 1]);
            } else if i == k {
                assert(t[j] == r[j - 1]);
                if crate::order::lex_lt(r[j - 1].path@, x.path@) {
                    if j - 1 > k {
                        crate::order::lemma_lex_trans(r[j - 1].path@, x.path@, r[k].path@);
                    } else {
                        crate::order::lemma_lex_asym(x.path@, r[k].path@);
                    }
                }
            } else {
                assert(t[i] == r[i - 1] && t[j] == r[j - 1]);
            }
        }
        assert(init.push(x) =~= files);
    }
}

/// Adding a file that is not an SDC file leaves the parsed constraints unchanged.
pub proof fn law_parse_ignores_other_files(files: Seq<SourceFile>, f: SourceFile)
    requires
        !is_sdc_path(f.path@),
    ensures
        parse_spec(files.push(f)) == parse_spec(files),
{
    let fg = |x: SourceFile| file_groups(x);
    let fc = |x: SourceFile| file_clocks(x);
    let fd = |x: SourceFile| file_datapath(x);
    files.lemma_flat_map_push(fg, f);
    files.lemma_flat_map_push(fc, f);
    files.lemma_flat_map_push(fd, f);
    assert(file_statements(f) =~= Seq::<Seq<char>>::empty());
    assert(file_groups(f) =~= Seq::<crate::sdc::GroupView>::empty()) by {
        assert(file_statements(f).map_values(|s: Seq<char>| crate::sdc::stmt_groups(f.path@, s)) =~= Seq::<Seq<crate::sdc::GroupView>>::empty());
    }
    assert(file_clocks(f) =~= Seq::<Seq<char>>::empty()) by {
        assert(file_statements(f).map_values(|s: Seq<char>| crate::sdc::stmt_clocks(s)) =~= Seq::<Seq<Seq<char>>>::empty());
    }
    assert(file_datapath(f) =~= Seq::<crate::sdc::DatapathView>::empty()) by {
        assert(file_statements(f).map_values(
            |s: Seq<char>| crate::sdc::stmt_datapath(f.path@, crate::sdc::is_framework(f.path@, f.text@), s),
        ) =~= Seq::<Seq<crate::sdc::DatapathView>>::empty());
    }
    assert(files.push(f).flat_map(fg) =~= files.flat_map(fg));
    assert(files.push(f).flat_map(fc) =~= files.flat_map(fc));
    assert(files.push(f).flat_map(fd) =~= files.flat_map(fd));
}

/// Adding a file that is not an RTL file leaves the scanned design unchanged.
pub proof fn law_scan_ignores_other_files(files: Seq<SourceFile>, f: SourceFile)
    requires
        !is_rtl_path(f.path@),
    ensures
        design_spec(files.push(f)) == design_spec(files),
{
    let g = files.push(f);
    assert(g.drop_last() =~= files);
    assert forall|t: Seq<char>| pll_candidate(g, t) <==> pll_candidate(files, t) by {
        if pll_candidate(g, t) {
            let i = choose|i: int| 0 <= i < g.len() && #[trigger] file_pll_candidates(g[i]).contains(t);
            assert(i < files.len());
            assert(files[i] == g[i]);
        }
        if pll_candidate(files, t) {
            let i = choose|i: int| 0 <= i < files.len() && #[trigger] file_pll_candidates(files[i]).contains(t);
            assert(g[i] == files[i]);
        }
    }
    assert((|t: Seq<char>| pll_candidate(g, t)) =~= (|t: Seq<char>| pll_candidate(files, t)));
    let fm = |x: SourceFile| file_mem(x);
    files.lemma_flat_map_push(fm, f);
    assert(file_mem(f) =~= Seq::<MemView>::empty());
    assert(g.flat_map(fm) =~= files.flat_map(fm));
    assert(g.filter(|x: SourceFile| is_rtl_path(x.path@)) == files.filter(|x: SourceFile| is_rtl_path(x.path@))) by {
        reveal(Seq::filter);
    }
}

/// `desc` describes a `-group {}` clause that names only clocks outside `u`.
pub open spec fn describes_phantom(desc: Seq<char>, u: Seq<Seq<char>>) -> bool {
    exists|c: Seq<char>| #[trigger] pure_phantom(c, u) && desc == describe(c)
}

proof fn lemma_removed_from(s: Seq<char>, p: int, u: Seq<Seq<char>>)
    ensures
        forall|i: int| 0 <= i < removed_from(s, p, u).len() ==> describes_phantom(#[trigger] removed_from(s, p, u)[i], u),
    decreases s.len() - p,
{
    if 0 <= p < s.len() {
        match group_match(s, p) {
            Some((b, e)) => {
                lemma_group_match(s, p);
                lemma_removed_from(s, e + 1, u);
                let clause = s.subrange(p, e + 1);
                let rest = removed_from(s, e + 1, u);
                let r = removed_from(s, p, u);
                if !pure_phantom(clause, u) {
                    assert(r == rest);
                } else {
                    assert(r == seq![describe(clause)] + rest);
                    assert forall|i: int| 0 <= i < r.len() implies describes_phantom(#[trigger] r[i], u) by {
                        if i == 0 {
                            assert(pure_phantom(clause, u) && r[0] == describe(clause));
                        } else {
                            assert(r[i] == rest[i - 1]);
                        }
                    }
                }
            },
            None => {
                lemma_removed_from(s, p + 1, u);
                assert(removed_from(s, p, u) == removed_from(s, p + 1, u));
            },
        }
    }
}

spec fn stmt_removed(ls: Seq<Seq<char>>, u: Seq<Seq<char>>) -> Seq<Seq<char>> {
    ls.flat_map(|l: Seq<char>| removed_from(l, 0, u))
}

proof fn lemma_stmt_removed(ls: Seq<Seq<char>>, u: Seq<Seq<char>>)
    ensures
        forall|i: int| 0 <= i < stmt_removed(ls, u).len() ==>
            describes_phantom(#[trigger] stmt_removed(ls, u)[i], u),
    decreases ls.len(),
{
    let rf = |l: Seq<char>| removed_from(l, 0, u);
    if ls.len() == 0 {
        assert(ls.map_values(rf) =~= Seq::<Seq<Seq<char>>>::empty());
    } else {
        let init = ls.drop_last();
        lemma_stmt_removed(init, u);
        init.lemma_flat_map_push(rf, ls.last());
        assert(init.push(ls.last()) =~= ls);
        lemma_removed_from(ls.last(), 0, u);
        let a = stmt_removed(init, u);
        let b = rf(ls.last());
        assert(stmt_removed(ls, u) == a + b);
        assert forall|i: int| 0 <= i < (a + b).len() implies describes_phantom(#[trigger] (a + b)[i], u) by {
            if i < a.len() {
                assert((a + b)[i] == a[i]);
            } else {
                assert((a + b)[i] == b[i - a.len()]);
            }
        }
    }
}

proof fn lemma_removed_lines(ls: Seq<Seq<char>>, i: int, u: Seq<Seq<char>>)
    ensures
        forall|k: int| 0 <= k < removed_lines_from(ls, i, u).len() ==>
            describes_phantom(#[trigger] removed_lines_from(ls, i, u)[k], u),
    decreases ls.len() - i,
{
    if 0 <= i < ls.len() {
        if !is_header(ls[i]) {
            lemma_removed_lines(ls, i + 1, u);
            assert(removed_lines_from(ls, i, u) == removed_lines_from(ls, i + 1, u));
        } else {
            let j = crate::fix::stmt_end(ls, i);
            crate::fix::lemma_stmt_end(ls, i);
            lemma_removed_lines(ls, j + 1, u);
            let st = ls.subrange(i, j + 1);
            lemma_stmt_removed(st, u);
            let a = stmt_removed(st, u);
            let b = removed_lines_from(ls, j + 1, u);
            assert(removed_lines_from(ls, i, u) == a + b);
            assert forall|k: int| 0 <= k < (a + b).len() implies describes_phantom(#[trigger] (a + b)[k], u) by {
                if k < a.len() {
                    assert((a + b)[k] == a[k]);
                } else {
                    assert((a + b)[k] == b[k - a.len()]);
                }
            }
        }
    }
}

/// The fixer removes only dead members: each removal it reports describes a
/// `-group {}` clause that names at least one `*_pll` clock and only clocks
/// outside the clock universe.
pub proof fn law_removed_are_phantom(text: Seq<char>, u: Seq<Seq<char>>)
    ensures
        forall|i: int| 0 <= i < removed_groups(text, u).len() ==> describes_phantom(#[trigger] removed_groups(text, u)[i], u),
{
    lemma_removed_lines(split_on(text, '\n'), 0, u);
}

proof fn lemma_trim_end_idem(s: Seq<char>)
    ensures
        trim_end(trim_end(s)) == trim_end(s),
{
    crate::text::lemma_trail_ws_bound(s);
    let t = trim_end(s);
    crate::text::lemma_trail_ws(t, t.len() as int);
    assert(t.subrange(0, t.len() as int) =~= t);
}

/// A rewritten `set_clock_groups` statement stays one statement: every line but
/// the last ends in a continuation backslash, and the last keeps one only where it
/// ended in two.
pub proof fn law_continuations(kept: Seq<Seq<char>>)
    ensures
        fix_continuations(kept).len() == kept.len(),
        forall|i: int| 0 <= i < kept.len() - 1 ==> ends_bs(#[trigger] fix_continuations(kept)[i]),
        kept.len() > 0 && ends_bs(fix_continuations(kept).last()) ==> ends_bs(kept.last())
            && ends_bs(trim_end(kept.last()).drop_last()),
{
    let r = fix_continuations(kept);
    assert forall|i: int| 0 <= i < kept.len() - 1 implies ends_bs(#[trigger] r[i]) by {
        let k = kept[i];
        if !ends_bs(k) {
            let w = k + " \\"@;
            reveal_strlit(" \\");
            assert(w[w.len() - 1] == '\\');
            crate::text::lemma_trail_ws(w, w.len() as int);
            assert(trim_end(w) =~= w);
            assert(w.subrange(w.len() - 1, w.len() as int) =~= seq!['\\']);
        }
    }
    if kept.len() > 0 {
        let k = kept.last();
        assert(r.last() == r[kept.len() - 1]);
        if ends_bs(k) {
            lemma_trim_end_idem(trim_end(k).drop_last());
        }
    }
}

proof fn lemma_flat_map_empty<A, B>(s: Seq<A>, f: spec_fn(A) -> Seq<B>)
    requires
        s.len() == 0,
    ensures
        s.flat_map(f).len() == 0,
{
    assert(s.map_values(f) =~= Seq::<Seq<B>>::empty());
}

/// Where `f` gives nothing for the elements that `p` rejects, dropping those
/// elements first changes nothing.
proof fn lemma_flat_map_filter<A, B>(s: Seq<A>, f: spec_fn(A) -> Seq<B>, p: spec_fn(A) -> bool)
    requires
        forall|x: A| !p(x) ==> (#[trigger] f(x)).len() == 0,
    ensures
        s.filter(p).flat_map(f) == s.flat_map(f),
    decreases s.len(),
{
    reveal(Seq::filter);
    if s.len() == 0 {
        lemma_flat_map_empty(s, f);
        lemma_flat_map_empty(s.filter(p), f);
        assert(s.filter(p).flat_map(f) =~= s.flat_map(f));
    } else {
        let init = s.drop_last();
        let x = s.last();
        lemma_flat_map_filter(init, f, p);
        init.lemma_flat_map_push(f, x);
        assert(init.push(x) =~= s);
        if p(x) {
            assert(s.filter(p) == init.filter(p).push(x));
            init.filter(p).lemma_flat_map_push(f, x);
        } else {
            assert(s.filter(p) == init.filter(p));
            assert(s.flat_map(f) =~= init.flat_map(f));
        }
    }
}

/// Each element of a flat map comes from the image of some element.
proof fn lemma_flat_map_elem<A, B>(s: Seq<A>, f: spec_fn(A) -> Seq<B>, k: int)
    requires
        0 <= k < s.flat_map(f).len(),
    ensures
        exists|i: int, j: int|
            0 <= i < s.len() && 0 <= j < f(s[i]).len() && s.flat_map(f)[k] == #[trigger] f(s[i])[j],
    decreases s.len(),
{
    if s.len() == 0 {
        lemma_flat_map_empty(s, f);
    } else {
        let init = s.drop_last();
        let x = s.last();
        init.lemma_flat_map_push(f, x);
        assert(init.push(x) =~= s);
        let a = init.flat_map(f);
        if k < a.len() {
            lemma_flat_map_elem(init, f, k);
            let (i, j) = choose|i: int, j: int|
                0 <= i < init.len() && 0 <= j < f(init[i]).len() && init.flat_map(f)[k] == #[trigger] f(init[i])[j];
            assert(s[i] == init[i]);
        } else {
            assert(s.flat_map(f)[k] == f(x)[k - a.len()]);
            assert(s[s.len() - 1] == x);
        }
    }
}

proof fn lemma_filter_idem<A>(s: Seq<A>, p: spec_fn(A) -> bool)
    ensures
        s.filter(p).filter(p) == s.filter(p),
    decreases s.len(),
{
    reveal(Seq::filter);
    if s.len() > 0 {
        lemma_filter_idem(s.drop_last(), p);
        if p(s.last()) {
            let t = s.drop_last().filter(p).push(s.last());
            assert(t.drop_last() =~= s.drop_last().filter(p));
        }
    }
}

/// Parsing reads SDC files only: the model of a core is the model of its SDC
/// files. Each group member's `*_pll` tokens occur once, are ASCII-lowercase and
/// are no PLL primitive; the created clocks occur once; and each datapath entry
/// comes from an SDC file with its path, flagged `framework` exactly when that file
/// is the framework template.
pub proof fn law_parse_model(files: Seq<SourceFile>)
    ensures
        parse_spec(files.filter(|f: SourceFile| is_sdc_path(f.path@))) == parse_spec(files),
        forall|g: int, m: int| 0 <= g < parse_spec(files).clock_groups.len()
            && 0 <= m < parse_spec(files).clock_groups[g].members.len() ==> {
            let ts = (#[trigger] parse_spec(files).clock_groups[g].members[m]).pll_tokens;
            &&& forall|i: int, j: int| 0 <= i < j < ts.len() ==> ts[i] != ts[j]
            &&& forall|i: int| 0 <= i < ts.len() ==> !crate::scan::is_primitive(#[trigger] ts[i])
                && lower(ts[i]) == ts[i]
        },
        forall|i: int, j: int| 0 <= i < j < parse_spec(files).created_clocks.len() ==>
            #[trigger] parse_spec(files).created_clocks[i] != #[trigger] parse_spec(files).created_clocks[j],
        forall|k: int| 0 <= k < parse_spec(files).datapath.len() ==> exists|i: int|
            0 <= i < files.len() && is_sdc_path(files[i].path@)
                && (#[trigger] files[i]).path@ == (#[trigger] parse_spec(files).datapath[k]).file
                && parse_spec(files).datapath[k].framework == crate::sdc::is_framework(files[i].path@, files[i].text@),
{
    let p = |f: SourceFile| is_sdc_path(f.path@);
    let fg = |x: SourceFile| file_groups(x);
    let fc = |x: SourceFile| file_clocks(x);
    let fd = |x: SourceFile| file_datapath(x);
    assert forall|x: SourceFile| !p(x) implies (#[trigger] fg(x)).len() == 0 && fc(x).len() == 0
        && fd(x).len() == 0 by {
        lemma_flat_map_empty(file_statements(x), |st: Seq<char>| crate::sdc::stmt_groups(x.path@, st));
        lemma_flat_map_empty(file_statements(x), |st: Seq<char>| crate::sdc::stmt_clocks(st));
        lemma_flat_map_empty(
            file_statements(x),
            |st: Seq<char>| crate::sdc::stmt_datapath(x.path@, crate::sdc::is_framework(x.path@, x.text@), st),
        );
    }
    assert forall|x: SourceFile| !p(x) implies (#[trigger] fc(x)).len() == 0 by {
        assert(fg(x).len() == 0);
    }
    assert forall|x: SourceFile| !p(x) implies (#[trigger] fd(x)).len() == 0 by {
        assert(fg(x).len() == 0);
    }
    lemma_flat_map_filter(files, fg, p);
    lemma_flat_map_filter(files, fc, p);
    lemma_flat_map_filter(files, fd, p);
    let model = parse_spec(files);
    assert forall|g: int, m: int| 0 <= g < model.clock_groups.len() && 0 <= m < model.clock_groups[g].members.len()
        implies {
        let ts = (#[trigger] model.clock_groups[g].members[m]).pll_tokens;
        &&& forall|i: int, j: int| 0 <= i < j < ts.len() ==> ts[i] != ts[j]
        &&& forall|i: int| 0 <= i < ts.len() ==> !crate::scan::is_primitive(#[trigger] ts[i])
            && lower(ts[i]) == ts[i]
    } by {
        lemma_flat_map_elem(files, fg, g);
        let (a, b) = choose|a: int, b: int|
            0 <= a < files.len() && 0 <= b < fg(files[a]).len() && files.flat_map(fg)[g] == #[trigger] fg(files[a])[b];
        let x = files[a];
        let sg = |st: Seq<char>| crate::sdc::stmt_groups(x.path@, st);
        lemma_flat_map_elem(file_statements(x), sg, b);
        let (c, d) = choose|c: int, d: int|
            0 <= c < file_statements(x).len() && 0 <= d < sg(file_statements(x)[c]).len()
                && file_statements(x).flat_map(sg)[b] == #[trigger] sg(file_statements(x)[c])[d];
        let st = file_statements(x)[c];
        let body = group_bodies(st)[m];
        assert(model.clock_groups[g].members[m] == crate::sdc::member_of(body));
        law_pll_tokens_distinct(trim(body), crate::text::word_flags(trim(body)));
    }
    crate::scan::lemma_dedup(files.flat_map(fc));
    assert forall|k: int| 0 <= k < model.datapath.len() implies exists|i: int|
        0 <= i < files.len() && is_sdc_path(files[i].path@)
            && (#[trigger] files[i]).path@ == (#[trigger] model.datapath[k]).file
            && model.datapath[k].framework == crate::sdc::is_framework(files[i].path@, files[i].text@) by {
        lemma_flat_map_elem(files, fd, k);
        let (a, b) = choose|a: int, b: int|
            0 <= a < files.len() && 0 <= b < fd(files[a]).len() && files.flat_map(fd)[k] == #[trigger] fd(files[a])[b];
        let x = files[a];
        let fw = crate::sdc::is_framework(x.path@, x.text@);
        let sd = |st: Seq<char>| crate::sdc::stmt_datapath(x.path@, fw, st);
        lemma_flat_map_elem(file_statements(x), sd, b);
        let (c, d) = choose|c: int, d: int|
            0 <= c < file_statements(x).len() && 0 <= d < sd(file_statements(x)[c]).len()
                && file_statements(x).flat_map(sd)[b] == #[trigger] sd(file_statements(x)[c])[d];
        assert(p(x)) by {
            if !p(x) {
                assert(fd(x).len() == 0);
            }
        }
        assert(files[a].path@ == model.datapath[k].file);
    }
}

/// Scanning reads RTL files only: the design of a core is the design of its RTL
/// files. Its PLL modules are strictly sorted, ASCII-lowercase and no PLL
/// primitive; it records one controller per kind, each evidenced by the path of the
/// first RTL file, in file order, whose path names that kind; and it counts
/// exactly the RTL files.
pub proof fn law_scan_model(files: Seq<SourceFile>)
    ensures
        design_spec(files.filter(|f: SourceFile| is_rtl_path(f.path@))) == design_spec(files),
        crate::order::strictly_sorted(design_spec(files).pll_modules),
        forall|i: int| 0 <= i < design_spec(files).pll_modules.len() ==>
            !crate::scan::is_primitive(#[trigger] design_spec(files).pll_modules[i])
                && lower(design_spec(files).pll_modules[i]) == design_spec(files).pll_modules[i],
        forall|i: int, j: int| 0 <= i < j < design_spec(files).memory.len() ==>
            (#[trigger] design_spec(files).memory[i]).kind != (#[trigger] design_spec(files).memory[j]).kind,
        forall|k: int| 0 <= k < design_spec(files).memory.len() ==> exists|i: int|
            0 <= i < files.len() && is_rtl_path(files[i].path@)
                && (#[trigger] files[i]).path@ == (#[trigger] design_spec(files).memory[k]).evidence
                && crate::design::file_mem_kinds(files[i]).contains(design_spec(files).memory[k].kind)
                && forall|j: int| 0 <= j < i ==> !crate::design::file_mem_kinds(#[trigger] files[j]).contains(
                    design_spec(files).memory[k].kind,
                ),
        design_spec(files).rtl_files_scanned == files.filter(|f: SourceFile| is_rtl_path(f.path@)).len(),
{
    let p = |f: SourceFile| is_rtl_path(f.path@);
    let g = files.filter(p);
    let fm = |x: SourceFile| file_mem(x);
    assert forall|x: SourceFile| !p(x) implies (#[trigger] fm(x)).len() == 0 by {}
    lemma_flat_map_filter(files, fm, p);
    assert forall|t: Seq<char>| pll_candidate(g, t) <==> pll_candidate(files, t) by {
        if pll_candidate(g, t) {
            let i = choose|i: int| 0 <= i < g.len() && #[trigger] file_pll_candidates(g[i]).contains(t);
            assert(g.contains(g[i]));
            files.lemma_filter_contains_rev(p, g[i]);
            let k = choose|k: int| 0 <= k < files.len() && files[k] == g[i];
            assert(file_pll_candidates(files[k]).contains(t));
        }
        if pll_candidate(files, t) {
            let i = choose|i: int| 0 <= i < files.len() && #[trigger] file_pll_candidates(files[i]).contains(t);
            if p(files[i]) {
                files.lemma_filter_contains(p, i);
                let k = choose|k: int| 0 <= k < g.len() && g[k] == files[i];
                assert(file_pll_candidates(g[k]).contains(t));
            }
        }
    }
    assert((|t: Seq<char>| pll_candidate(g, t)) =~= (|t: Seq<char>| pll_candidate(files, t)));
    lemma_filter_idem(files, p);
    law_design_plls(files);
    law_design_memory_kinds_distinct(files);
    let d = design_spec(files);
    assert forall|i: int| 0 <= i < d.pll_modules.len() implies
        !crate::scan::is_primitive(#[trigger] d.pll_modules[i]) && lower(d.pll_modules[i]) == d.pll_modules[i] by {
        let t = d.pll_modules[i];
        assert(d.pll_modules.contains(t));
        let a = choose|a: int| 0 <= a < files.len() && #[trigger] file_pll_candidates(files[a]).contains(t);
        let x = files[a];
        let np = |u: Seq<char>| !crate::scan::is_primitive(u);
        let l = (crate::design::path_pll_tokens(x.path@) + crate::scan::module_names(x.text@)).map_values(
            |u: Seq<char>| lower(u),
        );
        assert(p(x));
        assert(file_pll_candidates(x) == l.filter(np));
        let k = choose|k: int| 0 <= k < l.filter(np).len() && l.filter(np)[k] == t;
        l.lemma_filter_pred(np, k);
        assert(l.filter(np).contains(t));
        l.lemma_filter_contains_rev(np, t);
        let m = choose|m: int| 0 <= m < l.len() && l[m] == t;
        crate::text::lemma_lower_idem(
            (crate::design::path_pll_tokens(x.path@) + crate::scan::module_names(x.text@))[m],
        );
    }
    lemma_memory_first(files);
    assert forall|k: int| 0 <= k < d.memory.len() implies exists|i: int|
        0 <= i < files.len() && is_rtl_path(files[i].path@)
            && (#[trigger] files[i]).path@ == (#[trigger] d.memory[k]).evidence
            && crate::design::file_mem_kinds(files[i]).contains(d.memory[k].kind)
            && forall|j: int| 0 <= j < i ==> !crate::design::file_mem_kinds(#[trigger] files[j]).contains(d.memory[k].kind) by {
        let mem = crate::design::scan_memory(files);
        assert(mem[k] == d.memory[k]);
        let i = choose|i: int|
            0 <= i < files.len() && (#[trigger] files[i]).path@ == (#[trigger] mem[k]).evidence
                && crate::design::file_mem_kinds(files[i]).contains(mem[k].kind)
                && forall|j: int| 0 <= j < i ==> !crate::design::file_mem_kinds(#[trigger] files[j]).contains(mem[k].kind);
        assert(p(files[i])) by {
            if !p(files[i]) {
                assert(crate::design::file_mem_kinds(files[i]).len() == 0);
            }
        }
    }
}

proof fn lemma_first_per_kind_from(s: Seq<MemView>)
    ensures
        forall|k: int| 0 <= k < first_per_kind(s).len() ==> exists|q: int| 0 <= q < s.len() && s[q] == #[trigger] first_per_kind(s)[k],
    decreases s.len(),
{
    if s.len() > 0 {
        let init = s.drop_last();
        lemma_first_per_kind_from(init);
        let r = first_per_kind(s);
        assert forall|k: int| 0 <= k < r.len() implies exists|q: int| 0 <= q < s.len() && s[q] == #[trigger] r[k] by {
            if k < first_per_kind(init).len() {
                assert(r[k] == first_per_kind(init)[k]);
                let q = choose|q: int| 0 <= q < init.len() && init[q] == #[trigger] first_per_kind(init)[k];
                assert(s[q] == init[q]);
            } else {
                assert(r[k] == s.last());
                assert(s[s.len() - 1] == s.last());
            }
        }
    }
}

proof fn lemma_fpk_kinds(s: Seq<MemView>, q: int)
    requires
        0 <= q < s.len(),
    ensures
        exists|k: int| 0 <= k < first_per_kind(s).len() && (#[trigger] first_per_kind(s)[k]).kind == s[q].kind,
    decreases s.len(),
{
    let init = s.drop_last();
    let r0 = first_per_kind(init);
    let r = first_per_kind(s);
    if q < init.len() {
        lemma_fpk_kinds(init, q);
        assert(s[q] == init[q]);
        let k = choose|k: int| 0 <= k < r0.len() && (#[trigger] r0[k]).kind == init[q].kind;
        assert(r[k] == r0[k]);
    } else {
        assert(s[q] == s.last());
        if exists|i: int| 0 <= i < r0.len() && (#[trigger] r0[i]).kind == s.last().kind {
            let i = choose|i: int| 0 <= i < r0.len() && (#[trigger] r0[i]).kind == s.last().kind;
            assert(r[i] == r0[i]);
        } else {
            assert(r[r.len() - 1] == s.last());
        }
    }
}

proof fn lemma_fpk_concat(a: Seq<MemView>, b: Seq<MemView>)
    ensures
        forall|k: int| 0 <= k < first_per_kind(a + b).len() ==> {
            let m = #[trigger] first_per_kind(a + b)[k];
            ||| exists|q: int| 0 <= q < first_per_kind(a).len() && first_per_kind(a)[q] == m
            ||| b.contains(m) && forall|q: int| 0 <= q < a.len() ==> (#[trigger] a[q]).kind != m.kind
        },
    decreases b.len(),
{
    if b.len() == 0 {
        assert(a + b =~= a);
        assert forall|k: int| 0 <= k < first_per_kind(a + b).len() implies
            exists|q: int| 0 <= q < first_per_kind(a).len() && first_per_kind(a)[q] == #[trigger] first_per_kind(a + b)[k] by {
            assert(first_per_kind(a + b) == first_per_kind(a));
            assert(first_per_kind(a)[k] == first_per_kind(a + b)[k]);
        }
    } else {
        let b0 = b.drop_last();
        let x = b.last();
        lemma_fpk_concat(a, b0);
        assert((a + b).drop_last() =~= a + b0);
        assert((a + b).last() == x);
        let r0 = first_per_kind(a + b0);
        let r = first_per_kind(a + b);
        assert forall|k: int| 0 <= k < r.len() implies {
            let m = #[trigger] r[k];
            ||| exists|q: int| 0 <= q < first_per_kind(a).len() && first_per_kind(a)[q] == m
            ||| b.contains(m) && forall|q: int| 0 <= q < a.len() ==> (#[trigger] a[q]).kind != m.kind
        } by {
            if k < r0.len() {
                assert(r[k] == r0[k]);
                if b0.contains(r0[k]) {
                    let i = choose|i: int| 0 <= i < b0.len() && b0[i] == r0[k];
                    assert(b[i] == b0[i]);
                }
            } else {
                assert(r[k] == x);
                assert(b[b.len() - 1] == x);
                assert forall|q: int| 0 <= q < a.len() implies (#[trigger] a[q]).kind != x.kind by {
                    assert((a + b0)[q] == a[q]);
                    if a[q].kind == x.kind {
                        lemma_fpk_kinds(a + b0, q);
                        let i = choose|i: int| 0 <= i < r0.len() && (#[trigger] r0[i]).kind == (a + b0)[q].kind;
                    }
                }
            }
        }
    }
}

proof fn lemma_flat_map_contains<A, B>(s: Seq<A>, f: spec_fn(A) -> Seq<B>, i: int, j: int)
    requires
        0 <= i < s.len(),
        0 <= j < f(s[i]).len(),
    ensures
        s.flat_map(f).contains(f(s[i])[j]),
    decreases s.len(),
{
    let init = s.drop_last();
    init.lemma_flat_map_push(f, s.last());
    assert(init.push(s.last()) =~= s);
    let a = init.flat_map(f);
    if i == s.len() - 1 {
        assert(s.flat_map(f)[a.len() + j] == f(s[i])[j]);
    } else {
        assert(init[i] == s[i]);
        lemma_flat_map_contains(init, f, i, j);
        let q = choose|q: int| 0 <= q < a.len() && a[q] == f(s[i])[j];
        assert(s.flat_map(f)[q] == a[q]);
    }
}

/// Each recorded controller is evidenced by the first file, in file order, whose
/// path names its kind.
proof fn lemma_memory_first(files: Seq<SourceFile>)
    ensures
        forall|k: int| 0 <= k < crate::design::scan_memory(files).len() ==> exists|i: int|
            0 <= i < files.len() && (#[trigger] files[i]).path@ == (#[trigger] crate::design::scan_memory(files)[k]).evidence
                && crate::design::file_mem_kinds(files[i]).contains(crate::design::scan_memory(files)[k].kind)
                && forall|j: int| 0 <= j < i ==> !crate::design::file_mem_kinds(#[trigger] files[j]).contains(
                    crate::design::scan_memory(files)[k].kind,
                ),
    decreases files.len(),
{
    let fm = |x: SourceFile| file_mem(x);
    let mem = crate::design::scan_memory(files);
    if files.len() == 0 {
        lemma_flat_map_empty(files, fm);
        assert(files.flat_map(fm) =~= Seq::<MemView>::empty());
    } else {
        let init = files.drop_last();
        let x = files.last();
        lemma_memory_first(init);
        init.lemma_flat_map_push(fm, x);
        assert(init.push(x) =~= files);
        let a = init.flat_map(fm);
        let b = file_mem(x);
        assert(files.flat_map(fm) == a + b);
        lemma_fpk_concat(a, b);
        let mem0 = crate::design::scan_memory(init);
        assert forall|k: int| 0 <= k < mem.len() implies exists|i: int|
            0 <= i < files.len() && (#[trigger] files[i]).path@ == (#[trigger] mem[k]).evidence
                && crate::design::file_mem_kinds(files[i]).contains(mem[k].kind)
                && forall|j: int| 0 <= j < i ==> !crate::design::file_mem_kinds(#[trigger] files[j]).contains(mem[k].kind) by {
            let m = mem[k];
            if exists|q: int| 0 <= q < mem0.len() && mem0[q] == m {
                let q = choose|q: int| 0 <= q < mem0.len() && mem0[q] == m;
                let i = choose|i: int|
                    0 <= i < init.len() && (#[trigger] init[i]).path@ == (#[trigger] mem0[q]).evidence
                        && crate::design::file_mem_kinds(init[i]).contains(mem0[q].kind)
                        && forall|j: int| 0 <= j < i ==> !crate::design::file_mem_kinds(#[trigger] init[j]).contains(mem0[q].kind);
                assert(files[i] == init[i]);
                assert forall|j: int| 0 <= j < i implies !crate::design::file_mem_kinds(#[trigger] files[j]).contains(m.kind) by {
                    assert(files[j] == init[j]);
                }
            } else {
                let c = choose|c: int| 0 <= c < b.len() && b[c] == m;
                let kinds = crate::design::file_mem_kinds(x);
                assert(b[c] == MemView { kind: kinds[c], evidence: x.path@ });
                assert(kinds.contains(kinds[c]));
                let i = files.len() - 1;
                assert(files[i] == x);
                assert forall|j: int| 0 <= j < i implies !crate::design::file_mem_kinds(#[trigger] files[j]).contains(m.kind) by {
                    let y = files[j];
                    assert(y == init[j]);
                    let ky = crate::design::file_mem_kinds(y);
                    if ky.contains(m.kind) {
                        let e = choose|e: int| 0 <= e < ky.len() && ky[e] == m.kind;
                        assert(fm(init[j])[e] == MemView { kind: m.kind, evidence: y.path@ });
                        lemma_flat_map_contains(init, fm, j, e);
                        let q = choose|q: int| 0 <= q < a.len() && a[q] == fm(init[j])[e];
                        assert(a[q].kind == m.kind);
                    }
                }
            }
        }
    }
}

/// The text with every line feed written as a carriage return and line feed, as
/// a Windows editor saves it.
pub open spec fn crlf(s: Seq<char>) -> Seq<char>
    decreases s.len(),
{
    if s.len() == 0 {
        s
    } else if s.last() == '\n' {
        crlf(s.drop_last()) + seq!['\r', '\n']
    } else {
        crlf(s.drop_last()).push(s.last())
    }
}

spec fn cr_pieces(ps: Seq<Seq<char>>) -> Seq<Seq<char>> {
    ps.map(|i: int, p: Seq<char>| if i + 1 < ps.len() { p.push('\r') } else { p })
}

proof fn lemma_split_crlf(s: Seq<char>)
    requires
        !s.contains('\r'),
    ensures
        split_on(crlf(s), '\n') == cr_pieces(split_on(s, '\n')),
        forall|i: int| 0 <= i < split_on(s, '\n').len() ==> !(#[trigger] split_on(s, '\n')[i]).contains('\r'),
    decreases s.len(),
{
    if s.len() == 0 {
        assert(cr_pieces(split_on(s, '\n')) =~= split_on(s, '\n'));
        assert forall|i: int| 0 <= i < split_on(s, '\n').len() implies !(#[trigger] split_on(s, '\n')[i]).contains('\r') by {
            assert(split_on(s, '\n')[i] =~= Seq::<char>::empty());
        }
    } else {
        let init = s.drop_last();
        let x = s.last();
        assert forall|c: char| init.contains(c) implies s.contains(c) by {
            let k = choose|k: int| 0 <= k < init.len() && init[k] == c;
            assert(s[k] == c);
        }
        assert(s.contains(x)) by { assert(s[s.len() - 1] == x); }
        lemma_split_crlf(init);
        crate::lines::lemma_split_on_nonempty(init, '\n');
        let r = split_on(init, '\n');
        let n = r.len();
        let xs = crlf(init);
        let big = cr_pieces(r);
        if x == '\n' {
            let y = xs.push('\r');
            assert((xs + seq!['\r', '\n']).drop_last() =~= y);
            assert((xs + seq!['\r', '\n']).last() == '\n');
            assert(y.drop_last() =~= xs);
            assert(split_on(y, '\n') == big.update(n - 1, big.last().push('\r')));
            let t = r.push(Seq::<char>::empty());
            assert(split_on(s, '\n') == t);
            assert(split_on(crlf(s), '\n') =~= cr_pieces(t)) by {
                assert(split_on(crlf(s), '\n') == split_on(y, '\n').push(Seq::<char>::empty()));
                assert forall|i: int| 0 <= i < t.len() implies split_on(crlf(s), '\n')[i] == cr_pieces(t)[i] by {
                    if i < n {
                        assert(t[i] == r[i]);
                    }
                }
            }
            assert forall|i: int| 0 <= i < t.len() implies !(#[trigger] t[i]).contains('\r') by {
                if i == n {
                    assert(t[i] =~= Seq::<char>::empty());
                } else {
                    assert(t[i] == r[i]);
                }
            }
        } else {
            assert(xs.push(x).drop_last() =~= xs);
            let t = r.update(n - 1, r.last().push(x));
            assert(split_on(s, '\n') == t);
            assert(crlf(s) == xs.push(x));
            assert(split_on(crlf(s), '\n') == big.update(n - 1, big.last().push(x)));
            assert(split_on(crlf(s), '\n') =~= cr_pieces(t)) by {
                assert forall|i: int| 0 <= i < t.len() implies split_on(crlf(s), '\n')[i] == cr_pieces(t)[i] by {
                    if i < n - 1 {
                        assert(t[i] == r[i]);
                    }
                }
            }
            assert forall|i: int| 0 <= i < t.len() implies !(#[trigger] t[i]).contains('\r') by {
                if i == n - 1 {
                    let q = r.last();
                    assert(!r[n - 1].contains('\r'));
                    if t[i].contains('\r') {
                        let k = choose|k: int| 0 <= k < t[i].len() && t[i][k] == '\r';
                        if k < q.len() {
                            assert(q[k] == '\r');
                            assert(r[n - 1].contains('\r'));
                        }
                    }
                } else {
                    assert(t[i] == r[i]);
                }
            }
        }
    }
}

/// Reading lines ignores Windows line ends: for a text with no carriage return,
/// writing each line feed as carriage return plus line feed gives the same lines.
pub proof fn law_lines_crlf(t: Seq<char>)
    requires
        !t.contains('\r'),
    ensures
        crate::lines::text_lines(crlf(t)) == crate::lines::text_lines(t),
{
    lemma_split_crlf(t);
    let ps = split_on(t, '\n');
    crate::lines::lemma_split_on_nonempty(t, '\n');
    let qs = cr_pieces(ps);
    assert(qs.last() == ps.last());
    assert(qs.drop_last().map_values(|p: Seq<char>| crate::lines::strip_cr(p)) =~= ps.drop_last().map_values(
        |p: Seq<char>| crate::lines::strip_cr(p),
    )) by {
        assert forall|i: int| 0 <= i < ps.len() - 1 implies crate::lines::strip_cr(qs[i]) == crate::lines::strip_cr(
            #[trigger] ps[i],
        ) by {
            assert(qs[i] == ps[i].push('\r'));
            assert(ps[i].push('\r').drop_last() =~= ps[i]);
            assert(!ps[i].contains('\r'));
            if ps[i].len() > 0 {
                assert(ps[i][ps[i].len() - 1] == ps[i].last());
            }
        }
    }
}

/// Parsing ignores Windows line ends: the same SDC statements, and so the same
/// clock groups and created clocks, come out of a set of files whatever line end
/// each was saved with (a line ending in a backslash before `\r\n` still continues
/// its statement).
pub proof fn law_parse_crlf(files: Seq<SourceFile>, saved: Seq<SourceFile>)
    requires
        saved.len() == files.len(),
        forall|i: int| 0 <= i < files.len() ==> !(#[trigger] files[i]).text@.contains('\r')
            && saved[i].path@ == files[i].path@ && saved[i].text@ == crlf(files[i].text@),
    ensures
        forall|i: int| 0 <= i < files.len() ==> crate::lines::statements((#[trigger] saved[i]).text@)
            == crate::lines::statements(files[i].text@),
        parse_spec(saved).clock_groups == parse_spec(files).clock_groups,
        parse_spec(saved).created_clocks == parse_spec(files).created_clocks,
{
    let fg = |x: SourceFile| file_groups(x);
    let fc = |x: SourceFile| file_clocks(x);
    assert forall|i: int| 0 <= i < files.len() implies crate::lines::statements((#[trigger] saved[i]).text@)
        == crate::lines::statements(files[i].text@) && fg(saved[i]) == fg(files[i]) && fc(saved[i]) == fc(files[i]) by {
        law_lines_crlf(files[i].text@);
        assert(file_statements(saved[i]) == file_statements(files[i]));
    }
    assert(saved.map_values(fg) =~= files.map_values(fg));
    assert(saved.map_values(fc) =~= files.map_values(fc));
}

/// No PLL primitive is ever a clock token: no `*_pll` token of any text, and so no
/// async group token and no Lint A subject of a parsed core, is `cyclonev_pll`,
/// `altera_pll` or `altera_pll_reconfig`.
pub proof fn law_no_primitive_tokens(body: Seq<char>, w: Seq<bool>, files: Seq<SourceFile>, d: DesignView)
    ensures
        forall|i: int| 0 <= i < pll_tokens_by(body, w).len() ==> {
            let t = #[trigger] pll_tokens_by(body, w)[i];
            t != "cyclonev_pll"@ && t != "altera_pll"@ && t != "altera_pll_reconfig"@
        },
        forall|t: Seq<char>| #[trigger] async_token(parse_spec(files), t) ==>
            t != "cyclonev_pll"@ && t != "altera_pll"@ && t != "altera_pll_reconfig"@,
        forall|i: int| 0 <= i < phantom_findings(parse_spec(files), d).len() ==> {
            let t = (#[trigger] phantom_findings(parse_spec(files), d)[i]).subject;
            t != "cyclonev_pll"@ && t != "altera_pll"@ && t != "altera_pll_reconfig"@
        },
{
    law_pll_tokens_distinct(body, w);
    law_parse_model(files);
    let m = parse_spec(files);
    assert forall|t: Seq<char>| #[trigger] async_token(m, t) implies
        t != "cyclonev_pll"@ && t != "altera_pll"@ && t != "altera_pll_reconfig"@ by {
        let (g, k) = choose|g: int, k: int|
            0 <= g < m.clock_groups.len() && m.clock_groups[g].kind == crate::sdc::GroupKind::Asynchronous && 0 <= k
                < m.clock_groups[g].members.len() && (#[trigger] m.clock_groups[g].members[k]).pll_tokens.contains(t);
        let ts = m.clock_groups[g].members[k].pll_tokens;
        let j = choose|j: int| 0 <= j < ts.len() && ts[j] == t;
        assert(!crate::scan::is_primitive(ts[j]));
    }
    law_lint_a_phantom_set(m, d);
    let pf = phantom_findings(m, d);
    assert forall|i: int| 0 <= i < pf.len() implies {
        let t = (#[trigger] pf[i]).subject;
        t != "cyclonev_pll"@ && t != "altera_pll"@ && t != "altera_pll_reconfig"@
    } by {
        let t = pf[i].subject;
        assert(exists|k: int| 0 <= k < pf.len() && (#[trigger] pf[k]).subject == t);
        assert(async_token(m, t));
    }
}

/// A Verilog/SystemVerilog file whose lowercased path names `psram`, `cellram` or
/// `cram` puts a PSRAM controller in the scanned memory, and one naming `sdram` an
/// SDRAM controller; either way the design has an external-memory crossing.
pub proof fn law_memory_paths(files: Seq<SourceFile>, i: int)
    requires
        0 <= i < files.len(),
        crate::source::ext_of(files[i].path@) == "v"@ || crate::source::ext_of(files[i].path@) == "sv"@,
        has_sub(lower(files[i].path@), "psram"@) || has_sub(lower(files[i].path@), "cellram"@) || has_sub(
            lower(files[i].path@),
            "cram"@,
        ) || has_sub(lower(files[i].path@), "sdram"@),
    ensures
        has_sub(lower(files[i].path@), "psram"@) || has_sub(lower(files[i].path@), "cellram"@) || has_sub(
            lower(files[i].path@),
            "cram"@,
        ) ==> exists|k: int| 0 <= k < design_spec(files).memory.len()
            && (#[trigger] design_spec(files).memory[k]).kind == MemKind::Psram,
        has_sub(lower(files[i].path@), "sdram"@) ==> exists|k: int| 0 <= k < design_spec(files).memory.len()
            && ((#[trigger] design_spec(files).memory[k]).kind == MemKind::Sdram
                || design_spec(files).memory[k].kind == MemKind::SdramMultiport),
        has_crossing(design_spec(files)),
{
    let f = files[i];
    let ks = crate::design::file_mem_kinds(f);
    let fm = |x: SourceFile| file_mem(x);
    let l = files.flat_map(fm);
    let mem = design_spec(files).memory;
    assert(is_rtl_path(f.path@));
    let lp = lower(f.path@);
    let a = if has_sub(lp, "sdram_4w"@) {
        seq![MemKind::SdramMultiport]
    } else if has_sub(lp, "sdram"@) {
        seq![MemKind::Sdram]
    } else {
        Seq::<MemKind>::empty()
    };
    let b = if has_sub(lp, "psram"@) || has_sub(lp, "cellram"@) || has_sub(lp, "cram"@) {
        seq![MemKind::Psram]
    } else {
        Seq::<MemKind>::empty()
    };
    let c = if has_sub(lp, "ddram"@) || has_sub(lp, "ddr3"@) {
        seq![MemKind::Ddr]
    } else {
        Seq::<MemKind>::empty()
    };
    assert(ks == a + b + c);
    if b.len() > 0 {
        assert(ks[a.len() as int] == MemKind::Psram);
        assert(fm(f)[a.len() as int] == MemView { kind: MemKind::Psram, evidence: f.path@ });
        lemma_flat_map_contains(files, fm, i, a.len() as int);
        let q = choose|q: int| 0 <= q < l.len() && l[q] == fm(f)[a.len() as int];
        lemma_fpk_kinds(l, q);
        let k = choose|k: int| 0 <= k < first_per_kind(l).len() && (#[trigger] first_per_kind(l)[k]).kind == l[q].kind;
        assert(mem[k].kind == MemKind::Psram);
        assert(is_crossing_kind(mem[k].kind));
    }
    if has_sub(lp, "sdram"@) {
        assert(a.len() == 1);
        assert(ks[0] == a[0]);
        assert(fm(f)[0] == MemView { kind: a[0], evidence: f.path@ });
        lemma_flat_map_contains(files, fm, i, 0);
        let q = choose|q: int| 0 <= q < l.len() && l[q] == fm(f)[0];
        lemma_fpk_kinds(l, q);
        let k = choose|k: int| 0 <= k < first_per_kind(l).len() && (#[trigger] first_per_kind(l)[k]).kind == l[q].kind;
        assert(mem[k].kind == a[0]);
        assert(is_crossing_kind(mem[k].kind));
    }
}

/// A `set_clock_groups` that is commented out is no statement for the fixer: a file
/// whose every line naming `set_clock_groups` begins, after blanks, with `#` comes
/// back byte-identical with nothing removed.
pub proof fn law_commented_groups_untouched(text: Seq<char>, u: Seq<Seq<char>>)
    requires
        forall|k: int| 0 <= k < split_on(text, '\n').len() && has_sub(
            lower(#[trigger] split_on(text, '\n')[k]),
            "set_clock_groups"@,
        ) ==> crate::text::begins_with(crate::text::trim_start(split_on(text, '\n')[k]), seq!['#']),
    ensures
        fixed_text(text, u) == text,
        removed_groups(text, u).len() == 0,
{
    law_untouched_without_groups(text, u);
}

proof fn lemma_flatten_sub(ss: Seq<Seq<char>>, i: int, t: Seq<char>)
    requires
        0 <= i < ss.len(),
        has_sub(ss[i], t),
    ensures
        has_sub(ss.flatten(), t),
    decreases ss.len(),
{
    broadcast use lemma_has_sub_add;
    if i > 0 {
        lemma_flatten_sub(ss.drop_first(), i - 1, t);
    }
    assert(ss.flatten() == ss.first() + ss.drop_first().flatten());
}

/// The text report names each finding's severity: a high-severity finding shows
/// as `  [HIGH ] ` and a warning as `  [WARN ] `.
pub proof fn law_human_severity(r: crate::lint::ReportView)
    ensures
        forall|i: int| 0 <= i < r.findings.len() && (#[trigger] r.findings[i]).severity == Severity::High
            ==> has_sub(crate::report::human_spec(r), "  [HIGH ] "@),
        forall|i: int| 0 <= i < r.findings.len() && (#[trigger] r.findings[i]).severity == Severity::Warning
            ==> has_sub(crate::report::human_spec(r), "  [WARN ] "@),
{
    broadcast use lemma_has_sub_add;
    reveal_strlit("  [");
    reveal_strlit("] ");
    reveal_strlit("HIGH ");
    reveal_strlit("WARN ");
    reveal_strlit("  [HIGH ] ");
    reveal_strlit("  [WARN ] ");
    let rs = r.findings.map_values(|f: crate::lint::FindingView| crate::report::render_spec(f));
    assert forall|i: int| 0 <= i < r.findings.len() implies {
        let tag = if (#[trigger] r.findings[i]).severity == Severity::High { "  [HIGH ] "@ } else { "  [WARN ] "@ };
        has_sub(crate::report::human_spec(r), tag)
    } by {
        let f = r.findings[i];
        let tag = if f.severity == Severity::High { "  [HIGH ] "@ } else { "  [WARN ] "@ };
        let x = "  ["@ + crate::report::severity_tag_spec(f.severity) + "] "@;
        assert(x =~= tag);
        assert(occurs_at(x, tag, 0)) by {
            assert(x.subrange(0, tag.len() as int) =~= tag);
        }
        assert(has_sub(x, tag));
        assert(has_sub(crate::report::render_spec(f), tag));
        assert(rs[i] == crate::report::render_spec(f));
        lemma_flatten_sub(rs, i, tag);
    }
}

} // verus!
