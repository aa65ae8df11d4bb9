//! Rendering [`CoreReport`]s as human-readable text. (The structured JSON form is
//! produced by the application around the library.)
use vstd::prelude::*;
use crate::lines::join_with;
use crate::lint::{CoreReport, Finding, FindingView, Lint, Severity, Confidence, ReportView};
use crate::sdc::{DatapathKind, command_of, strs};

verus! {

/// The tool name a consumer of the JSON output sees as its producer.
pub const TOOL: &'static str = "cdc-sentinel";

pub open spec fn severity_tag_spec(s: Severity) -> Seq<char> {
    match s {
        Severity::High => "HIGH "@,
        Severity::Warning => "WARN "@,
    }
}

pub open spec fn lint_tag_spec(l: Lint) -> Seq<char> {
    match l {
        Lint::A => "lint-A"@,
        Lint::B => "lint-B"@,
    }
}

/// The `Debug` name of a confidence.
pub open spec fn confidence_name(c: Confidence) -> Seq<char> {
    match c {
        Confidence::Observed => "Observed"@,
        Confidence::Inferred => "Inferred"@,
    }
}

/// `bool` as `Display` writes it.
pub open spec fn bool_text(b: bool) -> Seq<char> {
    if b {
        "true"@
    } else {
        "false"@
    }
}

/// The text block of one finding.
pub open spec fn render_spec(f: FindingView) -> Seq<char> {
    "  ["@ + severity_tag_spec(f.severity) + "] "@ + lint_tag_spec(f.lint) + " ("@ + f.id + ")\n"@
        + "    subject : "@ + f.subject + "\n"@
        + "    where   : "@ + f.evidence + "\n"@
        + "    why     : "@ + f.reason + "\n"@
        + "    fix     : "@ + f.fix_hint + "\n"@
        + "    ("@ + confidence_name(f.confidence) + ")\n"@
}

/// The added-timing field: `none`, or the commands joined with commas.
pub open spec fn added_text(ks: Seq<DatapathKind>) -> Seq<char> {
    if ks.len() == 0 {
        "none"@
    } else {
        join_with(ks.map_values(|k: DatapathKind| command_of(k)), ","@)
    }
}

/// One core's report as human-readable text.
pub open spec fn human_spec(r: ReportView) -> Seq<char> {
    "=== "@ + r.core + " ===\n"@
        + "  blanket_async="@ + bool_text(r.summary.blanket_async)
        + "  external_memory="@ + bool_text(r.summary.external_memory)
        + "  added_timing="@ + added_text(r.summary.added_timing) + "\n"@
        + "  pll_modules=["@ + join_with(r.summary.pll_modules, ", "@) + "]\n"@
        + (if r.findings.len() == 0 {
            "  no findings\n"@
        } else {
            r.findings.map_values(|f: FindingView| render_spec(f)).flatten()
        })
        + r.limits.map_values(|l: Seq<char>| "  limit: "@ + l + "\n"@).flatten()
}

fn severity_tag(s: Severity) -> (r: &'static str)
    ensures
        r@ == severity_tag_spec(s),
{
    match s {
        Severity::High => "HIGH ",
        Severity::Warning => "WARN ",
    }
}

fn lint_tag(l: Lint) -> (r: &'static str)
    ensures
        r@ == lint_tag_spec(l),
{
    match l {
        Lint::A => "lint-A",
        Lint::B => "lint-B",
    }
}

fn confidence_tag(c: Confidence) -> (r: &'static str)
    ensures
        r@ == confidence_name(c),
{
    match c {
        Confidence::Observed => "Observed",
        Confidence::Inferred => "Inferred",
    }
}

fn bool_tag(b: bool) -> (r: &'static str)
    ensures
        r@ == bool_text(b),
{
    if b {
        "true"
    } else {
        "false"
    }
}

fn render_finding(out: &mut String, f: &Finding)
    ensures
        final(out)@ == old(out)@ + render_spec(f@),
{
    out.append("  [");
    out.append(severity_tag(f.severity));
    out.append("] ");
    out.append(lint_tag(f.lint));
    out.append(" (");
    out.append(f.id);
    out.append(")\n");
    out.append("    subject : ");
    out.append(f.subject.as_str());
    out.append("\n");
    out.append("    where   : ");
    out.append(f.evidence.as_str());
    out.append("\n");
    out.append("    why     : ");
    out.append(f.reason.as_str());
    out.append("\n");
    out.append("    fix     : ");
    out.append(f.fix_hint.as_str());
    out.append("\n");
    out.append("    (");
    out.append(confidence_tag(f.confidence));
    out.append(")\n");
}

/// Appends `v` joined with `sep`.
fn push_joined(out: &mut String, v: &Vec<String>, sep: &str)
    ensures
        final(out)@ == old(out)@ + join_with(strs(v@), sep@),
{
    let ghost sv = strs(v@);
    let ghost o0 = out@;
    let mut i: usize = 0;
    assert(join_with(sv.take(0), sep@) =~= Seq::<char>::empty());
    assert(out@ =~= o0 + join_with(sv.take(0), sep@));
    while i < v.len()
        invariant
            i <= v@.len(),
            sv == strs(v@),
            out@ == o0 + join_with(sv.take(i as int), sep@),
        decreases v.len() - i,
    {
        proof {
            assert(sv.take(i + 1).drop_last() == sv.take(i as int));
            assert(sv.take(i + 1).last() == v@[i as int]@);
            if i == 0 {
                assert(sv.take(1)[0] == v@[0]@);
            }
        }
        if i > 0 {
            out.append(sep);
        }
        out.append(v[i].as_str());
        i = i + 1;
    }
    assert(sv.take(v@.len() as int) == sv);
}

/// One core's report as human-readable text.
pub fn to_human(report: &CoreReport) -> (r: String)
    ensures
        r@ == human_spec(report@),
{
    let mut out = "=== ".to_owned();
    out.append(report.core.as_str());
    out.append(" ===\n");
    let s = &report.summary;
    out.append("  blanket_async=");
    out.append(bool_tag(s.blanket_async));
    out.append("  external_memory=");
    out.append(bool_tag(s.external_memory));
    out.append("  added_timing=");
    let ghost o1 = out@;
    if s.added_timing.len() == 0 {
        out.append("none");
    } else {
        let ghost ks = s.added_timing@;
        let ghost cm = |k: DatapathKind| command_of(k);
        let ghost cs = ks.map_values(cm);
        let mut i: usize = 0;
        assert(join_with(cs.take(0), ","@) =~= Seq::<char>::empty());
        assert(out@ =~= o1 + join_with(cs.take(0), ","@));
        while i < s.added_timing.len()
            invariant
                i <= s.added_timing@.len(),
                ks == s.added_timing@,
                cm == (|k: DatapathKind| command_of(k)),
                cs == ks.map_values(cm),
                out@ == o1 + join_with(cs.take(i as int), ","@),
            decreases s.added_timing.len() - i,
        {
            proof {
                assert(cs.take(i + 1).drop_last() == cs.take(i as int));
                assert(cs.take(i + 1).last() == command_of(ks[i as int]));
                if i == 0 {
                    assert(cs.take(1)[0] == command_of(ks[0]));
                }
            }
            if i > 0 {
                out.append(",");
            }
            out.append(s.added_timing[i].command());
            i = i + 1;
        }
        assert(cs.take(ks.len() as int) == cs);
    }
    out.append("\n");
    out.append("  pll_modules=[");
    push_joined(&mut out, &s.pll_modules, ", ");
    out.append("]\n");
    let ghost o2 = out@;
    if report.findings.len() == 0 {
        out.append("  no findings\n");
    } else {
        let ghost fs = report@.findings;
        let ghost rs = |f: FindingView| render_spec(f);
        let mut i: usize = 0;
        assert(fs.take(0).map_values(rs).flatten() =~= Seq::<char>::empty());
        assert(out@ =~= o2 + fs.take(0).map_values(rs).flatten());
        while i < report.findings.len()
            invariant
                i <= report.findings@.len(),
                fs == report@.findings,
                rs == (|f: FindingView| render_spec(f)),
                out@ == o2 + fs.take(i as int).map_values(rs).flatten(),
            decreases report.findings.len() - i,
        {
            proof {
                assert(fs.take(i + 1) == fs.take(i as int).push(report.findings@[i as int]@));
                fs.take(i as int).lemma_push_map_commute(rs, report.findings@[i as int]@);
                fs.take(i as int).map_values(rs).lemma_flatten_push(rs(report.findings@[i as int]@));
            }
            render_finding(&mut out, &report.findings[i]);
            i = i + 1;
        }
        assert(fs.take(fs.len() as int) == fs);
    }
    let ghost o3 = out@;
    let ghost ls = report@.limits;
    let ghost lf = |l: Seq<char>| "  limit: "@ + l + "\n"@;
    let mut j: usize = 0;
    assert(ls.take(0).map_values(lf).flatten() =~= Seq::<char>::empty());
    assert(out@ =~= o3 + ls.take(0).map_values(lf).flatten());
    while j < report.limits.len()
        invariant
            j <= report.limits@.len(),
            ls == report@.limits,
            lf == (|l: Seq<char>| "  limit: "@ + l + "\n"@),
            out@ == o3 + ls.take(j as int).map_values(lf).flatten(),
        decreases report.limits.len() - j,
    {
        proof {
            assert(ls.take(j + 1) == ls.take(j as int).push(report.limits@[j as int]@));
            ls.take(j as int).lemma_push_map_commute(lf, report.limits@[j as int]@);
            ls.take(j as int).map_values(lf).lemma_flatten_push(lf(report.limits@[j as int]@));
        }
        out.append("  limit: ");
        out.append(report.limits[j].as_str());
        out.append("\n");
        j = j + 1;
    }
    assert(ls.take(ls.len() as int) == ls);
    out
}

} // verus!
