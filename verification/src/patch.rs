//! The single upstream fix. Every Pocket core inherits its blanket
//! `set_clock_groups -asynchronous` from one root — the openFPGA core-template.
//! Patching that one file inoculates every future core against the STA-blind trap.
//!
//! This module emits a proposed patch + PR body for a human to review and submit;
//! it does not open a pull request.
use vstd::prelude::*;
use crate::lines::{seqs, text_lines, lines_exec};

verus! {

/// The template file the patch targets.
pub const TEMPLATE_FILE: &'static str = "src/fpga/core/core_constraints.sdc";

/// The template's root commit where the blanket cut originates (public).
pub const ROOT_COMMIT: &'static str = "ad20a21";

/// A proposed change to the upstream template.
#[derive(Debug, Clone)]
pub struct TemplatePatch {
    /// A unified-diff-style patch (apply against the current template file).
    pub patch: String,
    /// A proposed pull-request body for the maintainer to review and submit.
    pub pr_body: String,
}

/// The lines of the safe scaffold that replaces the blanket cut.
pub open spec fn scaffold_lines() -> Seq<Seq<char>> {
    seq![
        "# Clock groups: name the real clock domains explicitly. Do NOT blanket-cut"@,
        "# every crossing as -asynchronous -- that tells static timing analysis to"@,
        "# ignore EVERY clock crossing in the design, hiding real core<->memory"@,
        "# crossings that need datapath timing."@,
        "#"@,
        "# A single-clock-domain core needs nothing here."@,
        "#"@,
        "# TODO(per-core): if this core crosses into an external-memory clock (SDRAM/"@,
        "# PSRAM), add the datapath timing for that crossing here -- a"@,
        "# set_multicycle_path or set_false_path scoped to the memory clock -- with the"@,
        "# value confirmed in STA. Do not rely on a blanket -asynchronous cut."@,
    ]
}

/// The scaffold text: each line followed by a newline.
pub open spec fn scaffold_spec() -> Seq<char> {
    scaffold_lines().map_values(|l: Seq<char>| l + "\n"@).flatten()
}

/// The patch: the diff header, the removed blanket-cut lines, and each line of
/// the scaffold added.
pub open spec fn patch_spec() -> Seq<char> {
    "--- a/"@ + TEMPLATE_FILE@ + "\n"@ + "+++ b/"@ + TEMPLATE_FILE@ + "\n"@
        + "@@ clock constraints @@\n"@ + "-set_clock_groups -asynchronous \\\n"@
        + "-  -group { <clkA> } \\\n"@ + "-  -group { <clkB> } ...\n"@ + text_lines(scaffold_spec()).map_values(
        |l: Seq<char>| "+"@ + l + "\n"@,
    ).flatten()
}

/// The proposed pull-request body.
pub open spec fn pr_body_spec() -> Seq<char> {
    "## Replace the blanket `set_clock_groups -asynchronous` in the core constraints\n\n"@
        + "The template's `"@ + TEMPLATE_FILE@
        + "` ships a blanket `set_clock_groups -asynchronous` (originating at commit `"@
        + ROOT_COMMIT@
        + "`). Because every core is scaffolded from this template, every core inherits it.\n\n"@
        + "### Why this is a problem\n\n\
         A blanket `-asynchronous` cut tells static timing analysis to ignore **every** clock \
         crossing in the design. That is fine for a single-clock-domain core, but silently wrong \
         for a core that genuinely crosses into an external-memory clock (SDRAM/PSRAM) — the real \
         crossing is left with no datapath timing and STA never flags it. An analysis of 31 public \
         Pocket cores found this inherited cut is near-universal, and that several external-memory \
         cores carry it with no added timing.\n\n"@
        + "### The change\n\n\
         Replace the blanket cut with a documented, empty-by-default section plus a per-core TODO, \
         so a porter names their real domains and adds the specific datapath timing (confirmed in \
         STA) instead of inheriting a cut that hides the crossing. A single-clock-domain core needs \
         nothing here, so the common case is unaffected.\n\n"@
        + "> Note: the correct multicycle/false-path value is per-core and must be set and verified \
         in STA — this change intentionally does not prescribe a value.\n"@
}

/// The scaffold lines, in order.
fn scaffold_line_list() -> (r: Vec<&'static str>)
    ensures
        r@.map_values(|l: &str| l@) == scaffold_lines(),
{
    let mut r: Vec<&'static str> = Vec::new();
    r.push("# Clock groups: name the real clock domains explicitly. Do NOT blanket-cut");
    r.push("# every crossing as -asynchronous -- that tells static timing analysis to");
    r.push("# ignore EVERY clock crossing in the design, hiding real core<->memory");
    r.push("# crossings that need datapath timing.");
    r.push("#");
    r.push("# A single-clock-domain core needs nothing here.");
    r.push("#");
    r.push("# TODO(per-core): if this core crosses into an external-memory clock (SDRAM/");
    r.push("# PSRAM), add the datapath timing for that crossing here -- a");
    r.push("# set_multicycle_path or set_false_path scoped to the memory clock -- with the");
    r.push("# value confirmed in STA. Do not rely on a blanket -asynchronous cut.");
    assert(r@.map_values(|l: &str| l@) =~= scaffold_lines());
    r
}

/// Appends `prefix + line + "\n"` to `out` for every line.
fn push_lines(out: &mut String, lines: &Vec<&'static str>, prefix: &str)
    ensures
        final(out)@ == old(out)@ + lines@.map_values(|l: &str| l@).map_values(
            |l: Seq<char>| prefix@ + l + "\n"@,
        ).flatten(),
{
    let ghost ls = lines@.map_values(|l: &str| l@);
    let ghost f = |l: Seq<char>| prefix@ + l + "\n"@;
    let mut i: usize = 0;
    assert(ls.take(0).map_values(f).flatten() =~= Seq::<char>::empty());
    assert(out@ =~= old(out)@ + ls.take(0).map_values(f).flatten());
    while i < lines.len()
        invariant
            i <= lines@.len(),
            ls == lines@.map_values(|l: &str| l@),
            f == (|l: Seq<char>| prefix@ + l + "\n"@),
            out@ == old(out)@ + ls.take(i as int).map_values(f).flatten(),
        decreases lines.len() - i,
    {
        proof {
            assert(ls.take(i + 1) == ls.take(i as int).push(lines@[i as int]@));
            ls.take(i as int).lemma_push_map_commute(f, lines@[i as int]@);
            ls.take(i as int).map_values(f).lemma_flatten_push(f(lines@[i as int]@));
        }
        out.append(prefix);
        out.append(lines[i]);
        out.append("\n");
        i = i + 1;
    }
    assert(ls.take(lines@.len() as int) == ls);
}

/// The safe-scaffold replacement for the blanket cut.
fn safe_scaffold() -> (s: String)
    ensures
        s@ == scaffold_spec(),
{
    let lines = scaffold_line_list();
    let mut s = String::new();
    push_lines(&mut s, &lines, "");
    proof {
        reveal_strlit("");
        let ls = scaffold_lines();
        assert(ls.map_values(|l: Seq<char>| ""@ + l + "\n"@) =~= ls.map_values(|l: Seq<char>| l + "\n"@));
    }
    s
}

/// Build the proposed template patch + PR body.
pub fn emit_template_patch() -> (p: TemplatePatch)
    ensures
        p.patch@ == patch_spec(),
        p.pr_body@ == pr_body_spec(),
{
    let scaffold = safe_scaffold();
    let mut patch = "--- a/".to_owned();
    patch.append(TEMPLATE_FILE);
    patch.append("\n");
    patch.append("+++ b/");
    patch.append(TEMPLATE_FILE);
    patch.append("\n");
    patch.append("@@ clock constraints @@\n");
    patch.append("-set_clock_groups -asynchronous \\\n");
    patch.append("-  -group { <clkA> } \\\n");
    patch.append("-  -group { <clkB> } ...\n");
    let sc = crate::text::chars_of(scaffold.as_str());
    let ls = lines_exec(&sc);
    let mut i: usize = 0;
    let ghost lv = seqs(ls@);
    let ghost f = |l: Seq<char>| "+"@ + l + "\n"@;
    let ghost p0 = patch@;
    assert(lv.take(0).map_values(f).flatten() =~= Seq::<char>::empty());
    assert(patch@ =~= p0 + lv.take(0).map_values(f).flatten());
    while i < ls.len()
        invariant
            i <= ls@.len(),
            lv == seqs(ls@),
            f == (|l: Seq<char>| "+"@ + l + "\n"@),
            patch@ == p0 + lv.take(i as int).map_values(f).flatten(),
        decreases ls.len() - i,
    {
        proof {
            assert(lv.take(i + 1) == lv.take(i as int).push(ls@[i as int]@));
            lv.take(i as int).lemma_push_map_commute(f, ls@[i as int]@);
            lv.take(i as int).map_values(f).lemma_flatten_push(f(ls@[i as int]@));
        }
        patch.append("+");
        crate::text::push_range(&mut patch, &ls[i], 0, ls[i].len());
        assert(ls@[i as int]@.subrange(0, ls@[i as int]@.len() as int) == ls@[i as int]@);
        patch.append("\n");
        i = i + 1;
    }
    assert(lv.take(ls@.len() as int) == lv);
    let mut pr_body = "## Replace the blanket `set_clock_groups -asynchronous` in the core constraints\n\n".to_owned();
    pr_body.append("The template's `");
    pr_body.append(TEMPLATE_FILE);
    pr_body.append("` ships a blanket `set_clock_groups -asynchronous` (originating at commit `");
    pr_body.append(ROOT_COMMIT);
    pr_body.append("`). Because every core is scaffolded from this template, every core inherits it.\n\n");
    pr_body.append(
        "### Why this is a problem\n\n\
         A blanket `-asynchronous` cut tells static timing analysis to ignore **every** clock \
         crossing in the design. That is fine for a single-clock-domain core, but silently wrong \
         for a core that genuinely crosses into an external-memory clock (SDRAM/PSRAM) — the real \
         crossing is left with no datapath timing and STA never flags it. An analysis of 31 public \
         Pocket cores found this inherited cut is near-universal, and that several external-memory \
         cores carry it with no added timing.\n\n",
    );
    pr_body.append(
        "### The change\n\n\
         Replace the blanket cut with a documented, empty-by-default section plus a per-core TODO, \
         so a porter names their real domains and adds the specific datapath timing (confirmed in \
         STA) instead of inheriting a cut that hides the crossing. A single-clock-domain core needs \
         nothing here, so the common case is unaffected.\n\n",
    );
    pr_body.append(
        "> Note: the correct multicycle/false-path value is per-core and must be set and verified \
         in STA — this change intentionally does not prescribe a value.\n",
    );
    TemplatePatch { patch, pr_body }
}

} // verus!
