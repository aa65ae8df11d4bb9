//! The lint engine: two pure functions over the parsed [`SdcModel`] +
//! [`DesignModel`], plus the [`analyze`] orchestration that builds both models from
//! a [`CoreSource`] and runs them. Detect-and-explain only — no constraint is ever
//! rewritten.
use vstd::prelude::*;
use crate::design::{
    DesignModel, DesignView, MemController, MemKind, MemView, has_crossing, first_crossing,
    universe_of, design_spec, mem_views, scan_design,
};
use crate::sdc::{
    DatapathKind, SdcModel, SdcView, strs, has_async, added_kinds, async_tokens, group_evidence,
    first_async, parse_spec, parse_sdc, contains_string,
};
use crate::source::CoreSource;
use crate::text::chars_of;

verus! {

/// How much silicon risk a finding carries.
#[derive(Debug, Clone, Copy, PartialEq, Eq, Structural)]
pub enum Severity {
    /// A real, unconstrained clock crossing — a genuine timing hazard.
    High,
    /// A dead/misleading constraint — a correctness smell, not itself a hazard.
    Warning,
}

/// Which lint produced a finding.
#[derive(Debug, Clone, Copy, PartialEq, Eq, Structural)]
pub enum Lint {
    /// Lint A — dead / phantom clock-group member.
    A,
    /// Lint B — unconstrained real crossing.
    B,
}

/// The stable machine id of each lint.
pub open spec fn lint_id(l: Lint) -> Seq<char> {
    match l {
        Lint::A => "cdc-a-phantom-clock-group"@,
        Lint::B => "cdc-b-unconstrained-crossing"@,
    }
}

impl Lint {
    /// The stable machine id for this lint.
    pub fn id(self) -> (r: &'static str)
        ensures
            r@ == lint_id(self),
    {
        match self {
            Lint::A => "cdc-a-phantom-clock-group",
            Lint::B => "cdc-b-unconstrained-crossing",
        }
    }
}

/// Whether a finding's core claim is read verbatim from the files (observed) or
/// derived by heuristic (inferred).
#[derive(Debug, Clone, Copy, PartialEq, Eq, Structural)]
pub enum Confidence {
    /// Read directly from a cited file.
    Observed,
    /// Derived heuristically; may false-positive/negative (see the limits note).
    Inferred,
}

/// A single lint finding, shaped to serialize as a downstream tool's "CDC hotspot".
#[derive(Debug, Clone, PartialEq, Eq)]
pub struct Finding {
    /// Which lint.
    pub lint: Lint,
    /// Stable machine id.
    pub id: &'static str,
    /// Severity.
    pub severity: Severity,
    /// The offending clock (Lint A) or the crossing (Lint B).
    pub subject: String,
    /// A file + excerpt pinning the finding to a source line.
    pub evidence: String,
    /// Why it is a problem, in one sentence.
    pub reason: String,
    /// The constraint a fixer would write (pointer to the eventual fix).
    pub fix_hint: String,
    /// Observed vs inferred.
    pub confidence: Confidence,
}

/// What a [`Finding`] holds.
pub struct FindingView {
    pub lint: Lint,
    pub id: Seq<char>,
    pub severity: Severity,
    pub subject: Seq<char>,
    pub evidence: Seq<char>,
    pub reason: Seq<char>,
    pub fix_hint: Seq<char>,
    pub confidence: Confidence,
}

impl View for Finding {
    type V = FindingView;

    open spec fn view(&self) -> FindingView {
        FindingView {
            lint: self.lint,
            id: self.id@,
            severity: self.severity,
            subject: self.subject@,
            evidence: self.evidence@,
            reason: self.reason@,
            fix_hint: self.fix_hint@,
            confidence: self.confidence,
        }
    }
}

/// The views of a vector of findings.
pub open spec fn finding_views(v: Seq<Finding>) -> Seq<FindingView> {
    v.map_values(|f: Finding| f@)
}

/// The `Debug` name of a controller kind.
pub open spec fn kind_name(k: MemKind) -> Seq<char> {
    match k {
        MemKind::SdramMultiport => "SdramMultiport"@,
        MemKind::Sdram => "Sdram"@,
        MemKind::Psram => "Psram"@,
        MemKind::Ddr => "Ddr"@,
    }
}

/// The `Debug` name of a controller kind.
pub fn kind_name_exec(k: MemKind) -> (r: &'static str)
    ensures
        r@ == kind_name(k),
{
    match k {
        MemKind::SdramMultiport => "SdramMultiport",
        MemKind::Sdram => "Sdram",
        MemKind::Psram => "Psram",
        MemKind::Ddr => "Ddr",
    }
}

/// The clock universe of a pair of models.
pub open spec fn universe(sdc: SdcView, d: DesignView) -> Seq<Seq<char>> {
    universe_of(d.pll_modules, sdc.created_clocks)
}

/// The evidence cited for a phantom token.
pub open spec fn phantom_evidence(sdc: SdcView, t: Seq<char>) -> Seq<char> {
    match group_evidence(sdc.clock_groups, t) {
        Some(e) => e,
        None => "clock group naming `"@ + t + "`"@,
    }
}

/// The Lint A finding for a phantom token.
pub open spec fn phantom_finding(sdc: SdcView, t: Seq<char>) -> FindingView {
    FindingView {
        lint: Lint::A,
        id: lint_id(Lint::A),
        severity: Severity::Warning,
        subject: t,
        evidence: phantom_evidence(sdc, t),
        reason: "clock `"@ + t + "` is named in a set_clock_groups but resolves to no \
                 instantiated PLL output and no create_clock — a dead group member \
                 (an un-pruned multi-PLL group template inherited onto this core)"@,
        fix_hint: "remove the dead `"@ + t + "` group member, or instantiate the PLL it \
                 assumes; a future cdc-sentinel version will emit the pruned group"@,
        confidence: Confidence::Inferred,
    }
}

/// Lint A's findings: one per async-group token outside the clock universe, in
/// token order.
pub open spec fn phantom_findings(sdc: SdcView, d: DesignView) -> Seq<FindingView> {
    async_tokens(sdc).filter(|t: Seq<char>| !universe(sdc, d).contains(t)).map_values(
        |t: Seq<char>| phantom_finding(sdc, t),
    )
}

/// The Lint B finding for a crossing.
pub open spec fn crossing_finding(async_file: Seq<char>, mc: MemView) -> FindingView {
    FindingView {
        lint: Lint::B,
        id: lint_id(Lint::B),
        severity: Severity::High,
        subject: "core \u{2194} external memory ("@ + kind_name(mc.kind) + ")"@,
        evidence: async_file + ": set_clock_groups -asynchronous (blanket); controller "@
            + mc.evidence,
        reason: "an external-memory ("@ + kind_name(mc.kind) + ") crossing is left under a blanket \
             -asynchronous cut with NO added multicycle / false-path / set_*_delay \
             on any path — static timing analysis is blind to a real crossing"@,
        fix_hint: "add datapath timing covering the core\u{2194}memory crossing (a \
                   set_multicycle_path or set_false_path scoped to the SDRAM clock); \
                   a future cdc-sentinel version will emit the constraint"@,
        confidence: Confidence::Inferred,
    }
}

/// Lint B fires: a blanket async cut, a real memory crossing, and no timing the
/// author added.
pub open spec fn fires_b(sdc: SdcView, d: DesignView) -> bool {
    has_async(sdc) && has_crossing(d) && added_kinds(sdc).len() == 0
}

/// Lint B's findings.
pub open spec fn crossing_findings(sdc: SdcView, d: DesignView) -> Seq<FindingView> {
    if fires_b(sdc, d) {
        match first_crossing(d.memory) {
            Some(mc) => seq![
                crossing_finding(
                    match first_async(sdc.clock_groups) {
                        Some(f) => f,
                        None => "(clock-groups sdc)"@,
                    },
                    mc,
                ),
            ],
            None => Seq::<FindingView>::empty(),
        }
    } else {
        Seq::<FindingView>::empty()
    }
}

} // verus!

verus! {

/// Lint A — dead / phantom clock-group members. A `*_pll` token named inside a
/// blanket `-asynchronous` group that resolves to no shipped PLL module and no
/// `create_clock` is the mechanical fingerprint of a multi-PLL group template
/// inherited onto a core that never instantiated those PLLs.
pub fn lint_phantom(sdc: &SdcModel, design: &DesignModel) -> (r: Vec<Finding>)
    ensures
        finding_views(r@) == phantom_findings(sdc@, design@),
{
    let uni = design.clock_universe(sdc.created_clocks.as_slice());
    let toks = sdc.async_group_pll_tokens();
    let ghost ts = strs(toks@);
    let ghost u = universe(sdc@, design@);
    let ghost p = |t: Seq<char>| !universe(sdc@, design@).contains(t);
    let ghost mk = |t: Seq<char>| phantom_finding(sdc@, t);
    let mut out: Vec<Finding> = Vec::new();
    let mut i: usize = 0;
    while i < toks.len()
        invariant
            i <= toks@.len(),
            ts == strs(toks@),
            ts == async_tokens(sdc@),
            strs(uni@) == u,
            u == universe(sdc@, design@),
            p == (|t: Seq<char>| !universe(sdc@, design@).contains(t)),
            mk == (|t: Seq<char>| phantom_finding(sdc@, t)),
            finding_views(out@) == ts.take(i as int).filter(p).map_values(mk),
        decreases toks.len() - i,
    {
        let token = &toks[i];
        let tv = chars_of(token.as_str());
        proof {
            assert(ts.take(i + 1) == ts.take(i as int).push(tv@));
            ts.take(i as int).lemma_filter_push(tv@, p);
            ts.take(i as int).filter(p).lemma_push_map_commute(mk, tv@);
        }
        if !contains_string(&uni, &tv) {
            let evidence = match sdc.evidence_for(token.as_str()) {
                Some(e) => e,
                None => crate::text::concat3("clock group naming `", token.as_str(), "`"),
            };
            let reason = crate::text::concat3(
                "clock `",
                token.as_str(),
                "` is named in a set_clock_groups but resolves to no \
                 instantiated PLL output and no create_clock — a dead group member \
                 (an un-pruned multi-PLL group template inherited onto this core)",
            );
            let fix_hint = crate::text::concat3(
                "remove the dead `",
                token.as_str(),
                "` group member, or instantiate the PLL it \
                 assumes; a future cdc-sentinel version will emit the pruned group",
            );
            let f = Finding {
                lint: Lint::A,
                id: Lint::A.id(),
                severity: Severity::Warning,
                subject: token.clone(),
                evidence,
                reason,
                fix_hint,
                confidence: Confidence::Inferred,
            };
            let ghost before = out@;
            out.push(f);
            assert(finding_views(out@) == finding_views(before).push(f@));
            assert(f@ == mk(tv@));
        }
        i = i + 1;
    }
    assert(ts.take(toks@.len() as int) == ts);
    out
}

/// Lint B — an unconstrained real crossing. The core ships an external-memory
/// controller (so a genuine core-to-memory clock crossing exists), sits under a
/// blanket `-asynchronous` cut, and adds no datapath timing on any path. A
/// BRAM-only single-clock core is never flagged: it has no crossing to constrain.
pub fn lint_crossing(sdc: &SdcModel, design: &DesignModel) -> (r: Vec<Finding>)
    ensures
        finding_views(r@) == crossing_findings(sdc@, design@),
{
    let mut out: Vec<Finding> = Vec::new();
    if !sdc.blanket_async() {
        assert(finding_views(out@) =~= Seq::<FindingView>::empty());
        return out;
    }
    if !design.has_external_crossing() {
        assert(finding_views(out@) =~= Seq::<FindingView>::empty());
        return out;
    }
    if sdc.added_timing().len() != 0 {
        assert(finding_views(out@) =~= Seq::<FindingView>::empty());
        return out;
    }
    let mc = match design.crossing_evidence() {
        Some(c) => c,
        None => {
            assert(finding_views(out@) =~= Seq::<FindingView>::empty());
            return out;
        },
    };
    let async_file = match sdc.first_async_file() {
        Some(f) => f,
        None => "(clock-groups sdc)".to_owned(),
    };
    let kn = kind_name_exec(mc.kind);
    let subject = crate::text::concat3("core \u{2194} external memory (", kn, ")");
    let evidence = crate::text::concat3(
        async_file.as_str(),
        ": set_clock_groups -asynchronous (blanket); controller ",
        mc.evidence.as_str(),
    );
    let reason = crate::text::concat3(
        "an external-memory (",
        kn,
        ") crossing is left under a blanket \
             -asynchronous cut with NO added multicycle / false-path / set_*_delay \
             on any path — static timing analysis is blind to a real crossing",
    );
    let fix_hint = "add datapath timing covering the core\u{2194}memory crossing (a \
                   set_multicycle_path or set_false_path scoped to the SDRAM clock); \
                   a future cdc-sentinel version will emit the constraint".to_owned();
    let f = Finding {
        lint: Lint::B,
        id: Lint::B.id(),
        severity: Severity::High,
        subject,
        evidence,
        reason,
        fix_hint,
        confidence: Confidence::Inferred,
    };
    out.push(f);
    assert(finding_views(out@) =~= seq![f@]);
    out
}

} // verus!

verus! {

/// The at-a-glance structural facts behind a core's findings.
#[derive(Debug, Clone, PartialEq, Eq)]
pub struct Summary {
    /// A blanket `set_clock_groups -asynchronous` is present.
    pub blanket_async: bool,
    /// An external-memory crossing (SDRAM/PSRAM) is present.
    pub external_memory: bool,
    /// Datapath timing kinds the author added (empty means none).
    pub added_timing: Vec<DatapathKind>,
    /// PLL-module tokens the core ships/declares.
    pub pll_modules: Vec<String>,
    /// The full clock-name universe used for phantom resolution.
    pub clock_universe: Vec<String>,
    /// External-memory controllers detected.
    pub memory: Vec<MemController>,
}

/// A core's complete cdc-sentinel report.
#[derive(Debug, Clone, PartialEq, Eq)]
pub struct CoreReport {
    /// The core's name/path (as passed to [`analyze`]).
    pub core: String,
    /// Structural summary.
    pub summary: Summary,
    /// The findings, Lint B (high) before Lint A (warning).
    pub findings: Vec<Finding>,
    /// The scan's honest limits for this core.
    pub limits: Vec<String>,
}

/// What a [`Summary`] holds.
pub struct SummaryView {
    pub blanket_async: bool,
    pub external_memory: bool,
    pub added_timing: Seq<DatapathKind>,
    pub pll_modules: Seq<Seq<char>>,
    pub clock_universe: Seq<Seq<char>>,
    pub memory: Seq<MemView>,
}

/// What a [`CoreReport`] holds.
pub struct ReportView {
    pub core: Seq<char>,
    pub summary: SummaryView,
    pub findings: Seq<FindingView>,
    pub limits: Seq<Seq<char>>,
}

impl View for Summary {
    type V = SummaryView;

    open spec fn view(&self) -> SummaryView {
        SummaryView {
            blanket_async: self.blanket_async,
            external_memory: self.external_memory,
            added_timing: self.added_timing@,
            pll_modules: strs(self.pll_modules@),
            clock_universe: strs(self.clock_universe@),
            memory: mem_views(self.memory@),
        }
    }
}

impl View for CoreReport {
    type V = ReportView;

    open spec fn view(&self) -> ReportView {
        ReportView {
            core: self.core@,
            summary: self.summary@,
            findings: finding_views(self.findings@),
            limits: strs(self.limits@),
        }
    }
}

/// The limit recorded when no RTL file was scanned.
pub open spec fn no_rtl_limit() -> Seq<char> {
    "no RTL scanned — PLL/memory topology unknown; phantom and crossing \
     results are unreliable for this core"@
}

/// The limit every report records.
pub open spec fn heuristic_limit() -> Seq<char> {
    "heuristic text scan, not an elaborated netlist: a PLL built by an unseen \
     .qip/.ip is missed, and 'added timing' is detected by presence, not by \
     whether it actually covers the specific crossing"@
}

/// The report [`analyze_models`] produces.
pub open spec fn report_spec(core: Seq<char>, sdc: SdcView, d: DesignView) -> ReportView {
    ReportView {
        core,
        summary: SummaryView {
            blanket_async: has_async(sdc),
            external_memory: has_crossing(d),
            added_timing: added_kinds(sdc),
            pll_modules: d.pll_modules,
            clock_universe: universe(sdc, d),
            memory: d.memory,
        },
        findings: crossing_findings(sdc, d) + phantom_findings(sdc, d),
        limits: (if d.rtl_files_scanned == 0 {
            seq![no_rtl_limit()]
        } else {
            Seq::<Seq<char>>::empty()
        }) + seq![heuristic_limit()],
    }
}

/// Some finding of the report comes from lint `l`.
pub open spec fn fired_spec(r: ReportView, l: Lint) -> bool {
    exists|i: int| 0 <= i < r.findings.len() && (#[trigger] r.findings[i]).lint == l
}

impl CoreReport {
    /// True if any finding fired.
    pub fn has_findings(&self) -> (r: bool)
        ensures
            r == (self@.findings.len() > 0),
    {
        !self.findings.is_empty()
    }

    /// True if a finding of the given lint fired.
    pub fn fired(&self, lint: Lint) -> (r: bool)
        ensures
            r == fired_spec(self@, lint),
    {
        let mut i: usize = 0;
        while i < self.findings.len()
            invariant
                i <= self.findings@.len(),
                forall|j: int| 0 <= j < i ==> (#[trigger] self@.findings[j]).lint != lint,
            decreases self.findings.len() - i,
        {
            assert(self@.findings[i as int].lint == self.findings@[i as int].lint);
            if self.findings[i].lint == lint {
                return true;
            }
            i = i + 1;
        }
        false
    }
}

/// A copy of a controller vector.
fn copy_memory(v: &Vec<MemController>) -> (r: Vec<MemController>)
    ensures
        mem_views(r@) == mem_views(v@),
{
    let mut r: Vec<MemController> = Vec::new();
    let mut i: usize = 0;
    while i < v.len()
        invariant
            i <= v@.len(),
            mem_views(r@) == mem_views(v@).take(i as int),
        decreases v.len() - i,
    {
        let m = MemController { kind: v[i].kind, evidence: v[i].evidence.clone() };
        let ghost before = r@;
        r.push(m);
        i = i + 1;
        assert(mem_views(r@) == mem_views(before).push(m@));
        assert(mem_views(v@).take(i as int) == mem_views(v@).take(i - 1).push(v@[i - 1]@));
    }
    assert(mem_views(v@).take(v@.len() as int) == mem_views(v@));
    r
}

/// A copy of a string vector.
pub fn copy_strings(v: &Vec<String>) -> (r: Vec<String>)
    ensures
        strs(r@) == strs(v@),
{
    let mut r: Vec<String> = Vec::new();
    let mut i: usize = 0;
    while i < v.len()
        invariant
            i <= v@.len(),
            strs(r@) == strs(v@).take(i as int),
        decreases v.len() - i,
    {
        let s = v[i].clone();
        let ghost before = r@;
        r.push(s);
        i = i + 1;
        assert(strs(r@) == strs(before).push(s@));
        assert(strs(v@).take(i as int) == strs(v@).take(i - 1).push(v@[i - 1]@));
    }
    assert(strs(v@).take(v@.len() as int) == strs(v@));
    r
}

/// Run the lints over already-parsed models — the pure seam the unit tests drive.
pub fn analyze_models(core: &str, sdc: &SdcModel, design: &DesignModel) -> (r: CoreReport)
    ensures
        r@ == report_spec(core@, sdc@, design@),
{
    let mut findings = lint_crossing(sdc, design);
    let mut phantoms = lint_phantom(sdc, design);
    let ghost f0 = findings@;
    let ghost p0 = phantoms@;
    findings.append(&mut phantoms);
    assert(finding_views(findings@) =~= finding_views(f0) + finding_views(p0));
    let mut limits: Vec<String> = Vec::new();
    if design.rtl_files_scanned == 0 {
        limits.push(
            "no RTL scanned — PLL/memory topology unknown; phantom and crossing \
             results are unreliable for this core".to_owned(),
        );
    }
    limits.push(
        "heuristic text scan, not an elaborated netlist: a PLL built by an unseen \
         .qip/.ip is missed, and 'added timing' is detected by presence, not by \
         whether it actually covers the specific crossing".to_owned(),
    );
    assert(strs(limits@) =~= (if design@.rtl_files_scanned == 0 {
        seq![no_rtl_limit()]
    } else {
        Seq::<Seq<char>>::empty()
    }) + seq![heuristic_limit()]);
    let summary = Summary {
        blanket_async: sdc.blanket_async(),
        external_memory: design.has_external_crossing(),
        added_timing: sdc.added_timing(),
        pll_modules: copy_strings(&design.pll_modules),
        clock_universe: design.clock_universe(sdc.created_clocks.as_slice()),
        memory: copy_memory(&design.memory),
    };
    CoreReport { core: core.to_owned(), summary, findings, limits }
}

/// Build both models from a source and run both lints. `core` labels the report.
pub fn analyze<S: CoreSource>(core: &str, source: &S) -> (r: CoreReport)
    ensures
        r@ == report_spec(
            core@,
            parse_spec(source.source_files()),
            design_spec(source.source_files()),
        ),
{
    let files = source.files();
    let sdc = parse_sdc(files.as_slice());
    let design = scan_design(files.as_slice());
    analyze_models(core, &sdc, &design)
}

} // verus!
