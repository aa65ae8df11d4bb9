use cdc_sentinel::design::{scan_design, DesignModel};
use cdc_sentinel::lint::{analyze, analyze_models, lint_crossing, lint_phantom, Confidence, Lint, Severity};
use cdc_sentinel::sdc::{parse_sdc, SdcModel};
use cdc_sentinel::source::{CoreSource, MemSource};

fn models(src: &MemSource) -> (SdcModel, DesignModel) {
    let files = src.files();
    (parse_sdc(&files), scan_design(&files))
}

#[test]
fn phantom_group_fires_lint_a() {
    // groups video_pll + sdram_pll, but only core_pll is shipped
    let src = MemSource::new()
        .with(
            "core_constraints.sdc",
            "set_clock_groups -asynchronous \
             -group {ic|core_pll|inst} -group {ic|video_pll|inst} -group {ic|sdram_pll|inst}",
        )
        .with("rtl/core_pll.v", "module core_pll(); endmodule");
    let (sdc, design) = models(&src);
    let a = lint_phantom(&sdc, &design);
    let subjects: Vec<_> = a.iter().map(|f| f.subject.as_str()).collect();
    assert!(subjects.contains(&"video_pll"));
    assert!(subjects.contains(&"sdram_pll"));
    assert!(!subjects.contains(&"core_pll"), "core_pll is shipped → not phantom");
    assert!(a.iter().all(|f| f.severity == Severity::Warning));
}

#[test]
fn all_resolving_groups_do_not_fire_lint_a() {
    let src = MemSource::new()
        .with(
            "c.sdc",
            "set_clock_groups -asynchronous -group {core_pll} -group {sdram_pll} -group {video_pll}",
        )
        .with("rtl/core_pll.v", "")
        .with("rtl/sdram_pll.v", "")
        .with("rtl/video_pll.v", "");
    let (sdc, design) = models(&src);
    assert!(lint_phantom(&sdc, &design).is_empty());
}

#[test]
fn external_mem_no_timing_fires_lint_b() {
    let src = MemSource::new()
        .with("c.sdc", "set_clock_groups -asynchronous -group {core_pll}")
        .with("rtl/core_pll.v", "")
        .with("rtl/sdram.v", "module sdram(); endmodule");
    let (sdc, design) = models(&src);
    let b = lint_crossing(&sdc, &design);
    assert_eq!(b.len(), 1);
    assert_eq!(b[0].severity, Severity::High);
    assert_eq!(b[0].lint, Lint::B);
}

#[test]
fn bram_only_core_does_not_fire_lint_b() {
    // the correctness bar: single-clock BRAM-only core, blanket cut, no timing → NOT flagged
    let src = MemSource::new()
        .with("c.sdc", "set_clock_groups -asynchronous -group {core_pll}")
        .with("rtl/core_pll.v", "");
    let (sdc, design) = models(&src);
    assert!(lint_crossing(&sdc, &design).is_empty());
}

#[test]
fn retimed_core_does_not_fire_lint_b() {
    // external memory present, but the author re-added timing → NOT flagged
    let src = MemSource::new()
        .with(
            "c.sdc",
            "set_clock_groups -asynchronous -group {core_pll}\n\
             set_multicycle_path -from [get_clocks a] -to [get_clocks b] 2",
        )
        .with("rtl/core_pll.v", "")
        .with("rtl/sdram.v", "");
    let (sdc, design) = models(&src);
    assert!(lint_crossing(&sdc, &design).is_empty());
}

#[test]
fn framework_timing_does_not_suppress_lint_b() {
    // baseline false_path lives only in the Do-not-edit framework file → still fires
    let src = MemSource::new()
        .with("apf_constraints.sdc", "# Do not edit\nset_false_path -from a -to b")
        .with("core.sdc", "set_clock_groups -asynchronous -group {core_pll}")
        .with("rtl/core_pll.v", "")
        .with("rtl/sdram.v", "");
    let (sdc, design) = models(&src);
    assert_eq!(lint_crossing(&sdc, &design).len(), 1, "framework timing must not count as added");
}

#[test]
fn analyze_orders_high_before_warning() {
    // a core that fires BOTH lints: report lists Lint B (high) first
    let src = MemSource::new()
        .with(
            "c.sdc",
            "set_clock_groups -asynchronous -group {core_pll} -group {video_pll}",
        )
        .with("rtl/core_pll.v", "")
        .with("rtl/sdram.v", "");
    let rep = analyze("dual", &src);
    assert!(rep.fired(Lint::A) && rep.fired(Lint::B));
    assert_eq!(rep.findings[0].lint, Lint::B, "high severity first");
}

#[test]
fn finding_texts_are_exact() {
    let src = MemSource::new()
        .with("c.sdc", "set_clock_groups -asynchronous -group {video_pll}")
        .with("rtl/core_pll.v", "")
        .with("rtl/sdram.v", "");
    let rep = analyze("t", &src);
    assert_eq!(rep.findings.len(), 2);
    let b = &rep.findings[0];
    assert_eq!(b.id, "cdc-b-unconstrained-crossing");
    assert_eq!(b.subject, "core \u{2194} external memory (Sdram)");
    assert_eq!(b.evidence, "c.sdc: set_clock_groups -asynchronous (blanket); controller rtl/sdram.v");
    assert!(b.reason.starts_with("an external-memory (Sdram) crossing is left under a blanket -asynchronous cut"));
    assert_eq!(b.confidence, Confidence::Inferred);
    let a = &rep.findings[1];
    assert_eq!(a.id, "cdc-a-phantom-clock-group");
    assert_eq!(a.subject, "video_pll");
    assert_eq!(a.evidence, "c.sdc: -group {video_pll...}");
    assert!(a.reason.starts_with("clock `video_pll` is named in a set_clock_groups but resolves to no instantiated PLL output"));
    assert!(a.fix_hint.starts_with("remove the dead `video_pll` group member"));
    assert_eq!(Lint::A.id(), "cdc-a-phantom-clock-group");
    assert!(rep.has_findings());
}

#[test]
fn report_summary_and_limits() {
    let src = MemSource::new().with("c.sdc", "set_clock_groups -asynchronous -group {core_pll}\ncreate_clock -name Sys");
    let rep = analyze("nortl", &src);
    assert!(rep.summary.blanket_async);
    assert!(!rep.summary.external_memory);
    assert!(rep.summary.added_timing.is_empty());
    assert_eq!(rep.summary.clock_universe, vec!["sys"]);
    assert_eq!(rep.limits.len(), 2);
    assert!(rep.limits[0].starts_with("no RTL scanned"));
    assert!(rep.limits[1].starts_with("heuristic text scan"));
    assert_eq!(rep.core, "nortl");
    // the one phantom finding cites the group line
    assert!(rep.fired(Lint::A));
    assert!(!rep.fired(Lint::B));
    let sdc = parse_sdc(&src.files());
    let design = scan_design(&src.files());
    assert_eq!(analyze_models("nortl", &sdc, &design), rep);
}
