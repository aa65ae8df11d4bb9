use cdc_sentinel::sdc::{parse_sdc, DatapathKind, GroupKind, SdcModel};
use cdc_sentinel::source::{CoreSource, MemSource, SourceFile};

fn parse(files: &MemSource) -> SdcModel {
    parse_sdc(&files.files())
}

#[test]
fn parses_blanket_async_and_pll_tokens() {
    let src = MemSource::new().with(
        "core_constraints.sdc",
        "set_clock_groups -asynchronous \\\n \
         -group {ic|core_pll|core_pll_inst|altera_pll_i clk} \\\n \
         -group {ic|video_pll|video_pll_inst|cyclonev_pll clk}\n",
    );
    let m = parse(&src);
    assert!(m.blanket_async());
    assert_eq!(m.clock_groups.len(), 1);
    assert_eq!(m.clock_groups[0].kind, GroupKind::Asynchronous);
    // cyclonev_pll excluded; core_pll + video_pll kept
    assert_eq!(m.async_group_pll_tokens(), vec!["core_pll", "video_pll"]);
}

#[test]
fn excludes_altera_primitives() {
    let src = MemSource::new()
        .with("c.sdc", "set_clock_groups -asynchronous -group {altera_pll_reconfig|x cyclonev_pll}");
    let m = parse(&src);
    assert!(m.async_group_pll_tokens().is_empty());
}

#[test]
fn framework_timing_is_not_author_added() {
    let src = MemSource::new()
        .with(
            "apf_constraints.sdc",
            "# Do not edit\nset_false_path -from [get_clocks a] -to [get_clocks b]",
        )
        .with("core.sdc", "set_multicycle_path -from [get_clocks c] -to [get_clocks c] 2");
    let m = parse(&src);
    // framework false_path present but excluded; only the author multicycle counts
    assert_eq!(m.added_timing(), vec![DatapathKind::Multicycle]);
}

#[test]
fn header_do_not_edit_marks_framework() {
    let src = MemSource::new().with(
        "sys_constr.sdc",
        "## AUTO-GENERATED — Do not edit this file\nset_input_delay -clock c 2.0 [get_ports x]",
    );
    let m = parse(&src);
    assert!(m.added_timing().is_empty(), "do-not-edit header should mark framework");
}

#[test]
fn commented_constraint_is_ignored() {
    let src = MemSource::new()
        .with("c.sdc", "# set_clock_groups -asynchronous -group {core_pll}\ncreate_clock -name clk_74a -period 13.4 [get_ports clk]");
    let m = parse(&src);
    assert!(!m.blanket_async());
    assert_eq!(m.created_clocks, vec!["clk_74a"]);
}

#[test]
fn group_kinds_members_and_evidence() {
    let src = MemSource::new().with(
        "x.sdc",
        "set_clock_groups -exclusive -group { a_pll } -group {B_PLL b_pll}\r\n\
         SET_CLOCK_GROUPS -group {c_pll}\n\
         create_generated_clock -name gen$1 -source x\n\
         create_clock -name clk_74a\ncreate_clock -name clk_74a\n\
         set_false_path -from a; set_output_delay 1 x\n",
    );
    let m = parse(&src);
    assert_eq!(m.clock_groups.len(), 2);
    assert_eq!(m.clock_groups[0].kind, GroupKind::Exclusive);
    assert_eq!(m.clock_groups[1].kind, GroupKind::Other);
    assert_eq!(m.clock_groups[0].members[0].raw, "a_pll");
    assert_eq!(m.clock_groups[0].members[1].pll_tokens, vec!["b_pll"]);
    assert!(!m.blanket_async());
    assert!(m.async_group_pll_tokens().is_empty());
    assert_eq!(m.created_clocks, vec!["gen$1", "clk_74a"]);
    assert_eq!(m.added_timing(), vec![DatapathKind::FalsePath, DatapathKind::OutputDelay]);
    assert_eq!(m.evidence_for("b_pll").unwrap(), "x.sdc: -group {B_PLL b_pll...}");
    assert_eq!(m.evidence_for("zz_pll"), None);
    assert_eq!(m.first_async_file(), None);
}

#[test]
fn first_async_file_and_long_evidence() {
    let long = "x".repeat(80);
    let text = format!("set_clock_groups -asynchronous -group {{{long} q_pll}}");
    let m = parse_sdc(&[
        SourceFile::new("a.v", "set_clock_groups -asynchronous -group {p_pll}"),
        SourceFile::new("k.sdc", &text),
    ]);
    assert_eq!(m.first_async_file().unwrap(), "k.sdc");
    let ev = m.evidence_for("q_pll").unwrap();
    assert_eq!(ev, format!("k.sdc: -group {{{}...}}", "x".repeat(70)));
}

#[test]
fn pll_tokens_need_whole_words() {
    let m = parse_sdc(&[SourceFile::new(
        "c.sdc",
        "set_clock_groups -asynchronous -group {core_pll_inst x.Video_PLL _pll a_b_pll}",
    )]);
    assert_eq!(m.async_group_pll_tokens(), vec!["_pll", "video_pll"]);
}

#[test]
fn continuation_joins_and_dangling_statement() {
    let m = parse_sdc(&[SourceFile::new(
        "c.sdc",
        "set_clock_groups \\\n  # not a comment inside? \\\n -asynchronous -group {m_pll} \\",
    )]);
    // the middle line is a full-line comment and is dropped; the dangling
    // statement still holds text, so it is kept
    assert!(m.blanket_async());
    assert_eq!(m.async_group_pll_tokens(), vec!["m_pll"]);
}
