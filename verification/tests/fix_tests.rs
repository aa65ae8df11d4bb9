use cdc_sentinel::fix::{plan_fix, plan_fix_models, UNVERIFIED_BANNER};
use cdc_sentinel::source::{CoreSource, MemSource, SourceFile};
use cdc_sentinel::{design, sdc};

fn m72_like() -> MemSource {
    // blanket async cut naming two phantom PLLs (video_pll, sdram_pll) that ship
    // nowhere, plus real core_pll + audio_pll (mf_audio_pll ships). Author added
    // timing so Lint B must NOT fire here.
    MemSource::new()
        .with(
            "core.sdc",
            "set_clock_groups -asynchronous \\\n  \
             -group {ic|core_pll|inst clk} \\\n  \
             -group {ic|audio_pll|inst clk} \\\n  \
             -group {ic|video_pll|video_pll_inst clk} \\\n  \
             -group {ic|sdram_pll|inst clk}\nset_false_path -from a -to b\n",
        )
        .with("rtl/core_pll.v", "module core_pll(); endmodule")
        .with("rtl/mf_audio_pll.v", "module mf_audio_pll(); endmodule")
        .with("rtl/sdram_4w.v", "module sdram_4w(); endmodule")
}

#[test]
fn phantom_fix_removes_only_dead_members_and_is_otherwise_identical() {
    let plan = plan_fix("m72", &m72_like());
    assert!(plan.has_safe_fixes());
    let ff = plan.fixed_files.iter().find(|f| f.path == "core.sdc").unwrap();
    // two dead members removed: video_pll and sdram_pll
    assert_eq!(ff.removed_groups.len(), 2);
    assert!(ff.fixed.contains("core_pll"), "real clock kept");
    assert!(ff.fixed.contains("audio_pll"), "real clock kept");
    assert!(!ff.fixed.contains("video_pll"), "phantom removed");
    assert!(!ff.fixed.contains("sdram_pll"), "phantom removed");
    // the unrelated line is byte-identical
    assert!(ff.fixed.contains("set_false_path -from a -to b"));
    // the fixed statement is still valid: header + 2 groups, last has no '\'
    let stmt: Vec<&str> = ff.fixed.lines().filter(|l| l.contains("group") || l.contains("set_clock_groups")).collect();
    assert!(!stmt.last().unwrap().trim_end().ends_with('\\'), "last group line has no continuation");
}

#[test]
fn phantom_fix_result_reparses_with_no_phantoms() {
    let plan = plan_fix("m72", &m72_like());
    let ff = plan.fixed_files.iter().find(|f| f.path == "core.sdc").unwrap();
    // feed the corrected SDC back through the parser + the same design → no phantom tokens
    let files = m72_like().files();
    let design = design::scan_design(&files);
    let corrected = sdc::parse_sdc(&[SourceFile::new("core.sdc", &ff.fixed)]);
    let universe = design.clock_universe(&corrected.created_clocks);
    for t in corrected.async_group_pll_tokens() {
        assert!(universe.contains(&t), "no phantom token remains: {t}");
    }
}

#[test]
fn crossing_gets_unverified_suggestion_never_a_bare_number() {
    // external memory + blanket cut + NO added timing → Lint B → guided suggestion
    let src = MemSource::new()
        .with("core.sdc", "set_clock_groups -asynchronous -group {core_pll}\n")
        .with("rtl/core_pll.v", "module core_pll(); endmodule")
        .with("rtl/sdram.v", "module sdram(); endmodule");
    let plan = plan_fix("mem", &src);
    assert_eq!(plan.suggestions.len(), 1);
    let block = &plan.suggestions[0].block;
    assert!(block.contains(UNVERIFIED_BANNER), "banner present");
    assert!(block.contains("<N>"), "placeholder, not a bare number");
    assert!(block.contains("<CORE_CLK>") && block.contains("<MEM_CLK>"));
    // every suggested constraint line is commented out (never applied blind)
    for line in block.lines().filter(|l| l.contains("set_multicycle_path") || l.contains("set_false_path")) {
        assert!(line.trim_start().starts_with('#'), "suggestion line is commented: {line}");
    }
    // and the appended file keeps the user's original content intact above the block
    let ff = plan.fixed_files.iter().find(|f| f.path == "core.sdc").unwrap();
    assert!(ff.fixed.starts_with(&ff.original), "user SDC untouched; suggestion only appended");
    assert_eq!(ff.suggestions_appended, 1);
}

#[test]
fn bram_only_core_gets_no_suggestion() {
    let src = MemSource::new()
        .with("core.sdc", "set_clock_groups -asynchronous -group {core_pll}\n")
        .with("rtl/core_pll.v", "module core_pll(); endmodule");
    let plan = plan_fix("bram", &src);
    assert!(plan.suggestions.is_empty(), "no crossing → no suggestion");
    assert!(!plan.has_safe_fixes());
}

#[test]
fn retimed_core_gets_no_suggestion() {
    let src = MemSource::new()
        .with(
            "core.sdc",
            "set_clock_groups -asynchronous -group {core_pll}\nset_multicycle_path -from a -to b 2\n",
        )
        .with("rtl/core_pll.v", "module core_pll(); endmodule")
        .with("rtl/sdram.v", "module sdram(); endmodule");
    let plan = plan_fix("retimed", &src);
    assert!(plan.suggestions.is_empty(), "author already added timing → no suggestion");
}

#[test]
fn exact_fixed_text_and_removal_descriptions() {
    let text = "# keep me\nset_clock_groups -asynchronous -group {a_pll} \\\n   -group {ghost_pll} \\\n   -group {b_pll}\nlast line";
    let src = MemSource::new()
        .with("c.sdc", text)
        .with("rtl/top.v", "module a_pll; endmodule\nmodule b_pll; endmodule");
    let plan = plan_fix("x", &src);
    assert_eq!(plan.fixed_files.len(), 1);
    let ff = &plan.fixed_files[0];
    assert_eq!(ff.removed_groups, vec!["-group {ghost_pll} (clock: ghost_pll)"]);
    assert_eq!(
        ff.fixed,
        "# keep me\nset_clock_groups -asynchronous -group {a_pll} \\\n   -group {b_pll}\nlast line"
    );
    assert!(ff.changed());
    assert_eq!(plan.notes.len(), 1);
    assert!(plan.notes[0].starts_with("heuristic fixer"));
}

#[test]
fn dropping_the_last_line_moves_the_continuation() {
    let text = "set_clock_groups -asynchronous -group {a_pll} \\\n  -group {ghost_pll}";
    let src = MemSource::new().with("c.sdc", text).with("rtl/top.v", "module a_pll; endmodule");
    let plan = plan_fix("x", &src);
    assert_eq!(plan.fixed_files[0].fixed, "set_clock_groups -asynchronous -group {a_pll}");
}

#[test]
fn mixed_group_is_kept_and_nothing_note() {
    let text = "set_clock_groups -exclusive -group {a_pll ghost_pll}";
    let src = MemSource::new().with("c.sdc", text).with("rtl/top.v", "module a_pll; endmodule");
    let plan = plan_fix("x", &src);
    assert!(plan.fixed_files.is_empty());
    assert_eq!(plan.notes.len(), 2);
    assert_eq!(plan.notes[0], "nothing to fix: no phantom groups and no unconstrained crossing");
}

#[test]
fn suggestion_joins_removal_fix_and_models_entry() {
    let src = MemSource::new()
        .with("c.sdc", "set_clock_groups -asynchronous -group {core_pll} -group {ghost_pll}\n")
        .with("rtl/core_pll.v", "")
        .with("rtl/sdram.v", "")
        .with("rtl/psram_ctrl.sv", "");
    let files = src.files();
    let s = sdc::parse_sdc(&files);
    let d = design::scan_design(&files);
    let plan = plan_fix_models("both", &s, &d, &files);
    assert_eq!(plan.core, "both");
    assert_eq!(plan.suggestions.len(), 2);
    assert_eq!(plan.suggestions[1].crossing, "core \u{2194} external memory (Psram)");
    assert_eq!(plan.fixed_files.len(), 1);
    let ff = &plan.fixed_files[0];
    assert_eq!(ff.suggestions_appended, 2);
    let blocks = format!("{}{}", plan.suggestions[0].block, plan.suggestions[1].block);
    assert_eq!(ff.fixed, format!("set_clock_groups -asynchronous -group {{core_pll}} \n{blocks}"));
    assert!(plan.suggestions[0].block.contains("# Evidence: rtl/sdram.v\n"));
}
