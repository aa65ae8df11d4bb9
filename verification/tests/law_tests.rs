use cdc_sentinel::design::{scan_design, MemKind};
use cdc_sentinel::fix::{plan_fix, remove_phantom_groups, UNVERIFIED_BANNER};
use cdc_sentinel::lint::{analyze, Lint};
use cdc_sentinel::scan::{first_name_marked, module_names_marked, pll_tokens_marked, word_runs_marked};
use cdc_sentinel::sdc::parse_sdc;
use cdc_sentinel::source::{CoreSource, FsSource, MemSource, SourceFile};

fn chars(s: &str) -> Vec<char> {
    s.chars().collect()
}

#[test]
fn file_without_clock_groups_is_left_byte_identical() {
    let text = "create_clock -name clk -period 10 [get_ports clk]\r\n# -group {video_pll}\nset_false_path -from a -to b\n";
    let universe = vec![chars("core_pll")];
    let (fixed, removed) = remove_phantom_groups(&chars(text), &universe);
    assert_eq!(fixed.iter().collect::<String>(), text);
    assert!(removed.is_empty());
}

#[test]
fn every_removal_names_only_clocks_outside_the_universe() {
    let text = "set_clock_groups -asynchronous -group {core_pll} -group {video_pll sdram_pll} -group {audio_pll core_pll}";
    let universe = vec![chars("core_pll"), chars("audio_pll")];
    let (fixed, removed) = remove_phantom_groups(&chars(text), &universe);
    let removed: Vec<String> = removed.iter().map(|r| r.iter().collect()).collect();
    assert_eq!(removed, vec!["-group {video_pll sdram_pll} (clock: video_pll, sdram_pll)".to_string()]);
    assert_eq!(
        fixed.iter().collect::<String>(),
        "set_clock_groups -asynchronous -group {core_pll}  -group {audio_pll core_pll}"
    );
}

#[test]
fn ddr_alone_never_fires_lint_b() {
    let src = MemSource::new()
        .with("core.sdc", "set_clock_groups -asynchronous -group {core_pll}\n")
        .with("rtl/core_pll.v", "module core_pll(); endmodule")
        .with("rtl/ddram.v", "module ddram(); endmodule");
    let report = analyze("ddr", &src);
    assert!(!report.fired(Lint::B));
    assert_eq!(report.summary.memory.len(), 1);
    assert_eq!(report.summary.memory[0].kind, MemKind::Ddr);
    assert!(plan_fix("ddr", &src).suggestions.is_empty());
}

#[test]
fn unrelated_files_change_neither_model() {
    let base = MemSource::new()
        .with("core.sdc", "set_clock_groups -asynchronous -group {video_pll}\nset_false_path -from a -to b\n")
        .with("rtl/core_pll.v", "module core_pll(); endmodule")
        .with("rtl/sdram.v", "module sdram(); endmodule");
    let more = MemSource::new()
        .with("core.sdc", "set_clock_groups -asynchronous -group {video_pll}\nset_false_path -from a -to b\n")
        .with("rtl/core_pll.v", "module core_pll(); endmodule")
        .with("rtl/sdram.v", "module sdram(); endmodule")
        .with("README.md", "set_clock_groups -asynchronous -group {audio_pll}\nmodule sdram_pll();\n");
    assert_eq!(parse_sdc(&base.files()), parse_sdc(&more.files()));
    assert_eq!(scan_design(&base.files()), scan_design(&more.files()));
    assert_eq!(analyze("c", &base), analyze("c", &more));
}

#[test]
fn one_controller_recorded_per_kind() {
    let d = scan_design(
        &MemSource::new()
            .with("rtl/sdram.v", "")
            .with("rtl/sdram_ctrl.sv", "")
            .with("rtl/psram.v", "")
            .with("rtl/cram.v", "")
            .files(),
    );
    let kinds: Vec<MemKind> = d.memory.iter().map(|m| m.kind).collect();
    assert_eq!(kinds, vec![MemKind::Sdram, MemKind::Psram]);
    assert_eq!(d.memory[0].evidence, "rtl/sdram.v");
    assert_eq!(d.memory[1].evidence, "rtl/psram.v");
}

#[test]
fn universe_holds_plls_and_lowercased_created_clocks() {
    let d = scan_design(&MemSource::new().with("rtl/core_pll.v", "module core_pll(); endmodule").files());
    let created = vec!["Video_PLL".to_string(), "core_pll".to_string(), "VIDEO_pll".to_string()];
    let u = d.clock_universe(&created);
    assert_eq!(u, vec!["core_pll".to_string(), "video_pll".to_string()]);
}

#[test]
fn group_tokens_are_distinct_and_exclude_primitives() {
    let m = parse_sdc(&[SourceFile::new(
        "c.sdc",
        "set_clock_groups -asynchronous -group {a|video_pll|b cyclonev_pll video_pll Video_Pll}",
    )]);
    assert_eq!(m.clock_groups[0].members[0].pll_tokens, vec!["video_pll".to_string()]);
    assert_eq!(m.async_group_pll_tokens(), vec!["video_pll".to_string()]);
}

#[test]
fn phantom_findings_are_sorted_and_unique() {
    let src = MemSource::new().with(
        "core.sdc",
        "set_clock_groups -asynchronous -group {video_pll} -group {audio_pll}\n\
         set_clock_groups -asynchronous -group {video_pll sdram_pll}\nset_false_path -from a -to b\n",
    );
    let report = analyze("p", &src);
    let subjects: Vec<&str> = report.findings.iter().map(|f| f.subject.as_str()).collect();
    assert_eq!(subjects, vec!["audio_pll", "sdram_pll", "video_pll"]);
    assert!(report.findings.iter().all(|f| f.lint == Lint::A));
}

#[test]
fn one_suggestion_per_crossing_controller_appended_after_the_file() {
    let sdc_text = "set_clock_groups -asynchronous -group {core_pll}\n";
    let src = MemSource::new()
        .with("core.sdc", sdc_text)
        .with("rtl/core_pll.v", "module core_pll(); endmodule")
        .with("rtl/sdram.v", "")
        .with("rtl/psram.v", "")
        .with("rtl/ddram.v", "");
    let plan = plan_fix("two", &src);
    assert_eq!(plan.suggestions.len(), 2);
    let ff = &plan.fixed_files[0];
    assert_eq!(ff.path, "core.sdc");
    assert!(ff.removed_groups.is_empty());
    assert_eq!(ff.suggestions_appended, 2);
    let blocks: String = plan.suggestions.iter().map(|s| s.block.clone()).collect();
    assert_eq!(ff.fixed, format!("{sdc_text}{blocks}"));
    for s in &plan.suggestions {
        assert!(s.block.contains(UNVERIFIED_BANNER));
        assert!(s.block.starts_with("\n#"));
        assert!(s.block.ends_with('\n'));
        for line in s.block.lines().skip(1) {
            assert!(line.starts_with('#'), "commented: {line}");
        }
    }
}

#[test]
fn walked_files_are_held_in_path_order() {
    let files = vec![
        SourceFile::new("rtl/b.v", "b"),
        SourceFile::new("a.sdc", "a"),
        SourceFile::new("rtl/a.v", "first"),
        SourceFile::new("rtl/a.v", "second"),
    ];
    let src = FsSource::from_walk("/core", files);
    let got: Vec<(String, String)> = src.files().into_iter().map(|f| (f.path, f.text)).collect();
    let want: Vec<(String, String)> = vec![
        ("a.sdc".into(), "a".into()),
        ("rtl/a.v".into(), "first".into()),
        ("rtl/a.v".into(), "second".into()),
        ("rtl/b.v".into(), "b".into()),
    ];
    assert_eq!(got, want);
    assert_eq!(src.root(), "/core");
}

#[test]
fn word_characters_follow_unicode() {
    let m = parse_sdc(&[SourceFile::new(
        "c.sdc",
        "set_clock_groups -asynchronous -group {ä_pll \u{212a}_pll xä_pll}\n\
         create_clock -name clk_ä -period 10 [get_ports a]\n",
    )]);
    assert_eq!(m.clock_groups[0].members[0].pll_tokens, vec!["\u{212a}_pll".to_string()]);
    assert_eq!(m.created_clocks, vec!["clk_ä".to_string()]);
    let d = scan_design(
        &MemSource::new()
            .with("rtl/a.v", "module ä_pll(); endmodule\nmodule \u{17f}x_PLL(); endmodule\nämodule core_pll();")
            .files(),
    );
    assert_eq!(d.pll_modules, vec!["\u{17f}x_pll".to_string()]);
}

#[test]
fn scans_read_the_word_flags_they_are_given() {
    let s = chars("a_pll b_pll");
    let runs = word_runs_marked(&s, &vec![true, true, true, true, true, false, true, true, true, true, true]);
    assert_eq!(runs, vec![chars("a_pll"), chars("b_pll")]);
    // a flag missing or off splits or drops a run
    assert_eq!(word_runs_marked(&s, &vec![false, true, true, true, true]), vec![chars("_pll")]);
    assert_eq!(pll_tokens_marked(&s, &vec![false, true, true, true, true]), vec![chars("_pll")]);
    assert_eq!(pll_tokens_marked(&s, &vec![true; 11]), Vec::<Vec<char>>::new());
    let n = chars("-name ab$c d");
    assert_eq!(first_name_marked(&n, &vec![false; 12]), Some(chars("a")));
    let mut f = vec![true; 12];
    f[10] = false;
    assert_eq!(first_name_marked(&n, &f), Some(chars("ab$c")));
    let m = chars("module x_pll");
    assert_eq!(module_names_marked(&m, &vec![true; 12]), vec![chars("x_pll")]);
    assert_eq!(module_names_marked(&m, &vec![false; 12]), Vec::<Vec<char>>::new());
}
