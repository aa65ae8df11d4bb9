use cdc_sentinel::design::{scan_design, DesignModel, MemKind};
use cdc_sentinel::source::{CoreSource, MemSource, SourceFile};

fn scan(s: &MemSource) -> DesignModel {
    scan_design(&s.files())
}

#[test]
fn audio_pll_file_yields_both_tokens() {
    // mf_audio_pll.v ships → both mf_audio_pll and audio_pll are in the universe
    let d = scan(&MemSource::new().with("rtl/mf_audio_pll.v", "module mf_audio_pll(); endmodule"));
    assert!(d.pll_modules.contains(&"mf_audio_pll".to_string()));
    assert!(d.pll_modules.contains(&"audio_pll".to_string()));
}

#[test]
fn upstream_and_reconfig_excluded() {
    let d = scan(
        &MemSource::new()
            .with("rtl/upstream/core_pll.v", "")
            .with("rtl/sdram_pll_reconfig.v", ""),
    );
    assert!(d.pll_modules.is_empty(), "upstream/reconfig must not count as shipped PLLs");
}

#[test]
fn detects_sdram_crossing_but_not_bare_ddr() {
    let sdram = scan(&MemSource::new().with("rtl/sdram.v", "module sdram(); endmodule"));
    assert!(sdram.has_external_crossing());
    let ddr_only = scan(&MemSource::new().with("rtl/ddram.v", "module ddram(); endmodule"));
    assert!(!ddr_only.has_external_crossing(), "a bare DDR vestige must not gate Lint B");
    assert_eq!(ddr_only.memory[0].kind, MemKind::Ddr);
}

#[test]
fn bram_only_core_has_no_crossing() {
    let d = scan(&MemSource::new().with("rtl/core_pll.v", "module core_pll(); endmodule"));
    assert!(!d.has_external_crossing());
    assert!(d.pll_modules.contains(&"core_pll".to_string()));
}

#[test]
fn multiport_sdram_recognised() {
    let d = scan(&MemSource::new().with("rtl/sdram_4w_ctrl.v", ""));
    assert_eq!(d.memory[0].kind, MemKind::SdramMultiport);
}

#[test]
fn module_declarations_and_sorting() {
    let d = scan_design(&[
        SourceFile::new("rtl/top.sv", "Module Zeta_PLL(); module beta_pll #(); submodule x_pll; module gamma_pll_x;\nmodule cyclonev_pll;"),
        SourceFile::new("rtl/psram.v", ""),
        SourceFile::new("rtl/cram2.sv", ""),
        SourceFile::new("rtl/ddr3.vh", ""),
        SourceFile::new("notes.txt", "module n_pll;"),
    ]);
    assert_eq!(d.pll_modules, vec!["beta_pll", "zeta_pll"]);
    assert_eq!(d.rtl_files_scanned, 4);
    assert_eq!(d.memory.len(), 1);
    assert_eq!(d.memory[0].kind, MemKind::Psram);
    assert_eq!(d.memory[0].evidence, "rtl/psram.v");
    assert_eq!(d.crossing_evidence().unwrap().evidence, "rtl/psram.v");
    let u = d.clock_universe(&["Clk_A".to_string(), "beta_pll".to_string(), "clk_a".to_string()]);
    assert_eq!(u, vec!["beta_pll", "zeta_pll", "clk_a"]);
}

#[test]
fn memory_kinds_per_file() {
    assert!(MemKind::Sdram.is_crossing());
    assert!(MemKind::SdramMultiport.is_crossing());
    assert!(MemKind::Psram.is_crossing());
    assert!(!MemKind::Ddr.is_crossing());
    let d = scan_design(&[
        SourceFile::new("rtl/ddram.v", ""),
        SourceFile::new("rtl/sdram_4w.v", ""),
        SourceFile::new("rtl/sdram.v", ""),
    ]);
    let kinds: Vec<MemKind> = d.memory.iter().map(|m| m.kind).collect();
    assert_eq!(kinds, vec![MemKind::Ddr, MemKind::SdramMultiport, MemKind::Sdram]);
    assert_eq!(d.crossing_evidence().unwrap().kind, MemKind::SdramMultiport);
}
