use cdc_sentinel::lint::analyze;
use cdc_sentinel::report::to_human;
use cdc_sentinel::source::MemSource;

#[test]
fn human_renders_no_findings() {
    let src = MemSource::new()
        .with("c.sdc", "set_clock_groups -asynchronous -group {core_pll}")
        .with("rtl/core_pll.v", "");
    let rep = analyze("bram", &src);
    let h = to_human(&rep);
    assert!(h.contains("no findings"));
}

#[test]
fn human_renders_exact_text() {
    let src = MemSource::new()
        .with("c.sdc", "set_clock_groups -asynchronous -group {x_pll}\nset_false_path a\nset_input_delay b")
        .with("rtl/core_pll.v", "");
    let rep = analyze("core1", &src);
    let h = to_human(&rep);
    let lines: Vec<&str> = h.lines().collect();
    assert_eq!(lines[0], "=== core1 ===");
    assert_eq!(lines[1], "  blanket_async=true  external_memory=false  added_timing=set_false_path,set_input_delay");
    assert_eq!(lines[2], "  pll_modules=[core_pll]");
    assert_eq!(lines[3], "  [WARN ] lint-A (cdc-a-phantom-clock-group)");
    assert_eq!(lines[4], "    subject : x_pll");
    assert_eq!(lines[5], "    where   : c.sdc: -group {x_pll...}");
    assert_eq!(lines[8], "    (Inferred)");
    assert!(lines[9].starts_with("  limit: heuristic text scan"));
    assert_eq!(lines.len(), 10);
}
