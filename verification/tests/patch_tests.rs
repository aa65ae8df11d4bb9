use cdc_sentinel::patch::{emit_template_patch, ROOT_COMMIT, TEMPLATE_FILE};

#[test]
fn patch_replaces_blanket_cut_with_scaffold_and_todo() {
    let p = emit_template_patch();
    assert!(p.patch.contains(TEMPLATE_FILE));
    assert!(p.patch.contains("-set_clock_groups -asynchronous"), "removes the blanket cut");
    assert!(p.patch.contains("+# TODO(per-core)"), "adds the per-core TODO scaffold");
    assert!(!p.patch.contains("+set_clock_groups -asynchronous"), "does not re-add the cut");
}

#[test]
fn pr_body_cites_the_public_root_and_prescribes_no_value() {
    let p = emit_template_patch();
    assert!(p.pr_body.contains(ROOT_COMMIT));
    assert!(p.pr_body.to_lowercase().contains("does not prescribe a value"));
    assert!(p.pr_body.contains("public Pocket cores"), "cites the public evidence");
}

#[test]
fn patch_lines_are_each_prefixed() {
    let p = emit_template_patch();
    let lines: Vec<&str> = p.patch.lines().collect();
    assert_eq!(lines[0], "--- a/src/fpga/core/core_constraints.sdc");
    assert_eq!(lines[1], "+++ b/src/fpga/core/core_constraints.sdc");
    assert_eq!(lines.len(), 6 + 11);
    assert!(lines[6..].iter().all(|l| l.starts_with("+#")));
    assert!(p.patch.ends_with("blanket -asynchronous cut.\n"));
}
