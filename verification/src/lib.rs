//! Topology-aware clock-domain-crossing lints for FPGA cores.
//!
//! Analogue-Pocket cores inherit a blanket `set_clock_groups -asynchronous` from
//! their build template — one line telling static timing analysis to ignore every
//! clock crossing in the design. That is correct for a single-clock-domain core and
//! silently wrong for one that genuinely crosses into an external-memory clock with
//! no datapath timing added back. cdc-sentinel reads a core's `.sdc` plus a
//! lightweight structural scan of its RTL and flags the two failure modes:
//!
//! - **Lint A** — a dead / phantom clock-group member (a clock named in a group
//!   that resolves to no instantiated PLL or `create_clock`).
//! - **Lint B** — an unconstrained real crossing (an external-memory core under a
//!   blanket async cut with no added datapath timing). Crossing-aware: a BRAM-only
//!   single-clock core is never flagged.
//!
//! Parsing produces two typed models — an [`sdc::SdcModel`] and a
//! [`design::DesignModel`] — and the lints are pure functions of them. File access
//! sits behind the [`source::CoreSource`] seam. Every function here carries a
//! contract over the mathematical models of its inputs and results, and Verus
//! proves each body against it, except the two trusted wrappers of `text`: one
//! around `String::push`, and one around the regex engine's Unicode word-character
//! test, whose result the contracts name [`text::unicode_word`].
pub mod design;
pub mod fix;
pub mod laws;
pub mod lines;
pub mod lint;
pub mod order;
pub mod patch;
pub mod report;
pub mod scan;
pub mod sdc;
pub mod source;
pub mod text;

pub use design::{scan_design, DesignModel, MemController, MemKind};
pub use fix::{plan_fix, plan_fix_models, CrossingSuggestion, FixPlan, FixedFile};
pub use lint::{analyze, analyze_models, CoreReport, Finding, Lint, Severity, Summary};
pub use patch::{emit_template_patch, TemplatePatch};
pub use sdc::{parse_sdc, DatapathKind, SdcModel};
pub use source::{CoreSource, FsSource, MemSource, SourceFile};
