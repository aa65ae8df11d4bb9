# cdc-sentinel

Topology-aware clock-domain-crossing lints for FPGA cores, written in Verus.

Analogue-Pocket cores inherit a blanket `set_clock_groups -asynchronous` from their
build template: one line that tells static timing analysis to ignore every clock
crossing in the design. cdc-sentinel reads a core's `.sdc` files plus a light
structural scan of its RTL and flags two failure modes:

- **Lint A** — a dead / phantom clock-group member: a `*_pll` clock named in an
  `-asynchronous` group that resolves to no shipped PLL module and no `create_clock`.
- **Lint B** — an unconstrained real crossing: a core that ships an SDRAM/PSRAM
  controller, sits under a blanket `-asynchronous` cut, and adds no datapath timing.
  A BRAM-only core, or one with only a DDR vestige, is never flagged.

The fixer removes pure-phantom `-group {}` clauses: lines outside `set_clock_groups`
statements are kept byte for byte, a statement keeps every other character, and only
its line continuations are mended (a line left blank is dropped). For Lint B it only
appends a fully commented UNVERIFIED suggestion with `<CORE_CLK>` / `<MEM_CLK>` /
`<N>` placeholders — never a value.

## Layout

- `src/` — the verified library. Every executable function carries a contract over
  mathematical models (`Seq`, views of each type) and Verus proves its body, except
  the two trusted wrappers in `text.rs`: `push_char` around `String::push`, and
  `word_char` around `regex_syntax::is_word_character`, whose result the contracts call
  `unicode_word` (the Unicode word class of `\w` and `\b`). Word runs and word
  boundaries follow that class; the name classes `[a-z0-9]` / `[a-z0-9_]`, matched
  case-insensitively, are ASCII letters, digits (and `_`) plus `ſ` and the Kelvin
  sign, as Unicode case folding makes them.
  - `text.rs`, `lines.rs`, `order.rs`, `scan.rs` — characters, lines, statements,
    the lexical scans (word runs, `*_pll` tokens, `-group {}` clauses, `module`
    declarations) and lexicographic sorting;
  - `source.rs` — source files, the in-memory source and the path-ordered filesystem
    source;
  - `sdc.rs`, `design.rs` — the SDC model and its parser, the design model and the
    RTL scan;
  - `lint.rs`, `report.rs`, `fix.rs`, `patch.rs` — the two lints, the text report,
    the fixer and the upstream template patch;
  - `laws.rs` — properties across functions (what fires when, what the fixer keeps,
    what the scans ignore), stated and proved as proof functions.
- `app/` — the command-line program: argument handling, the directory walk, JSON
  output, writing fixed files, and the exit status.
- `tests/` — tests on concrete inputs.
