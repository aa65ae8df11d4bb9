//! The SDC model and its parser (the first half of the seam).
//!
//! [`parse_sdc`] turns a core's `.sdc` files into a typed [`SdcModel`]: the clock
//! groups (with their `-asynchronous`/`-exclusive` kind and the `*_pll` clock
//! tokens each group names), the created clocks, and the datapath timing
//! constraints, each tagged with whether it lives in the "Do not edit" framework
//! file. It is a token scan of constraint text, not an elaborated netlist: it reads
//! presence, not coverage.
use vstd::prelude::*;
use crate::lines::{seqs, statements, statements_exec};
use crate::scan::{
    dedup, group_bodies, pll_tokens, first_name, group_bodies_exec, pll_tokens_exec,
    first_name_exec, contains_seq_exec,
};
use crate::source::{SourceFile, is_sdc_path};
use crate::text::{
    lower, has_sub, trim, chars_of, lower_vec, contains_exec, trim_start_idx, trim_end_idx,
    slice_of, string_of, eq_exec,
};

verus! {

/// The character sequences of a sequence of strings.
pub open spec fn strs(v: Seq<String>) -> Seq<Seq<char>> {
    v.map_values(|s: String| s@)
}

/// How a `set_clock_groups` relates its groups.
#[derive(Debug, Clone, Copy, PartialEq, Eq, Structural)]
pub enum GroupKind {
    /// `-asynchronous`: STA ignores all crossings between the groups (the blanket cut).
    Asynchronous,
    /// `-exclusive`: the groups are never active simultaneously.
    Exclusive,
    /// A `set_clock_groups` with neither flag.
    Other,
}

/// One `-group { ... }` inside a `set_clock_groups`.
#[derive(Debug, Clone, PartialEq, Eq)]
pub struct GroupMember {
    /// The brace contents, trimmed.
    pub raw: String,
    /// Distinct `*_pll` tokens named in this group (Altera primitives excluded).
    pub pll_tokens: Vec<String>,
}

/// A parsed `set_clock_groups` statement.
#[derive(Debug, Clone, PartialEq, Eq)]
pub struct ClockGroup {
    /// Source file (relative path) — used in evidence lines.
    pub file: String,
    /// `-asynchronous` / `-exclusive` / neither.
    pub kind: GroupKind,
    /// The `-group {}` members.
    pub members: Vec<GroupMember>,
}

/// A kind of datapath timing constraint.
#[derive(Debug, Clone, Copy, PartialEq, Eq, PartialOrd, Ord, Structural)]
pub enum DatapathKind {
    /// `set_multicycle_path`
    Multicycle,
    /// `set_false_path`
    FalsePath,
    /// `set_input_delay`
    InputDelay,
    /// `set_output_delay`
    OutputDelay,
}

/// A datapath-timing constraint occurrence.
#[derive(Debug, Clone, PartialEq, Eq)]
pub struct DatapathConstraint {
    /// Which command.
    pub kind: DatapathKind,
    /// Source file.
    pub file: String,
    /// True if the file is the "Do not edit" framework template (baseline, not
    /// author-added).
    pub framework: bool,
}

/// The parsed timing constraints of a core.
#[derive(Debug, Clone, PartialEq, Eq)]
pub struct SdcModel {
    /// Every `set_clock_groups` found.
    pub clock_groups: Vec<ClockGroup>,
    /// `create_clock`/`create_generated_clock` names (the design's declared clocks).
    pub created_clocks: Vec<String>,
    /// Datapath-timing constraints found.
    pub datapath: Vec<DatapathConstraint>,
}

/// What a [`GroupMember`] holds.
pub struct MemberView {
    pub raw: Seq<char>,
    pub pll_tokens: Seq<Seq<char>>,
}

/// What a [`ClockGroup`] holds.
pub struct GroupView {
    pub file: Seq<char>,
    pub kind: GroupKind,
    pub members: Seq<MemberView>,
}

/// What a [`DatapathConstraint`] holds.
pub struct DatapathView {
    pub kind: DatapathKind,
    pub file: Seq<char>,
    pub framework: bool,
}

/// What an [`SdcModel`] holds.
pub struct SdcView {
    pub clock_groups: Seq<GroupView>,
    pub created_clocks: Seq<Seq<char>>,
    pub datapath: Seq<DatapathView>,
}

impl View for GroupMember {
    type V = MemberView;

    open spec fn view(&self) -> MemberView {
        MemberView { raw: self.raw@, pll_tokens: strs(self.pll_tokens@) }
    }
}

impl View for ClockGroup {
    type V = GroupView;

    open spec fn view(&self) -> GroupView {
        GroupView {
            file: self.file@,
            kind: self.kind,
            members: self.members@.map_values(|m: GroupMember| m@),
        }
    }
}

impl View for DatapathConstraint {
    type V = DatapathView;

    open spec fn view(&self) -> DatapathView {
        DatapathView { kind: self.kind, file: self.file@, framework: self.framework }
    }
}

impl View for SdcModel {
    type V = SdcView;

    open spec fn view(&self) -> SdcView {
        SdcView {
            clock_groups: self.clock_groups@.map_values(|g: ClockGroup| g@),
            created_clocks: strs(self.created_clocks@),
            datapath: self.datapath@.map_values(|d: DatapathConstraint| d@),
        }
    }
}

/// The SDC command of each datapath kind.
pub open spec fn command_of(k: DatapathKind) -> Seq<char> {
    match k {
        DatapathKind::Multicycle => "set_multicycle_path"@,
        DatapathKind::FalsePath => "set_false_path"@,
        DatapathKind::InputDelay => "set_input_delay"@,
        DatapathKind::OutputDelay => "set_output_delay"@,
    }
}

/// The datapath kinds in their declared (sort) order.
pub open spec fn all_kinds() -> Seq<DatapathKind> {
    seq![
        DatapathKind::Multicycle,
        DatapathKind::FalsePath,
        DatapathKind::InputDelay,
        DatapathKind::OutputDelay,
    ]
}

impl DatapathKind {
    /// The SDC command that produces this kind.
    pub fn command(self) -> (r: &'static str)
        ensures
            r@ == command_of(self),
    {
        match self {
            DatapathKind::Multicycle => "set_multicycle_path",
            DatapathKind::FalsePath => "set_false_path",
            DatapathKind::InputDelay => "set_input_delay",
            DatapathKind::OutputDelay => "set_output_delay",
        }
    }
}

/// The part of a path after its last `/`.
pub open spec fn base_name(p: Seq<char>) -> Seq<char>
    decreases p.len(),
{
    if p.len() == 0 {
        p
    } else if p.last() == '/' {
        Seq::<char>::empty()
    } else {
        base_name(p.drop_last()).push(p.last())
    }
}

/// The first `n` characters of `s` (all of them if it is shorter).
pub open spec fn head(s: Seq<char>, n: nat) -> Seq<char> {
    if s.len() <= n {
        s
    } else {
        s.take(n as int)
    }
}

/// The "Do not edit" framework template: named `apf_constraints.sdc` (any case),
/// or saying "do not edit" (any case) in its first 400 characters.
pub open spec fn is_framework(path: Seq<char>, text: Seq<char>) -> bool {
    lower(base_name(path)) == "apf_constraints.sdc"@ || has_sub(lower(head(text, 400)), "do not edit"@)
}

/// The kind a lowercased `set_clock_groups` statement declares.
pub open spec fn kind_of(low: Seq<char>) -> GroupKind {
    if has_sub(low, "-asynchronous"@) {
        GroupKind::Asynchronous
    } else if has_sub(low, "-exclusive"@) {
        GroupKind::Exclusive
    } else {
        GroupKind::Other
    }
}

/// The member a `-group` body yields.
pub open spec fn member_of(body: Seq<char>) -> MemberView {
    MemberView { raw: trim(body), pll_tokens: pll_tokens(trim(body)) }
}

/// The clock group a statement declares, if it is a `set_clock_groups`.
pub open spec fn stmt_groups(file: Seq<char>, s: Seq<char>) -> Seq<GroupView> {
    if has_sub(lower(s), "set_clock_groups"@) {
        seq![
            GroupView {
                file,
                kind: kind_of(lower(s)),
                members: group_bodies(s).map_values(|b: Seq<char>| member_of(b)),
            },
        ]
    } else {
        Seq::<GroupView>::empty()
    }
}

/// The clock a `create_clock`/`create_generated_clock` statement names.
pub open spec fn stmt_clocks(s: Seq<char>) -> Seq<Seq<char>> {
    let low = lower(s);
    if (has_sub(low, "create_clock"@) || has_sub(low, "create_generated_clock"@)) && first_name(
        s,
    ) is Some {
        seq![first_name(s)->0]
    } else {
        Seq::<Seq<char>>::empty()
    }
}

/// The datapath constraints a statement carries: one per command it names.
pub open spec fn stmt_datapath(file: Seq<char>, framework: bool, s: Seq<char>) -> Seq<DatapathView> {
    all_kinds().filter(|k: DatapathKind| has_sub(lower(s), command_of(k))).map_values(
        |k: DatapathKind| DatapathView { kind: k, file, framework },
    )
}

/// The statements of a file the parser reads (none for a non-SDC file).
pub open spec fn file_statements(f: SourceFile) -> Seq<Seq<char>> {
    if is_sdc_path(f.path@) {
        statements(f.text@)
    } else {
        Seq::<Seq<char>>::empty()
    }
}

pub open spec fn file_groups(f: SourceFile) -> Seq<GroupView> {
    file_statements(f).flat_map(|s: Seq<char>| stmt_groups(f.path@, s))
}

pub open spec fn file_clocks(f: SourceFile) -> Seq<Seq<char>> {
    file_statements(f).flat_map(|s: Seq<char>| stmt_clocks(s))
}

pub open spec fn file_datapath(f: SourceFile) -> Seq<DatapathView> {
    file_statements(f).flat_map(
        |s: Seq<char>| stmt_datapath(f.path@, is_framework(f.path@, f.text@), s),
    )
}

/// The model [`parse_sdc`] builds from a core's files.
pub open spec fn parse_spec(files: Seq<SourceFile>) -> SdcView {
    SdcView {
        clock_groups: files.flat_map(|f: SourceFile| file_groups(f)),
        created_clocks: dedup(files.flat_map(|f: SourceFile| file_clocks(f))),
        datapath: files.flat_map(|f: SourceFile| file_datapath(f)),
    }
}

} // verus!

verus! {

/// Strings holding the given character sequences.
pub fn strings_of(v: &Vec<Vec<char>>) -> (r: Vec<String>)
    ensures
        strs(r@) == seqs(v@),
{
    let mut r: Vec<String> = Vec::new();
    let mut i: usize = 0;
    while i < v.len()
        invariant
            i <= v@.len(),
            strs(r@) == seqs(v@).take(i as int),
        decreases v.len() - i,
    {
        let s = string_of(&v[i]);
        let ghost before = r@;
        r.push(s);
        i = i + 1;
        assert(strs(r@) == strs(before).push(s@));
        assert(seqs(v@).take(i as int) == seqs(v@).take(i - 1).push(v@[i - 1]@));
    }
    assert(seqs(v@).take(v@.len() as int) == seqs(v@));
    r
}

/// The "Do not edit" framework test.
pub fn is_framework_exec(path: &Vec<char>, text: &Vec<char>) -> (r: bool)
    ensures
        r == is_framework(path@, text@),
{
    let mut k = path.len();
    assert(path@.subrange(0, path@.len() as int) == path@);
    assert(path@.subrange(path@.len() as int, path@.len() as int) =~= Seq::<char>::empty());
    while k > 0 && path[k - 1] != '/'
        invariant
            k <= path@.len(),
            base_name(path@) == base_name(path@.subrange(0, k as int)) + path@.subrange(
                k as int,
                path@.len() as int,
            ),
        decreases k,
    {
        proof {
            let t = path@.subrange(0, k as int);
            assert(t.drop_last() == path@.subrange(0, k - 1));
            assert(path@.subrange(k - 1, path@.len() as int) =~= seq![path@[k - 1]] + path@.subrange(
                k as int,
                path@.len() as int,
            ));
            assert(base_name(t) == base_name(t.drop_last()).push(t.last()));
            assert(base_name(t.drop_last()).push(t.last()) + path@.subrange(k as int, path@.len() as int)
                =~= base_name(t.drop_last()) + path@.subrange(k - 1, path@.len() as int));
        }
        k = k - 1;
    }
    proof {
        let t = path@.subrange(0, k as int);
        assert(base_name(t) =~= Seq::<char>::empty());
        assert(Seq::<char>::empty() + path@.subrange(k as int, path@.len() as int) =~= path@.subrange(
            k as int,
            path@.len() as int,
        ));
    }
    let base = slice_of(path, k, path.len());
    let low_base = lower_vec(&base);
    let apf = chars_of("apf_constraints.sdc");
    if eq_exec(&low_base, &apf) {
        return true;
    }
    let n = if text.len() <= 400 {
        text.len()
    } else {
        400
    };
    let hd = slice_of(text, 0, n);
    assert(hd@ == head(text@, 400)) by {
        if text@.len() <= 400 {
            assert(text@.subrange(0, text@.len() as int) == text@);
        }
    }
    let low_hd = lower_vec(&hd);
    let marker = chars_of("do not edit");
    contains_exec(&low_hd, &marker)
}

/// The member a `-group` body yields.
fn member_exec(body: &Vec<char>) -> (m: GroupMember)
    ensures
        m@ == member_of(body@),
{
    let lo = trim_start_idx(body, 0, body.len());
    let hi = trim_end_idx(body, lo, body.len());
    assert(body@.subrange(0, body@.len() as int) == body@);
    let raw = slice_of(body, lo, hi);
    let toks = pll_tokens_exec(&raw);
    GroupMember { raw: string_of(&raw), pll_tokens: strings_of(&toks) }
}

/// The datapath kinds, in order.
fn kinds_exec() -> (r: Vec<DatapathKind>)
    ensures
        r@ == all_kinds(),
{
    let mut r: Vec<DatapathKind> = Vec::new();
    r.push(DatapathKind::Multicycle);
    r.push(DatapathKind::FalsePath);
    r.push(DatapathKind::InputDelay);
    r.push(DatapathKind::OutputDelay);
    assert(r@ =~= all_kinds());
    r
}

/// Adds what one statement declares to the model.
fn parse_statement(
    path: &String,
    framework: bool,
    stmt: &Vec<char>,
    model: &mut SdcModel,
    Ghost(cands): Ghost<Seq<Seq<char>>>,
)
    requires
        old(model)@.created_clocks == dedup(cands),
    ensures
        final(model)@.clock_groups == old(model)@.clock_groups + stmt_groups(path@, stmt@),
        final(model)@.created_clocks == dedup(cands + stmt_clocks(stmt@)),
        final(model)@.datapath == old(model)@.datapath + stmt_datapath(path@, framework, stmt@),
{
    let low = lower_vec(stmt);
    let scg = chars_of("set_clock_groups");
    let ghost groups0 = model@.clock_groups;
    if contains_exec(&low, &scg) {
        let asy = chars_of("-asynchronous");
        let exc = chars_of("-exclusive");
        let kind = if contains_exec(&low, &asy) {
            GroupKind::Asynchronous
        } else if contains_exec(&low, &exc) {
            GroupKind::Exclusive
        } else {
            GroupKind::Other
        };
        let bodies = group_bodies_exec(stmt);
        let mut members: Vec<GroupMember> = Vec::new();
        let mut j: usize = 0;
        while j < bodies.len()
            invariant
                j <= bodies@.len(),
                members@.map_values(|m: GroupMember| m@) == seqs(bodies@).take(j as int).map_values(
                    |b: Seq<char>| member_of(b),
                ),
            decreases bodies.len() - j,
        {
            let m = member_exec(&bodies[j]);
            let ghost before = members@;
            members.push(m);
            j = j + 1;
            proof {
                let bs = seqs(bodies@);
                assert(bs.take(j as int) == bs.take(j - 1).push(bodies@[j - 1]@));
                assert(members@.map_values(|m: GroupMember| m@) == before.map_values(
                    |m: GroupMember| m@,
                ).push(m@));
                assert(bs.take(j as int).map_values(|b: Seq<char>| member_of(b)) == bs.take(
                    j - 1,
                ).map_values(|b: Seq<char>| member_of(b)).push(member_of(bodies@[j - 1]@)));
            }
        }
        assert(seqs(bodies@).take(bodies@.len() as int) == seqs(bodies@));
        let g = ClockGroup { file: path.clone(), kind, members };
        let ghost gv = g@;
        model.clock_groups.push(g);
        assert(model@.clock_groups == groups0.push(gv));
    } else {
        assert(model@.clock_groups == groups0 + Seq::<GroupView>::empty());
    }
    let cc = chars_of("create_clock");
    let cgc = chars_of("create_generated_clock");
    let ghost clocks0 = model@.created_clocks;
    if contains_exec(&low, &cc) || contains_exec(&low, &cgc) {
        match first_name_exec(stmt) {
            Some(n) => {
                assert(cands + stmt_clocks(stmt@) == cands.push(n@));
                assert(cands.push(n@).drop_last() == cands);
                let mut present = false;
                let mut k: usize = 0;
                while k < model.created_clocks.len()
                    invariant
                        k <= model.created_clocks@.len(),
                        present == strs(model.created_clocks@).take(k as int).contains(n@),
                    decreases model.created_clocks.len() - k,
                {
                    let cv = chars_of(model.created_clocks[k].as_str());
                    let same = eq_exec(&cv, &n);
                    proof {
                        let cs = strs(model.created_clocks@);
                        let t0 = cs.take(k as int);
                        let t1 = cs.take(k + 1);
                        assert(t1 == t0.push(cs[k as int]));
                        assert(cs[k as int] == cv@);
                        crate::scan::lemma_push_contains(t0, cs[k as int], n@);
                    }
                    present = present || same;
                    k = k + 1;
                }
                assert(strs(model.created_clocks@).take(model.created_clocks@.len() as int) == strs(
                    model.created_clocks@,
                ));
                if !present {
                    let s = string_of(&n);
                    let ghost sv = s@;
                    model.created_clocks.push(s);
                    assert(model@.created_clocks == clocks0.push(sv));
                }
            },
            None => {
                assert(cands + stmt_clocks(stmt@) == cands);
            },
        }
    } else {
        assert(cands + stmt_clocks(stmt@) == cands);
    }
    let kinds = kinds_exec();
    let ghost dp0 = model@.datapath;
    let ghost pk = |k: DatapathKind| has_sub(lower(stmt@), command_of(k));
    let ghost mk = |k: DatapathKind| DatapathView { kind: k, file: path@, framework };
    let mut i: usize = 0;
    while i < kinds.len()
        invariant
            i <= kinds@.len(),
            kinds@ == all_kinds(),
            low@ == lower(stmt@),
            pk == (|k: DatapathKind| has_sub(lower(stmt@), command_of(k))),
            mk == (|k: DatapathKind| DatapathView { kind: k, file: path@, framework }),
            model@.datapath == dp0 + all_kinds().take(i as int).filter(pk).map_values(mk),
            model@.clock_groups == groups0 + stmt_groups(path@, stmt@),
            model@.created_clocks == dedup(cands + stmt_clocks(stmt@)),
        decreases kinds.len() - i,
    {
        let k = kinds[i];
        proof {
            assert(all_kinds().take(i + 1) == all_kinds().take(i as int).push(k));
            all_kinds().take(i as int).lemma_filter_push(k, pk);
            all_kinds().take(i as int).filter(pk).lemma_push_map_commute(mk, k);
        }
        let cmd = chars_of(k.command());
        if contains_exec(&low, &cmd) {
            let d = DatapathConstraint { kind: k, file: path.clone(), framework };
            let ghost before = model@.datapath;
            model.datapath.push(d);
            assert(model@.datapath == before.push(mk(k)));
        }
        i = i + 1;
    }
    assert(all_kinds().take(4) == all_kinds());
}

} // verus!

verus! {

/// Parse a core's SDC files into an [`SdcModel`]. Non-SDC files are ignored.
pub fn parse_sdc(files: &[SourceFile]) -> (m: SdcModel)
    ensures
        m@ == parse_spec(files@),
{
    let mut model = SdcModel {
        clock_groups: Vec::new(),
        created_clocks: Vec::new(),
        datapath: Vec::new(),
    };
    let ghost fg = |f: SourceFile| file_groups(f);
    let ghost fc = |f: SourceFile| file_clocks(f);
    let ghost fd = |f: SourceFile| file_datapath(f);
    let ghost mut cands: Seq<Seq<char>> = Seq::empty();
    assert(model@.clock_groups =~= files@.take(0).flat_map(fg));
    assert(cands =~= files@.take(0).flat_map(fc));
    assert(model@.datapath =~= files@.take(0).flat_map(fd));
    assert(model@.created_clocks =~= dedup(cands));
    let mut i: usize = 0;
    while i < files.len()
        invariant
            i <= files@.len(),
            fg == (|f: SourceFile| file_groups(f)),
            fc == (|f: SourceFile| file_clocks(f)),
            fd == (|f: SourceFile| file_datapath(f)),
            model@.clock_groups == files@.take(i as int).flat_map(fg),
            cands == files@.take(i as int).flat_map(fc),
            model@.created_clocks == dedup(cands),
            model@.datapath == files@.take(i as int).flat_map(fd),
        decreases files.len() - i,
    {
        let f = &files[i];
        let ghost g0 = model@.clock_groups;
        let ghost c0 = cands;
        let ghost d0 = model@.datapath;
        if f.is_sdc() {
            let path_chars = chars_of(f.path.as_str());
            let text = chars_of(f.text.as_str());
            let framework = is_framework_exec(&path_chars, &text);
            let stmts = statements_exec(&text);
            let ghost ss = seqs(stmts@);
            let ghost sg = |s: Seq<char>| stmt_groups(f.path@, s);
            let ghost sc = |s: Seq<char>| stmt_clocks(s);
            let ghost sd = |s: Seq<char>| stmt_datapath(f.path@, is_framework(f.path@, f.text@), s);
            assert(g0 + ss.take(0).flat_map(sg) =~= g0);
            assert(c0 + ss.take(0).flat_map(sc) =~= c0);
            assert(d0 + ss.take(0).flat_map(sd) =~= d0);
            let mut j: usize = 0;
            while j < stmts.len()
                invariant
                    j <= stmts@.len(),
                    ss == seqs(stmts@),
                    framework == is_framework(f.path@, f.text@),
                    sg == (|s: Seq<char>| stmt_groups(f.path@, s)),
                    sc == (|s: Seq<char>| stmt_clocks(s)),
                    sd == (|s: Seq<char>| stmt_datapath(f.path@, is_framework(f.path@, f.text@), s)),
                    model@.clock_groups == g0 + ss.take(j as int).flat_map(sg),
                    cands == c0 + ss.take(j as int).flat_map(sc),
                    model@.created_clocks == dedup(cands),
                    model@.datapath == d0 + ss.take(j as int).flat_map(sd),
                decreases stmts.len() - j,
            {
                let ghost s = stmts@[j as int]@;
                parse_statement(&f.path, framework, &stmts[j], &mut model, Ghost(cands));
                proof {
                    assert(ss.take(j + 1) == ss.take(j as int).push(s));
                    ss.take(j as int).lemma_flat_map_push(sg, s);
                    ss.take(j as int).lemma_flat_map_push(sc, s);
                    ss.take(j as int).lemma_flat_map_push(sd, s);
                    assert(g0 + ss.take(j as int).flat_map(sg) + stmt_groups(f.path@, s) =~= g0 + (
                    ss.take(j as int).flat_map(sg) + stmt_groups(f.path@, s)));
                    assert(d0 + ss.take(j as int).flat_map(sd) + stmt_datapath(f.path@, framework, s)
                        =~= d0 + (ss.take(j as int).flat_map(sd) + stmt_datapath(
                        f.path@,
                        framework,
                        s,
                    )));
                    assert(c0 + ss.take(j as int).flat_map(sc) + stmt_clocks(s) =~= c0 + (ss.take(
                        j as int,
                    ).flat_map(sc) + stmt_clocks(s)));
                    cands = cands + stmt_clocks(s);
                }
                j = j + 1;
            }
            assert(ss.take(stmts@.len() as int) == ss);
            assert(file_statements(*f) == ss);
        } else {
            assert(file_statements(*f) =~= Seq::<Seq<char>>::empty());
            assert(file_groups(*f) =~= Seq::<GroupView>::empty());
            assert(file_clocks(*f) =~= Seq::<Seq<char>>::empty());
            assert(file_datapath(*f) =~= Seq::<DatapathView>::empty());
            assert(g0 + file_groups(*f) =~= g0);
            assert(c0 + file_clocks(*f) =~= c0);
            assert(d0 + file_datapath(*f) =~= d0);
        }
        proof {
            assert(files@.take(i + 1) == files@.take(i as int).push(*f));
            files@.take(i as int).lemma_flat_map_push(fg, *f);
            files@.take(i as int).lemma_flat_map_push(fc, *f);
            files@.take(i as int).lemma_flat_map_push(fd, *f);
        }
        i = i + 1;
    }
    assert(files@.take(files@.len() as int) == files@);
    model
}

} // verus!

verus! {

/// Some group of the model is a blanket `-asynchronous` cut.
pub open spec fn has_async(m: SdcView) -> bool {
    exists|i: int| 0 <= i < m.clock_groups.len() && #[trigger] m.clock_groups[i].kind
        == GroupKind::Asynchronous
}

/// `t` is a `*_pll` token named inside some `-asynchronous` group.
pub open spec fn async_token(m: SdcView, t: Seq<char>) -> bool {
    exists|i: int, j: int|
        0 <= i < m.clock_groups.len() && m.clock_groups[i].kind == GroupKind::Asynchronous && 0 <= j
            < m.clock_groups[i].members.len() && (#[trigger] m.clock_groups[i].members[j]).pll_tokens.contains(
            t,
        )
}

/// The file of the first `-asynchronous` group.
pub open spec fn first_async(gs: Seq<GroupView>) -> Option<Seq<char>>
    decreases gs.len(),
{
    if gs.len() == 0 {
        None
    } else if gs[0].kind == GroupKind::Asynchronous {
        Some(gs[0].file)
    } else {
        first_async(gs.drop_first())
    }
}

/// The evidence line of a member: file plus a 70-character excerpt of the group.
pub open spec fn evidence_line(file: Seq<char>, raw: Seq<char>) -> Seq<char> {
    file + ": -group {"@ + head(raw, 70) + "...}"@
}

/// The evidence line of the first member of `ms` naming `t`.
pub open spec fn member_evidence(file: Seq<char>, ms: Seq<MemberView>, t: Seq<char>) -> Option<Seq<char>>
    decreases ms.len(),
{
    if ms.len() == 0 {
        None
    } else if ms[0].pll_tokens.contains(t) {
        Some(evidence_line(file, ms[0].raw))
    } else {
        member_evidence(file, ms.drop_first(), t)
    }
}

/// The evidence line of the first member of any group naming `t`.
pub open spec fn group_evidence(gs: Seq<GroupView>, t: Seq<char>) -> Option<Seq<char>>
    decreases gs.len(),
{
    if gs.len() == 0 {
        None
    } else {
        match member_evidence(gs[0].file, gs[0].members, t) {
            Some(e) => Some(e),
            None => group_evidence(gs.drop_first(), t),
        }
    }
}

/// Datapath kinds added by the author (outside the framework file), in sort
/// order, each once.
pub open spec fn added_kinds(m: SdcView) -> Seq<DatapathKind> {
    all_kinds().filter(
        |k: DatapathKind|
            exists|i: int|
                0 <= i < m.datapath.len() && !(#[trigger] m.datapath[i]).framework && m.datapath[i].kind
                    == k,
    )
}

impl SdcModel {
    /// True if any group is a blanket `-asynchronous` cut.
    pub fn blanket_async(&self) -> (r: bool)
        ensures
            r == has_async(self@),
    {
        let mut i: usize = 0;
        while i < self.clock_groups.len()
            invariant
                i <= self.clock_groups@.len(),
                forall|j: int| 0 <= j < i ==> self@.clock_groups[j].kind != GroupKind::Asynchronous,
            decreases self.clock_groups.len() - i,
        {
            if self.clock_groups[i].kind == GroupKind::Asynchronous {
                assert(self@.clock_groups[i as int].kind == GroupKind::Asynchronous);
                return true;
            }
            i = i + 1;
        }
        false
    }

    /// Distinct `*_pll` tokens named inside `-asynchronous` groups, sorted.
    pub fn async_group_pll_tokens(&self) -> (r: Vec<String>)
        ensures
            strs(r@) == async_tokens(self@),
            crate::order::strictly_sorted(strs(r@)),
            forall|t: Seq<char>| #[trigger] strs(r@).contains(t) <==> async_token(self@, t),
    {
        let ghost mv = self@;
        let mut set: Vec<Vec<char>> = Vec::new();
        let mut i: usize = 0;
        while i < self.clock_groups.len()
            invariant
                i <= self.clock_groups@.len(),
                mv == self@,
                crate::order::strictly_sorted(seqs(set@)),
                forall|t: Seq<char>| #[trigger] seqs(set@).contains(t) <==> token_seen(mv, i as int, t),
            decreases self.clock_groups.len() - i,
        {
            let g = &self.clock_groups[i];
            assert(mv.clock_groups[i as int] == g@);
            if g.kind == GroupKind::Asynchronous {
                let mut j: usize = 0;
                while j < g.members.len()
                    invariant
                        j <= g.members@.len(),
                        mv == self@,
                        i < mv.clock_groups.len(),
                        mv.clock_groups[i as int] == g@,
                        g.kind == GroupKind::Asynchronous,
                        crate::order::strictly_sorted(seqs(set@)),
                        forall|t: Seq<char>| #[trigger] seqs(set@).contains(t) <==> token_seen(mv, i as int, t)
                            || member_seen(mv, i as int, j as int, t),
                    decreases g.members.len() - j,
                {
                    let m = &g.members[j];
                    assert(mv.clock_groups[i as int].members[j as int] == m@);
                    let ghost toks = m@.pll_tokens;
                    let mut k: usize = 0;
                    while k < m.pll_tokens.len()
                        invariant
                            k <= m.pll_tokens@.len(),
                            mv == self@,
                            i < mv.clock_groups.len(),
                            j < mv.clock_groups[i as int].members.len(),
                            toks == mv.clock_groups[i as int].members[j as int].pll_tokens,
                            toks == m@.pll_tokens,
                            crate::order::strictly_sorted(seqs(set@)),
                            forall|t: Seq<char>| #[trigger] seqs(set@).contains(t) <==> token_seen(mv, i as int, t)
                                || member_seen(mv, i as int, j as int, t) || toks.take(k as int).contains(t),
                        decreases m.pll_tokens.len() - k,
                    {
                        let tv = chars_of(m.pll_tokens[k].as_str());
                        proof {
                            assert(toks.take(k + 1) == toks.take(k as int).push(tv@));
                            assert forall|t: Seq<char>| #[trigger] toks.take(k + 1).contains(t) <==> toks.take(k as int).contains(t) || t == tv@ by {
                                crate::scan::lemma_push_contains(toks.take(k as int), tv@, t);
                            }
                        }
                        crate::order::insert_sorted_unique(&mut set, tv);
                        k = k + 1;
                    }
                    proof {
                        assert(toks.take(m.pll_tokens@.len() as int) == toks);
                        assert forall|t: Seq<char>| #[trigger] member_seen(mv, i as int, j + 1, t) <==> member_seen(mv, i as int, j as int, t) || toks.contains(t) by {
                            if toks.contains(t) {
                                assert(tok_in(mv, i as int, j as int, t));
                            }
                            if member_seen(mv, i as int, j + 1, t) {
                                let b = choose|b: int| 0 <= b < j + 1 && #[trigger] tok_in(mv, i as int, b, t);
                            }
                        }
                    }
                    j = j + 1;
                }
                proof {
                    assert forall|t: Seq<char>| #[trigger] token_seen(mv, i + 1, t) <==> token_seen(mv, i as int, t) || member_seen(mv, i as int, g.members@.len() as int, t) by {
                        if token_seen(mv, i + 1, t) {
                            let (a, b) = choose|a: int, b: int| 0 <= a < i + 1 && #[trigger] tok_in(mv, a, b, t);
                            if a == i {
                                assert(member_seen(mv, i as int, g.members@.len() as int, t));
                            } else {
                                assert(token_seen(mv, i as int, t));
                            }
                        }
                        if member_seen(mv, i as int, g.members@.len() as int, t) {
                            let b = choose|b: int| 0 <= b < g.members@.len() && #[trigger] tok_in(mv, i as int, b, t);
                            assert(tok_in(mv, i as int, b, t));
                        }
                        if token_seen(mv, i as int, t) {
                            let (a, b) = choose|a: int, b: int| 0 <= a < i && #[trigger] tok_in(mv, a, b, t);
                            assert(tok_in(mv, a, b, t));
                        }
                    }
                }
            } else {
                proof {
                    assert forall|t: Seq<char>| #[trigger] token_seen(mv, i + 1, t) <==> token_seen(mv, i as int, t) by {
                        if token_seen(mv, i + 1, t) {
                            let (a, b) = choose|a: int, b: int| 0 <= a < i + 1 && #[trigger] tok_in(mv, a, b, t);
                            assert(a != i);
                            assert(tok_in(mv, a, b, t));
                        }
                        if token_seen(mv, i as int, t) {
                            let (a, b) = choose|a: int, b: int| 0 <= a < i && #[trigger] tok_in(mv, a, b, t);
                            assert(tok_in(mv, a, b, t));
                        }
                    }
                }
            }
            i = i + 1;
        }
        proof {
            assert forall|t: Seq<char>| token_seen(mv, mv.clock_groups.len() as int, t) <==> #[trigger] async_token(mv, t) by {
                if token_seen(mv, mv.clock_groups.len() as int, t) {
                    let (a, b) = choose|a: int, b: int| 0 <= a < mv.clock_groups.len() && #[trigger] tok_in(mv, a, b, t);
                    assert(mv.clock_groups[a].members[b].pll_tokens.contains(t));
                }
                if async_token(mv, t) {
                    let (a, b) = choose|a: int, b: int| 0 <= a < mv.clock_groups.len() && mv.clock_groups[a].kind == GroupKind::Asynchronous && 0 <= b < mv.clock_groups[a].members.len() && (#[trigger] mv.clock_groups[a].members[b]).pll_tokens.contains(t);
                    assert(tok_in(mv, a, b, t));
                }
            }
        }
        let r = strings_of(&set);
        proof {
            crate::order::lemma_is_sorted_set(strs(r@), |t: Seq<char>| async_token(mv, t));
        }
        r
    }
}

/// The `*_pll` tokens named inside `-asynchronous` groups, sorted, each once.
pub open spec fn async_tokens(m: SdcView) -> Seq<Seq<char>> {
    crate::order::sorted_set(|t: Seq<char>| async_token(m, t))
}

/// The `*_pll` tokens of a member list, in order, repeats kept.
pub open spec fn member_tokens(ms: Seq<MemberView>) -> Seq<Seq<char>>
    decreases ms.len(),
{
    if ms.len() == 0 {
        Seq::<Seq<char>>::empty()
    } else {
        member_tokens(ms.drop_last()) + ms.last().pll_tokens
    }
}

/// The `*_pll` tokens of the `-asynchronous` groups of a group list, in order,
/// repeats kept.
pub open spec fn group_tokens(gs: Seq<GroupView>) -> Seq<Seq<char>>
    decreases gs.len(),
{
    if gs.len() == 0 {
        Seq::<Seq<char>>::empty()
    } else {
        group_tokens(gs.drop_last()) + (if gs.last().kind == GroupKind::Asynchronous {
            member_tokens(gs.last().members)
        } else {
            Seq::<Seq<char>>::empty()
        })
    }
}

proof fn lemma_member_tokens(ms: Seq<MemberView>, t: Seq<char>)
    ensures
        member_tokens(ms).contains(t) <==> exists|b: int| 0 <= b < ms.len() && (#[trigger] ms[b]).pll_tokens.contains(t),
    decreases ms.len(),
{
    if ms.len() > 0 {
        let init = ms.drop_last();
        lemma_member_tokens(init, t);
        crate::scan::lemma_add_contains(member_tokens(init), ms.last().pll_tokens, t);
        if exists|b: int| 0 <= b < ms.len() && (#[trigger] ms[b]).pll_tokens.contains(t) {
            let b = choose|b: int| 0 <= b < ms.len() && (#[trigger] ms[b]).pll_tokens.contains(t);
            if b < ms.len() - 1 {
                assert(init[b] == ms[b]);
            }
        }
        if exists|b: int| 0 <= b < init.len() && (#[trigger] init[b]).pll_tokens.contains(t) {
            let b = choose|b: int| 0 <= b < init.len() && (#[trigger] init[b]).pll_tokens.contains(t);
            assert(ms[b] == init[b]);
        }
        if ms.last().pll_tokens.contains(t) {
            assert(ms[ms.len() - 1].pll_tokens.contains(t));
        }
    }
}

proof fn lemma_group_tokens(gs: Seq<GroupView>, t: Seq<char>)
    ensures
        group_tokens(gs).contains(t) <==> exists|a: int, b: int|
            0 <= a < gs.len() && gs[a].kind == GroupKind::Asynchronous && 0 <= b < gs[a].members.len()
                && (#[trigger] gs[a].members[b]).pll_tokens.contains(t),
    decreases gs.len(),
{
    if gs.len() > 0 {
        let init = gs.drop_last();
        let g = gs.last();
        lemma_group_tokens(init, t);
        lemma_member_tokens(g.members, t);
        let tail = if g.kind == GroupKind::Asynchronous {
            member_tokens(g.members)
        } else {
            Seq::<Seq<char>>::empty()
        };
        crate::scan::lemma_add_contains(group_tokens(init), tail, t);
        if exists|a: int, b: int|
            0 <= a < gs.len() && gs[a].kind == GroupKind::Asynchronous && 0 <= b < gs[a].members.len()
                && (#[trigger] gs[a].members[b]).pll_tokens.contains(t) {
            let (a, b) = choose|a: int, b: int|
                0 <= a < gs.len() && gs[a].kind == GroupKind::Asynchronous && 0 <= b < gs[a].members.len()
                    && (#[trigger] gs[a].members[b]).pll_tokens.contains(t);
            if a < gs.len() - 1 {
                assert(init[a] == gs[a]);
                assert(init[a].members[b] == gs[a].members[b]);
            } else {
                assert(g.members[b] == gs[a].members[b]);
            }
        }
        if exists|a: int, b: int|
            0 <= a < init.len() && init[a].kind == GroupKind::Asynchronous && 0 <= b < init[a].members.len()
                && (#[trigger] init[a].members[b]).pll_tokens.contains(t) {
            let (a, b) = choose|a: int, b: int|
                0 <= a < init.len() && init[a].kind == GroupKind::Asynchronous && 0 <= b < init[a].members.len()
                    && (#[trigger] init[a].members[b]).pll_tokens.contains(t);
            assert(gs[a] == init[a]);
            assert(gs[a].members[b] == init[a].members[b]);
        }
        if tail.contains(t) {
            let b = choose|b: int| 0 <= b < g.members.len() && (#[trigger] g.members[b]).pll_tokens.contains(t);
            assert(gs[gs.len() - 1] == g);
            assert(gs[gs.len() - 1].members[b] == g.members[b]);
        }
    }
}

/// The async tokens are strictly sorted (so each occurs once) and are exactly the
/// `*_pll` tokens named inside `-asynchronous` groups.
pub proof fn lemma_async_tokens(m: SdcView)
    ensures
        crate::order::strictly_sorted(async_tokens(m)),
        forall|t: Seq<char>| #[trigger] async_tokens(m).contains(t) <==> async_token(m, t),
{
    let l = group_tokens(m.clock_groups);
    assert forall|t: Seq<char>| #[trigger] l.contains(t) <==> async_token(m, t) by {
        lemma_group_tokens(m.clock_groups, t);
    }
    crate::order::lemma_sorted_set_of(l, |t: Seq<char>| async_token(m, t));
}

/// Group `a` is `-asynchronous` and its member `b` names `t`.
pub open spec fn tok_in(m: SdcView, a: int, b: int, t: Seq<char>) -> bool {
    &&& 0 <= a < m.clock_groups.len()
    &&& m.clock_groups[a].kind == GroupKind::Asynchronous
    &&& 0 <= b < m.clock_groups[a].members.len()
    &&& m.clock_groups[a].members[b].pll_tokens.contains(t)
}

/// Some `-asynchronous` group before index `i` names `t`.
pub open spec fn token_seen(m: SdcView, i: int, t: Seq<char>) -> bool {
    exists|a: int, b: int| 0 <= a < i && #[trigger] tok_in(m, a, b, t)
}

/// Some member before index `j` of the `-asynchronous` group `i` names `t`.
pub open spec fn member_seen(m: SdcView, i: int, j: int, t: Seq<char>) -> bool {
    exists|b: int| 0 <= b < j && #[trigger] tok_in(m, i, b, t)
}

} // verus!

verus! {

/// Does the string vector hold a string equal to `t`?
pub fn contains_string(v: &Vec<String>, t: &Vec<char>) -> (r: bool)
    ensures
        r == strs(v@).contains(t@),
{
    let mut i: usize = 0;
    while i < v.len()
        invariant
            i <= v@.len(),
            forall|j: int| 0 <= j < i ==> v@[j]@ != t@,
        decreases v.len() - i,
    {
        let c = chars_of(v[i].as_str());
        if eq_exec(&c, t) {
            assert(strs(v@)[i as int] == t@);
            return true;
        }
        i = i + 1;
    }
    assert forall|j: int| 0 <= j < strs(v@).len() implies strs(v@)[j] != t@ by {
        assert(strs(v@)[j] == v@[j]@);
    }
    false
}

impl SdcModel {
    /// The source file of the first `-asynchronous` group, for Lint B evidence.
    pub fn first_async_file(&self) -> (r: Option<String>)
        ensures
            match r {
                Some(f) => first_async(self@.clock_groups) == Some(f@),
                None => first_async(self@.clock_groups) is None,
            },
    {
        let ghost gs = self@.clock_groups;
        let mut i: usize = 0;
        assert(gs.skip(0) == gs);
        while i < self.clock_groups.len()
            invariant
                i <= self.clock_groups@.len(),
                gs == self@.clock_groups,
                first_async(gs) == first_async(gs.skip(i as int)),
            decreases self.clock_groups.len() - i,
        {
            assert(gs.skip(i as int)[0] == self.clock_groups@[i as int]@);
            if self.clock_groups[i].kind == GroupKind::Asynchronous {
                return Some(self.clock_groups[i].file.clone());
            }
            assert(gs.skip(i as int).drop_first() == gs.skip(i + 1));
            i = i + 1;
        }
        None
    }

    /// The first evidence line (file + group excerpt) naming `token`, if any.
    pub fn evidence_for(&self, token: &str) -> (r: Option<String>)
        ensures
            match r {
                Some(e) => group_evidence(self@.clock_groups, token@) == Some(e@),
                None => group_evidence(self@.clock_groups, token@) is None,
            },
    {
        let tv = chars_of(token);
        let ghost gs = self@.clock_groups;
        let mut i: usize = 0;
        assert(gs.skip(0) == gs);
        while i < self.clock_groups.len()
            invariant
                i <= self.clock_groups@.len(),
                gs == self@.clock_groups,
                tv@ == token@,
                group_evidence(gs, token@) == group_evidence(gs.skip(i as int), token@),
            decreases self.clock_groups.len() - i,
        {
            let g = &self.clock_groups[i];
            let ghost ms = g@.members;
            assert(gs.skip(i as int)[0] == g@);
            assert(gs.skip(i as int).drop_first() == gs.skip(i + 1));
            let mut j: usize = 0;
            assert(ms.skip(0) == ms);
            while j < g.members.len()
                invariant
                    j <= g.members@.len(),
                    ms == g@.members,
                    tv@ == token@,
                    i < gs.len(),
                    gs == self@.clock_groups,
                    gs.skip(i as int)[0] == g@,
                    group_evidence(gs, token@) == group_evidence(gs.skip(i as int), token@),
                    member_evidence(g@.file, ms, token@) == member_evidence(g@.file, ms.skip(j as int), token@),
                decreases g.members.len() - j,
            {
                let m = &g.members[j];
                assert(ms.skip(j as int)[0] == m@);
                assert(ms.skip(j as int).drop_first() == ms.skip(j + 1));
                if contains_string(&m.pll_tokens, &tv) {
                    let raw = chars_of(m.raw.as_str());
                    let n = if raw.len() <= 70 {
                        raw.len()
                    } else {
                        70
                    };
                    let mut e = g.file.clone();
                    e.append(": -group {");
                    crate::text::push_range(&mut e, &raw, 0, n);
                    e.append("...}");
                    proof {
                        if raw@.len() <= 70 {
                            assert(raw@.subrange(0, raw@.len() as int) == raw@);
                        }
                        assert(raw@.subrange(0, n as int) == head(m@.raw, 70));
                        assert(e@ == evidence_line(g@.file, m@.raw));
                        assert(member_evidence(g@.file, ms.skip(j as int), token@) == Some(e@));
                        assert(group_evidence(gs.skip(i as int), token@) == Some(e@));
                    }
                    return Some(e);
                }
                j = j + 1;
            }
            assert(ms.skip(ms.len() as int) =~= Seq::<MemberView>::empty());
            assert(gs.skip(i as int).drop_first() == gs.skip(i + 1));
            i = i + 1;
        }
        None
    }

    /// Datapath kinds added by the author (i.e. not in the framework file), sorted
    /// and de-duplicated. Empty means "no added timing" (Lint B's necessary condition).
    pub fn added_timing(&self) -> (r: Vec<DatapathKind>)
        ensures
            r@ == added_kinds(self@),
    {
        let kinds = kinds_exec();
        let ghost mv = self@;
        let ghost p = |k: DatapathKind|
            exists|i: int|
                0 <= i < mv.datapath.len() && !(#[trigger] mv.datapath[i]).framework && mv.datapath[i].kind
                    == k;
        let mut out: Vec<DatapathKind> = Vec::new();
        let mut i: usize = 0;
        while i < kinds.len()
            invariant
                i <= kinds@.len(),
                kinds@ == all_kinds(),
                mv == self@,
                p == (|k: DatapathKind|
                    exists|i: int|
                        0 <= i < mv.datapath.len() && !(#[trigger] mv.datapath[i]).framework
                            && mv.datapath[i].kind == k),
                out@ == all_kinds().take(i as int).filter(p),
            decreases kinds.len() - i,
        {
            let k = kinds[i];
            proof {
                assert(all_kinds().take(i + 1) == all_kinds().take(i as int).push(k));
                all_kinds().take(i as int).lemma_filter_push(k, p);
            }
            let mut found = false;
            let mut j: usize = 0;
            while j < self.datapath.len()
                invariant
                    j <= self.datapath@.len(),
                    mv == self@,
                    found == exists|x: int| 0 <= x < j && !(#[trigger] mv.datapath[x]).framework && mv.datapath[x].kind == k,
                decreases self.datapath.len() - j,
            {
                let d = &self.datapath[j];
                assert(mv.datapath[j as int] == d@);
                if !d.framework && d.kind == k {
                    found = true;
                }
                j = j + 1;
            }
            if found {
                out.push(k);
            }
            i = i + 1;
        }
        assert(all_kinds().take(4) == all_kinds());
        out
    }
}

} // verus!
