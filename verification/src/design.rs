//! The design model and its RTL structural scan (the second half of the seam).
//!
//! [`scan_design`] reads a core's RTL and derives the clock-name universe (which
//! PLL modules the core ships or declares) and the memory topology (whether it
//! ships an external-memory controller). Both are filename/text scans, not an
//! elaborated netlist: a PLL built by an unseen `.qip`/`.ip` is missed, and a
//! declared-but-unused `*_pll` module is still counted.
use vstd::prelude::*;
use crate::lines::seqs;
use crate::order::{strictly_sorted, insert_sorted_unique};
use crate::scan::{module_names, is_primitive, module_names_exec, is_primitive_exec, lemma_push_contains};
use crate::sdc::{strs, strings_of};
use crate::source::{SourceFile, is_rtl_path, ext_of};
use crate::text::{lower, has_sub, chars_of, lower_vec, contains_exec};

verus! {

/// A class of external-memory controller shipped by the core.
#[derive(Debug, Clone, Copy, PartialEq, Eq, Structural)]
pub enum MemKind {
    /// Multi-port SDRAM controller (`sdram_4w*`) — the arcade pattern.
    SdramMultiport,
    /// A plain SDRAM controller.
    Sdram,
    /// Pseudo-static RAM / cellular RAM (`psram`/`cellram`/`cram`).
    Psram,
    /// A DDR controller file. On the Pocket these are usually an unused vestige,
    /// so DDR alone does not gate Lint B — recorded, not trusted.
    Ddr,
}

/// SDRAM and PSRAM controllers imply a real core-to-memory clock crossing; a DDR
/// vestige does not.
pub open spec fn is_crossing_kind(k: MemKind) -> bool {
    k == MemKind::SdramMultiport || k == MemKind::Sdram || k == MemKind::Psram
}

impl MemKind {
    /// Does this controller imply a real core-to-memory clock crossing that Lint B
    /// should require timing for? SDRAM/PSRAM yes; a DDR vestige no.
    pub fn is_crossing(self) -> (r: bool)
        ensures
            r == is_crossing_kind(self),
    {
        match self {
            MemKind::SdramMultiport | MemKind::Sdram | MemKind::Psram => true,
            MemKind::Ddr => false,
        }
    }
}

/// A detected external-memory controller and the file that evidences it.
#[derive(Debug, Clone, PartialEq, Eq)]
pub struct MemController {
    /// The controller class.
    pub kind: MemKind,
    /// The RTL file (relative path) it was found in.
    pub evidence: String,
}

/// The structural facts the RTL scan derives.
#[derive(Debug, Clone, PartialEq, Eq)]
pub struct DesignModel {
    /// Distinct PLL-module tokens the core ships or declares (sorted).
    pub pll_modules: Vec<String>,
    /// External-memory controllers detected (first evidence per kind).
    pub memory: Vec<MemController>,
    /// How many RTL files the scan read (a coverage indicator for the limits note).
    pub rtl_files_scanned: usize,
}

/// What a [`MemController`] holds.
pub struct MemView {
    pub kind: MemKind,
    pub evidence: Seq<char>,
}

/// What a [`DesignModel`] holds.
pub struct DesignView {
    pub pll_modules: Seq<Seq<char>>,
    pub memory: Seq<MemView>,
    pub rtl_files_scanned: nat,
}

impl View for MemController {
    type V = MemView;

    open spec fn view(&self) -> MemView {
        MemView { kind: self.kind, evidence: self.evidence@ }
    }
}

impl View for DesignModel {
    type V = DesignView;

    open spec fn view(&self) -> DesignView {
        DesignView {
            pll_modules: strs(self.pll_modules@),
            memory: self.memory@.map_values(|m: MemController| m@),
            rtl_files_scanned: self.rtl_files_scanned as nat,
        }
    }
}

/// The memory views of a controller vector.
pub open spec fn mem_views(v: Seq<MemController>) -> Seq<MemView> {
    v.map_values(|m: MemController| m@)
}

/// Some controller of the model implies a real crossing.
pub open spec fn has_crossing(d: DesignView) -> bool {
    exists|i: int| 0 <= i < d.memory.len() && is_crossing_kind(#[trigger] d.memory[i].kind)
}

/// The first controller that implies a real crossing.
pub open spec fn first_crossing(ms: Seq<MemView>) -> Option<MemView>
    decreases ms.len(),
{
    if ms.len() == 0 {
        None
    } else if is_crossing_kind(ms[0].kind) {
        Some(ms[0])
    } else {
        first_crossing(ms.drop_first())
    }
}

/// The clock-name universe: the shipped PLL tokens followed by each lowercased
/// created clock not already present.
pub open spec fn universe_of(plls: Seq<Seq<char>>, created: Seq<Seq<char>>) -> Seq<Seq<char>>
    decreases created.len(),
{
    if created.len() == 0 {
        plls
    } else {
        let u = universe_of(plls, created.drop_last());
        let c = lower(created.last());
        if u.contains(c) {
            u
        } else {
            u.push(c)
        }
    }
}

impl DesignModel {
    /// True if the core ships a controller implying a real memory clock crossing
    /// (SDRAM/PSRAM — not a bare DDR vestige). This is Lint B's topology gate.
    pub fn has_external_crossing(&self) -> (r: bool)
        ensures
            r == has_crossing(self@),
    {
        let mut i: usize = 0;
        while i < self.memory.len()
            invariant
                i <= self.memory@.len(),
                forall|j: int| 0 <= j < i ==> !is_crossing_kind(#[trigger] self@.memory[j].kind),
            decreases self.memory.len() - i,
        {
            assert(self@.memory[i as int].kind == self.memory@[i as int].kind);
            if self.memory[i].kind.is_crossing() {
                return true;
            }
            i = i + 1;
        }
        false
    }

    /// The crossing that gates Lint B, for the finding's evidence, if any.
    pub fn crossing_evidence(&self) -> (r: Option<&MemController>)
        ensures
            match r {
                Some(m) => first_crossing(self@.memory) == Some(m@),
                None => first_crossing(self@.memory) is None,
            },
    {
        let ghost ms = self@.memory;
        let mut i: usize = 0;
        assert(ms.skip(0) == ms);
        while i < self.memory.len()
            invariant
                i <= self.memory@.len(),
                ms == self@.memory,
                first_crossing(ms) == first_crossing(ms.skip(i as int)),
            decreases self.memory.len() - i,
        {
            assert(ms.skip(i as int)[0] == self.memory@[i as int]@);
            if self.memory[i].kind.is_crossing() {
                return Some(&self.memory[i]);
            }
            assert(ms.skip(i as int).drop_first() == ms.skip(i + 1));
            i = i + 1;
        }
        None
    }

    /// The full clock-name universe a group member must resolve into: the shipped
    /// PLL tokens plus any `create_clock` names from the SDC. Lowercased.
    pub fn clock_universe(&self, created_clocks: &[String]) -> (r: Vec<String>)
        ensures
            strs(r@) == universe_of(self@.pll_modules, strs(created_clocks@)),
    {
        let mut u: Vec<String> = Vec::new();
        let mut i: usize = 0;
        while i < self.pll_modules.len()
            invariant
                i <= self.pll_modules@.len(),
                strs(u@) == strs(self.pll_modules@).take(i as int),
            decreases self.pll_modules.len() - i,
        {
            let ghost before = u@;
            let s = self.pll_modules[i].clone();
            u.push(s);
            i = i + 1;
            assert(strs(u@) == strs(before).push(s@));
            assert(strs(self.pll_modules@).take(i as int) == strs(self.pll_modules@).take(i - 1).push(self.pll_modules@[i - 1]@));
        }
        assert(strs(self.pll_modules@).take(self.pll_modules@.len() as int) == strs(self.pll_modules@));
        let ghost cs = strs(created_clocks@);
        let mut j: usize = 0;
        while j < created_clocks.len()
            invariant
                j <= created_clocks@.len(),
                cs == strs(created_clocks@),
                strs(u@) == universe_of(self@.pll_modules, cs.take(j as int)),
            decreases created_clocks.len() - j,
        {
            let c = chars_of(created_clocks[j].as_str());
            let lc = lower_vec(&c);
            proof {
                assert(cs.take(j + 1).drop_last() == cs.take(j as int));
                assert(cs.take(j + 1).last() == c@);
            }
            if !crate::sdc::contains_string(&u, &lc) {
                let s = crate::text::string_of(&lc);
                let ghost before = u@;
                u.push(s);
                assert(strs(u@) == strs(before).push(s@));
            }
            j = j + 1;
        }
        assert(cs.take(created_clocks@.len() as int) == cs);
        u
    }
}

} // verus!

verus! {

/// The PLL module names a core may ship, matched as path substrings.
pub open spec fn pll_module_names() -> Seq<Seq<char>> {
    seq!["core_pll"@, "sdram_pll"@, "video_pll"@, "mf_audio_pll"@, "audio_pll"@, "mf_pllbase"@]
}

/// The PLL module names a file path contains; none under an `upstream` vestige or
/// for a `reconfig` helper.
pub open spec fn path_pll_tokens(p: Seq<char>) -> Seq<Seq<char>> {
    let lp = lower(p);
    if has_sub(lp, "upstream"@) || has_sub(lp, "reconfig"@) {
        Seq::<Seq<char>>::empty()
    } else {
        pll_module_names().filter(|t: Seq<char>| has_sub(lp, t))
    }
}

/// The PLL tokens an RTL file contributes: from its path and from its
/// `module <name>_pll` declarations, lowercased, primitives excluded.
pub open spec fn file_pll_candidates(f: SourceFile) -> Seq<Seq<char>> {
    if is_rtl_path(f.path@) {
        (path_pll_tokens(f.path@) + module_names(f.text@)).map_values(|t: Seq<char>| lower(t)).filter(
            |t: Seq<char>| !is_primitive(t),
        )
    } else {
        Seq::<Seq<char>>::empty()
    }
}

/// Some file contributes the PLL token `t`.
pub open spec fn pll_candidate(files: Seq<SourceFile>, t: Seq<char>) -> bool {
    exists|i: int| 0 <= i < files.len() && #[trigger] file_pll_candidates(files[i]).contains(t)
}

/// The controller kinds a file's path evidences (Verilog/SystemVerilog files only).
pub open spec fn file_mem_kinds(f: SourceFile) -> Seq<MemKind> {
    let e = ext_of(f.path@);
    let lp = lower(f.path@);
    if is_rtl_path(f.path@) && (e == "v"@ || e == "sv"@) {
        (if has_sub(lp, "sdram_4w"@) {
            seq![MemKind::SdramMultiport]
        } else if has_sub(lp, "sdram"@) {
            seq![MemKind::Sdram]
        } else {
            Seq::<MemKind>::empty()
        }) + (if has_sub(lp, "psram"@) || has_sub(lp, "cellram"@) || has_sub(lp, "cram"@) {
            seq![MemKind::Psram]
        } else {
            Seq::<MemKind>::empty()
        }) + (if has_sub(lp, "ddram"@) || has_sub(lp, "ddr3"@) {
            seq![MemKind::Ddr]
        } else {
            Seq::<MemKind>::empty()
        })
    } else {
        Seq::<MemKind>::empty()
    }
}

/// The controllers a file evidences, with the file as evidence.
pub open spec fn file_mem(f: SourceFile) -> Seq<MemView> {
    file_mem_kinds(f).map_values(|k: MemKind| MemView { kind: k, evidence: f.path@ })
}

/// Keeps the first controller of each kind.
pub open spec fn first_per_kind(s: Seq<MemView>) -> Seq<MemView>
    decreases s.len(),
{
    if s.len() == 0 {
        s
    } else {
        let m = first_per_kind(s.drop_last());
        if exists|i: int| 0 <= i < m.len() && (#[trigger] m[i]).kind == s.last().kind {
            m
        } else {
            m.push(s.last())
        }
    }
}

/// The model [`scan_design`] derives: its memory list and RTL count.
pub open spec fn scan_memory(files: Seq<SourceFile>) -> Seq<MemView> {
    first_per_kind(files.flat_map(|f: SourceFile| file_mem(f)))
}

pub open spec fn rtl_count(files: Seq<SourceFile>) -> nat {
    files.filter(|f: SourceFile| is_rtl_path(f.path@)).len()
}

/// The PLL tokens a file contributes.
fn file_pll_candidates_exec(f: &SourceFile, p: &Vec<char>, lp: &Vec<char>) -> (r: Vec<Vec<char>>)
    requires
        p@ == f.path@,
        lp@ == lower(f.path@),
        is_rtl_path(f.path@),
    ensures
        seqs(r@) == file_pll_candidates(*f),
{
    let mut raw: Vec<Vec<char>> = Vec::new();
    let up = chars_of("upstream");
    let rc = chars_of("reconfig");
    let ghost names = pll_module_names();
    let ghost pc = |t: Seq<char>| has_sub(lp@, t);
    if !(contains_exec(lp, &up) || contains_exec(lp, &rc)) {
        let mut mods: Vec<Vec<char>> = Vec::new();
        mods.push(chars_of("core_pll"));
        mods.push(chars_of("sdram_pll"));
        mods.push(chars_of("video_pll"));
        mods.push(chars_of("mf_audio_pll"));
        mods.push(chars_of("audio_pll"));
        mods.push(chars_of("mf_pllbase"));
        assert(seqs(mods@) =~= names);
        let mut i: usize = 0;
        while i < mods.len()
            invariant
                i <= mods@.len(),
                seqs(mods@) == names,
                names == pll_module_names(),
                pc == (|t: Seq<char>| has_sub(lp@, t)),
                seqs(raw@) == names.take(i as int).filter(pc),
            decreases mods.len() - i,
        {
            proof {
                assert(names.take(i + 1) == names.take(i as int).push(mods@[i as int]@));
                names.take(i as int).lemma_filter_push(mods@[i as int]@, pc);
            }
            if contains_exec(lp, &mods[i]) {
                let t = crate::text::slice_of(&mods[i], 0, mods[i].len());
                assert(mods@[i as int]@.subrange(0, mods@[i as int]@.len() as int) == mods@[i as int]@);
                let ghost before = raw@;
                raw.push(t);
                assert(seqs(raw@) == seqs(before).push(t@));
            }
            i = i + 1;
        }
        assert(names.take(6) == names);
    }
    assert(seqs(raw@) == path_pll_tokens(f.path@));
    let text = chars_of(f.text.as_str());
    let decls = module_names_exec(&text);
    let ghost all = seqs(raw@) + seqs(decls@);
    let mut j: usize = 0;
    while j < decls.len()
        invariant
            j <= decls@.len(),
            seqs(raw@) == path_pll_tokens(f.path@) + seqs(decls@).take(j as int),
        decreases decls.len() - j,
    {
        let t = crate::text::slice_of(&decls[j], 0, decls[j].len());
        assert(decls@[j as int]@.subrange(0, decls@[j as int]@.len() as int) == decls@[j as int]@);
        let ghost before = raw@;
        raw.push(t);
        proof {
            assert(seqs(raw@) == seqs(before).push(t@));
            assert(seqs(decls@).take(j + 1) == seqs(decls@).take(j as int).push(t@));
        }
        j = j + 1;
    }
    assert(seqs(decls@).take(decls@.len() as int) == seqs(decls@));
    let ghost rs = seqs(raw@);
    let ghost f1 = |t: Seq<char>| lower(t);
    let ghost p2 = |t: Seq<char>| !is_primitive(t);
    let mut out: Vec<Vec<char>> = Vec::new();
    let mut k: usize = 0;
    while k < raw.len()
        invariant
            k <= raw@.len(),
            rs == seqs(raw@),
            f1 == (|t: Seq<char>| lower(t)),
            p2 == (|t: Seq<char>| !is_primitive(t)),
            seqs(out@) == rs.take(k as int).map_values(f1).filter(p2),
        decreases raw.len() - k,
    {
        let lt = lower_vec(&raw[k]);
        proof {
            assert(rs.take(k + 1) == rs.take(k as int).push(raw@[k as int]@));
            rs.take(k as int).lemma_push_map_commute(f1, raw@[k as int]@);
            rs.take(k as int).map_values(f1).lemma_filter_push(lt@, p2);
        }
        if !is_primitive_exec(&lt) {
            let ghost before = out@;
            out.push(lt);
            assert(seqs(out@) == seqs(before).push(lt@));
        }
        k = k + 1;
    }
    assert(rs.take(raw@.len() as int) == rs);
    out
}

/// The controller kinds a file's path evidences.
fn file_mem_kinds_exec(f: &SourceFile, lp: &Vec<char>) -> (r: Vec<MemKind>)
    requires
        lp@ == lower(f.path@),
        is_rtl_path(f.path@),
    ensures
        r@ == file_mem_kinds(*f),
{
    let mut r: Vec<MemKind> = Vec::new();
    let e = f.ext();
    let ec = chars_of(e.as_str());
    let v = chars_of("v");
    let sv = chars_of("sv");
    if !(crate::text::eq_exec(&ec, &v) || crate::text::eq_exec(&ec, &sv)) {
        return r;
    }
    let ghost a: Seq<MemKind>;
    let ghost b: Seq<MemKind>;
    let ghost c: Seq<MemKind>;
    if contains_exec(lp, &chars_of("sdram_4w")) {
        r.push(MemKind::SdramMultiport);
        proof { a = seq![MemKind::SdramMultiport]; }
    } else if contains_exec(lp, &chars_of("sdram")) {
        r.push(MemKind::Sdram);
        proof { a = seq![MemKind::Sdram]; }
    } else {
        proof { a = Seq::<MemKind>::empty(); }
    }
    assert(r@ =~= a);
    if contains_exec(lp, &chars_of("psram")) || contains_exec(lp, &chars_of("cellram"))
        || contains_exec(lp, &chars_of("cram")) {
        r.push(MemKind::Psram);
        proof { b = seq![MemKind::Psram]; }
    } else {
        proof { b = Seq::<MemKind>::empty(); }
    }
    assert(r@ =~= a + b);
    if contains_exec(lp, &chars_of("ddram")) || contains_exec(lp, &chars_of("ddr3")) {
        r.push(MemKind::Ddr);
        proof { c = seq![MemKind::Ddr]; }
    } else {
        proof { c = Seq::<MemKind>::empty(); }
    }
    assert(r@ =~= a + b + c);
    r
}

} // verus!

verus! {

/// Scan a core's RTL files into a [`DesignModel`]. Non-RTL files are ignored.
pub fn scan_design(files: &[SourceFile]) -> (d: DesignModel)
    ensures
        d@ == design_spec(files@),
        strictly_sorted(d@.pll_modules),
        forall|t: Seq<char>| #[trigger] d@.pll_modules.contains(t) <==> pll_candidate(files@, t),
        d@.memory == scan_memory(files@),
        d@.rtl_files_scanned == rtl_count(files@),
{
    let ghost fm = |f: SourceFile| file_mem(f);
    let ghost isr = |f: SourceFile| is_rtl_path(f.path@);
    let ghost mut events: Seq<MemView> = Seq::empty();
    let mut pll: Vec<Vec<char>> = Vec::new();
    let mut memory: Vec<MemController> = Vec::new();
    let mut scanned: usize = 0;
    let mut i: usize = 0;
    assert(events =~= files@.take(0).flat_map(fm));
    assert(mem_views(memory@) =~= first_per_kind(events));
    while i < files.len()
        invariant
            i <= files@.len(),
            fm == (|f: SourceFile| file_mem(f)),
            isr == (|f: SourceFile| is_rtl_path(f.path@)),
            events == files@.take(i as int).flat_map(fm),
            mem_views(memory@) == first_per_kind(events),
            scanned == files@.take(i as int).filter(isr).len(),
            scanned <= i,
            strictly_sorted(seqs(pll@)),
            forall|t: Seq<char>| #[trigger] seqs(pll@).contains(t) <==> pll_candidate(files@.take(i as int), t),
        decreases files.len() - i,
    {
        let f = &files[i];
        let ghost ev0 = events;
        proof {
            assert(files@.take(i + 1) == files@.take(i as int).push(*f));
            files@.take(i as int).lemma_filter_push(*f, isr);
            files@.take(i as int).lemma_flat_map_push(fm, *f);
        }
        let ghost old_pll = seqs(pll@);
        if f.is_rtl() {
            scanned = scanned + 1;
            let p = chars_of(f.path.as_str());
            let lp = lower_vec(&p);
            let cands = file_pll_candidates_exec(f, &p, &lp);
            let ghost cs = seqs(cands@);
            let mut k: usize = 0;
            while k < cands.len()
                invariant
                    k <= cands@.len(),
                    cs == seqs(cands@),
                    strictly_sorted(seqs(pll@)),
                    forall|t: Seq<char>| #[trigger] seqs(pll@).contains(t) <==> old_pll.contains(t) || cs.take(k as int).contains(t),
                decreases cands.len() - k,
            {
                let t = crate::text::slice_of(&cands[k], 0, cands[k].len());
                assert(cands@[k as int]@.subrange(0, cands@[k as int]@.len() as int) == cands@[k as int]@);
                proof {
                    assert(cs.take(k + 1) == cs.take(k as int).push(t@));
                    assert forall|y: Seq<char>| #[trigger] cs.take(k + 1).contains(y) <==> cs.take(k as int).contains(y) || y == t@ by {
                        lemma_push_contains(cs.take(k as int), t@, y);
                    }
                }
                insert_sorted_unique(&mut pll, t);
                k = k + 1;
            }
            assert(cs.take(cands@.len() as int) == cs);
            let kinds = file_mem_kinds_exec(f, &lp);
            let ghost mk = |k: MemKind| MemView { kind: k, evidence: f.path@ };
            let mut j: usize = 0;
            while j < kinds.len()
                invariant
                    j <= kinds@.len(),
                    kinds@ == file_mem_kinds(*f),
                    mk == (|k: MemKind| MemView { kind: k, evidence: f.path@ }),
                    events == ev0 + kinds@.take(j as int).map_values(mk),
                    mem_views(memory@) == first_per_kind(events),
                decreases kinds.len() - j,
            {
                let k = kinds[j];
                let ghost evk = mk(k);
                let mut seen = false;
                let mut x: usize = 0;
                while x < memory.len()
                    invariant
                        x <= memory@.len(),
                        seen == exists|y: int| 0 <= y < x && (#[trigger] memory@[y]).kind == k,
                    decreases memory.len() - x,
                {
                    if memory[x].kind == k {
                        seen = true;
                    }
                    x = x + 1;
                }
                proof {
                    let ne = events.push(evk);
                    assert(ne.drop_last() == events);
                    let m = mem_views(memory@);
                    if seen {
                        let y = choose|y: int| 0 <= y < memory@.len() && (#[trigger] memory@[y]).kind == k;
                        assert(m[y].kind == k);
                    } else {
                        assert forall|y: int| 0 <= y < m.len() implies (#[trigger] m[y]).kind != evk.kind by {
                            assert(m[y].kind == memory@[y].kind);
                        }
                    }
                }
                if !seen {
                    let mc = MemController { kind: k, evidence: f.path.clone() };
                    let ghost before = memory@;
                    memory.push(mc);
                    assert(mem_views(memory@) == mem_views(before).push(evk));
                }
                proof {
                    assert(kinds@.take(j + 1) == kinds@.take(j as int).push(k));
                    kinds@.take(j as int).lemma_push_map_commute(mk, k);
                    assert(ev0 + kinds@.take(j as int).map_values(mk).push(evk) =~= (ev0 + kinds@.take(j as int).map_values(mk)).push(evk));
                    events = events.push(evk);
                }
                j = j + 1;
            }
            assert(kinds@.take(kinds@.len() as int) == kinds@);
        } else {
            assert(file_mem_kinds(*f) =~= Seq::<MemKind>::empty());
            assert(file_mem(*f) =~= Seq::<MemView>::empty());
            assert(file_pll_candidates(*f) =~= Seq::<Seq<char>>::empty());
            assert(events =~= ev0 + file_mem(*f));
        }
        proof {
            let pre = files@.take(i as int);
            let post = files@.take(i + 1);
            assert forall|t: Seq<char>| #[trigger] pll_candidate(post, t) <==> pll_candidate(pre, t) || file_pll_candidates(*f).contains(t) by {
                if pll_candidate(post, t) {
                    let w = choose|w: int| 0 <= w < post.len() && #[trigger] file_pll_candidates(post[w]).contains(t);
                    if w < i {
                        assert(pre[w] == post[w]);
                    }
                }
                if pll_candidate(pre, t) {
                    let w = choose|w: int| 0 <= w < pre.len() && #[trigger] file_pll_candidates(pre[w]).contains(t);
                    assert(post[w] == pre[w]);
                }
                if file_pll_candidates(*f).contains(t) {
                    assert(post[i as int] == *f);
                }
            }
        }
        i = i + 1;
    }
    assert(files@.take(files@.len() as int) == files@);
    let d = DesignModel { pll_modules: strings_of(&pll), memory, rtl_files_scanned: scanned };
    proof {
        crate::order::lemma_is_sorted_set(d@.pll_modules, |t: Seq<char>| pll_candidate(files@, t));
    }
    d
}

/// The model [`scan_design`] derives from a core's files.
pub open spec fn design_spec(files: Seq<SourceFile>) -> DesignView {
    DesignView {
        pll_modules: crate::order::sorted_set(|t: Seq<char>| pll_candidate(files, t)),
        memory: scan_memory(files),
        rtl_files_scanned: rtl_count(files),
    }
}

} // verus!
