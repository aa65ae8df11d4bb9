//! The source seam. Both the SDC parser and the RTL scan consume files through a
//! [`CoreSource`], so the whole pipeline runs against either a core directory read
//! by the application ([`FsSource`]) or an in-memory double ([`MemSource`]) with no
//! change to the analysis.
use vstd::prelude::*;
use crate::lines::{seqs, split_on, split_exec};
use crate::text::{lower, chars_of, lower_vec, string_of, eq_exec, slice_of};

verus! {

/// One source file: a path (used for evidence lines) and its text.
#[derive(Debug, Clone, PartialEq, Eq)]
pub struct SourceFile {
    /// Path as it should appear in a finding's evidence.
    pub path: String,
    /// File contents.
    pub text: String,
}

/// The last component of a `/`-separated path, as `Path::file_name` sees it:
/// empty and `.` components are ignored, and a final `..` has no name.
pub open spec fn final_component(p: Seq<char>) -> Option<Seq<char>> {
    let segs = split_on(p, '/').filter(|s: Seq<char>| s.len() > 0 && s != seq!['.']);
    if segs.len() == 0 || segs.last() == seq!['.', '.'] {
        None
    } else {
        Some(segs.last())
    }
}

/// Index of the last `.` of `n`.
pub open spec fn last_dot(n: Seq<char>) -> Option<int>
    decreases n.len(),
{
    if n.len() == 0 {
        None
    } else if n.last() == '.' {
        Some(n.len() - 1)
    } else {
        last_dot(n.drop_last())
    }
}

/// `Path::extension`: the part of the file name after its last `.`, unless the
/// name has no `.` or its only `.` is the first character.
pub open spec fn extension(p: Seq<char>) -> Option<Seq<char>> {
    match final_component(p) {
        None => None,
        Some(n) => match last_dot(n) {
            None => None,
            Some(d) => if d == 0 {
                None
            } else {
                Some(n.subrange(d + 1, n.len() as int))
            },
        },
    }
}

/// The lowercased extension of a path, or the empty sequence.
pub open spec fn ext_of(p: Seq<char>) -> Seq<char> {
    match extension(p) {
        Some(e) => lower(e),
        None => Seq::<char>::empty(),
    }
}

/// A timing-constraint file.
pub open spec fn is_sdc_path(p: Seq<char>) -> bool {
    ext_of(p) == "sdc"@
}

/// An RTL source file.
pub open spec fn is_rtl_path(p: Seq<char>) -> bool {
    let e = ext_of(p);
    e == "v"@ || e == "sv"@ || e == "vh"@ || e == "svh"@
}

pub proof fn lemma_last_dot(n: Seq<char>)
    ensures
        last_dot(n) matches Some(d) ==> 0 <= d < n.len() && n[d] == '.' && forall|j: int|
            d < j < n.len() ==> n[j] != '.',
        last_dot(n) is None ==> forall|j: int| 0 <= j < n.len() ==> n[j] != '.',
    decreases n.len(),
{
    if n.len() > 0 && n.last() != '.' {
        lemma_last_dot(n.drop_last());
        assert forall|j: int| 0 <= j < n.len() - 1 implies n[j] == n.drop_last()[j] by {}
    }
}

/// The final path component, per [`final_component`].
fn final_component_exec(p: &Vec<char>) -> (r: Option<Vec<char>>)
    ensures
        match r {
            Some(n) => final_component(p@) == Some(n@),
            None => final_component(p@) is None,
        },
{
    let segs = split_exec(p, '/');
    let ghost ss = seqs(segs@);
    let ghost keep = |s: Seq<char>| s.len() > 0 && s != seq!['.'];
    let mut found: Option<Vec<char>> = None;
    let mut i: usize = 0;
    while i < segs.len()
        invariant
            i <= segs@.len(),
            ss == seqs(segs@),
            keep == (|s: Seq<char>| s.len() > 0 && s != seq!['.']),
            match found {
                Some(x) => ss.take(i as int).filter(keep).len() > 0 && x@ == ss.take(
                    i as int,
                ).filter(keep).last(),
                None => ss.take(i as int).filter(keep).len() == 0,
            },
        decreases segs.len() - i,
    {
        let s = &segs[i];
        proof {
            assert(ss.take(i + 1) == ss.take(i as int).push(s@));
            ss.take(i as int).lemma_filter_push(s@, keep);
        }
        let is_dot = s.len() == 1 && s[0] == '.';
        proof {
            if s@.len() == 1 {
                if s@[0] == '.' {
                    assert(s@ =~= seq!['.']);
                } else {
                    assert(s@[0] != seq!['.'][0]);
                }
            }
        }
        if s.len() > 0 && !is_dot {
            found = Some(slice_of(s, 0, s.len()));
            assert(s@.subrange(0, s@.len() as int) == s@);
        }
        i = i + 1;
    }
    assert(ss.take(segs@.len() as int) == ss);
    match found {
        None => None,
        Some(x) => {
            let is_dotdot = x.len() == 2 && x[0] == '.' && x[1] == '.';
            proof {
                if x@.len() == 2 {
                    if x@[0] == '.' && x@[1] == '.' {
                        assert(x@ =~= seq!['.', '.']);
                    } else if x@[0] != '.' {
                        assert(x@[0] != seq!['.', '.'][0]);
                    } else {
                        assert(x@[1] != seq!['.', '.'][1]);
                    }
                }
            }
            if is_dotdot {
                None
            } else {
                Some(x)
            }
        },
    }
}

/// The lowercased extension of a path.
fn ext_exec(p: &Vec<char>) -> (r: Vec<char>)
    ensures
        r@ == ext_of(p@),
{
    match final_component_exec(p) {
        None => Vec::new(),
        Some(n) => {
            let mut k = n.len();
            assert(n@.subrange(0, n@.len() as int) == n@);
            while k > 0 && n[k - 1] != '.'
                invariant
                    k <= n@.len(),
                    last_dot(n@) == last_dot(n@.subrange(0, k as int)),
                decreases k,
            {
                assert(n@.subrange(0, k - 1) == n@.subrange(0, k as int).drop_last());
                k = k - 1;
            }
            if k <= 1 {
                proof {
                    if k == 1 {
                        assert(n@.subrange(0, 1).last() == n@[0]);
                    }
                }
                Vec::new()
            } else {
                assert(n@.subrange(0, k as int).last() == n@[k - 1]);
                let e = slice_of(&n, k, n.len());
                lower_vec(&e)
            }
        },
    }
}

impl SourceFile {
    /// Construct a file, e.g. in a test double.
    pub fn new(path: &str, text: &str) -> (r: SourceFile)
        ensures
            r.path@ == path@,
            r.text@ == text@,
    {
        SourceFile { path: path.to_owned(), text: text.to_owned() }
    }

    /// A field-by-field copy.
    pub fn duplicate(&self) -> (r: SourceFile)
        ensures
            r == *self,
    {
        SourceFile { path: self.path.clone(), text: self.text.clone() }
    }

    /// Lowercased extension (no dot), or `""`.
    pub fn ext(&self) -> (r: String)
        ensures
            r@ == ext_of(self.path@),
    {
        let p = chars_of(self.path.as_str());
        let e = ext_exec(&p);
        string_of(&e)
    }

    /// Is this a timing-constraint file cdc-sentinel should parse?
    pub fn is_sdc(&self) -> (r: bool)
        ensures
            r == is_sdc_path(self.path@),
    {
        let p = chars_of(self.path.as_str());
        let e = ext_exec(&p);
        let sdc = chars_of("sdc");
        eq_exec(&e, &sdc)
    }

    /// Is this an RTL source file the structural scan should read?
    pub fn is_rtl(&self) -> (r: bool)
        ensures
            r == is_rtl_path(self.path@),
    {
        let p = chars_of(self.path.as_str());
        let e = ext_exec(&p);
        let v = chars_of("v");
        let sv = chars_of("sv");
        let vh = chars_of("vh");
        let svh = chars_of("svh");
        eq_exec(&e, &v) || eq_exec(&e, &sv) || eq_exec(&e, &vh) || eq_exec(&e, &svh)
    }
}

} // verus!

verus! {

/// A provider of a core's source files. The one method keeps the seam trivial to
/// double; consumers filter by [`SourceFile::is_sdc`] / [`SourceFile::is_rtl`].
pub trait CoreSource {
    /// The files this source provides, in a stable order.
    spec fn source_files(&self) -> Seq<SourceFile>;

    /// Every source file cdc-sentinel might read, in a stable order.
    fn files(&self) -> (r: Vec<SourceFile>)
        ensures
            r@ == self.source_files(),
    ;
}

/// A copy of a vector of files.
pub fn copy_files(v: &Vec<SourceFile>) -> (r: Vec<SourceFile>)
    ensures
        r@ == v@,
{
    let mut r: Vec<SourceFile> = Vec::new();
    let mut i: usize = 0;
    while i < v.len()
        invariant
            i <= v@.len(),
            r@ == v@.take(i as int),
        decreases v.len() - i,
    {
        r.push(v[i].duplicate());
        i = i + 1;
        assert(v@.take(i as int) == v@.take(i - 1).push(v@[i - 1]));
    }
    assert(v@.take(v@.len() as int) == v@);
    r
}

/// In-memory source — the test double. Holds a fixed set of files; nothing touches
/// the filesystem.
#[derive(Debug, Clone)]
pub struct MemSource {
    files: Vec<SourceFile>,
}

impl MemSource {
    /// The files held, in the order they were added.
    pub closed spec fn held(&self) -> Seq<SourceFile> {
        self.files@
    }

    /// An empty double.
    pub fn new() -> (r: MemSource)
        ensures
            r.held() == Seq::<SourceFile>::empty(),
    {
        MemSource { files: Vec::new() }
    }

    /// Add a file, builder-style.
    pub fn with(self, path: &str, text: &str) -> (r: MemSource)
        ensures
            r.held().len() == self.held().len() + 1,
            r.held().drop_last() == self.held(),
            r.held().last().path@ == path@,
            r.held().last().text@ == text@,
    {
        let mut s = self;
        s.files.push(SourceFile::new(path, text));
        s
    }
}

impl CoreSource for MemSource {
    open spec fn source_files(&self) -> Seq<SourceFile> {
        self.held()
    }

    fn files(&self) -> (r: Vec<SourceFile>) {
        copy_files(&self.files)
    }
}

} // verus!

verus! {

/// Index of the first file whose path sorts strictly after `p` (or the length).
pub open spec fn first_after(s: Seq<SourceFile>, p: Seq<char>) -> int
    decreases s.len(),
{
    if s.len() == 0 {
        0
    } else if crate::order::lex_lt(p, s[0].path@) {
        0
    } else {
        1 + first_after(s.drop_first(), p)
    }
}

/// Stable sort by path: each file is inserted after every file whose path does
/// not sort after its own.
pub open spec fn sort_by_path(s: Seq<SourceFile>) -> Seq<SourceFile>
    decreases s.len(),
{
    if s.len() == 0 {
        s
    } else {
        let r = sort_by_path(s.drop_last());
        r.insert(first_after(r, s.last().path@), s.last())
    }
}

pub proof fn lemma_first_after(s: Seq<SourceFile>, p: Seq<char>)
    ensures
        0 <= first_after(s, p) <= s.len(),
        forall|i: int| 0 <= i < first_after(s, p) ==> !crate::order::lex_lt(p, #[trigger] s[i].path@),
        first_after(s, p) < s.len() ==> crate::order::lex_lt(p, s[first_after(s, p)].path@),
    decreases s.len(),
{
    if s.len() > 0 && !crate::order::lex_lt(p, s[0].path@) {
        lemma_first_after(s.drop_first(), p);
        assert forall|i: int| 0 <= i < first_after(s, p) implies !crate::order::lex_lt(p, #[trigger] s[i].path@) by {
            if i > 0 {
                assert(s[i] == s.drop_first()[i - 1]);
                assert(!crate::order::lex_lt(p, s.drop_first()[i - 1].path@));
            }
        }
    }
}

pub proof fn lemma_sort_by_path_len(s: Seq<SourceFile>)
    ensures
        sort_by_path(s).len() == s.len(),
    decreases s.len(),
{
    if s.len() > 0 {
        lemma_sort_by_path_len(s.drop_last());
        lemma_first_after(sort_by_path(s.drop_last()), s.last().path@);
    }
}

/// Filesystem source — the files of a core directory, as the application
/// collected them (SDC and RTL files, paths relative to `root`), kept in path order.
pub struct FsSource {
    root: String,
    files: Vec<SourceFile>,
}

impl FsSource {
    /// The directory this source was opened on.
    pub closed spec fn root_path(&self) -> Seq<char> {
        self.root@
    }

    /// The files held, in path order.
    pub closed spec fn held(&self) -> Seq<SourceFile> {
        self.files@
    }

    /// A source over the files collected under `root`, sorted by path (stable).
    pub fn from_walk(root: &str, files: Vec<SourceFile>) -> (r: FsSource)
        ensures
            r.root_path() == root@,
            r.held() == sort_by_path(files@),
    {
        let mut out: Vec<SourceFile> = Vec::new();
        let mut i: usize = 0;
        while i < files.len()
            invariant
                i <= files@.len(),
                out@ == sort_by_path(files@.take(i as int)),
            decreases files.len() - i,
        {
            let f = files[i].duplicate();
            let pc = chars_of(f.path.as_str());
            let mut k: usize = 0;
            let ghost o = out@;
            proof {
                lemma_first_after(o, f.path@);
                assert(o.skip(0) == o);
            }
            while k < out.len() && !crate::order::lex_lt_exec(&pc, &chars_of(out[k].path.as_str()))
                invariant
                    k <= out@.len(),
                    out@ == o,
                    pc@ == f.path@,
                    first_after(o, f.path@) == k + first_after(o.skip(k as int), f.path@),
                decreases out.len() - k,
            {
                assert(o.skip(k as int)[0] == o[k as int]);
                assert(o.skip(k as int).drop_first() == o.skip(k + 1));
                k = k + 1;
            }
            proof {
                if k < o.len() {
                    assert(o.skip(k as int)[0] == o[k as int]);
                }
                let t = files@.take(i + 1);
                assert(t.drop_last() == files@.take(i as int));
                assert(t.last() == f);
            }
            out.insert(k, f);
            i = i + 1;
        }
        assert(files@.take(files@.len() as int) == files@);
        FsSource { root: root.to_owned(), files: out }
    }

    /// The directory this source was opened on.
    pub fn root(&self) -> (r: &str)
        ensures
            r@ == self.root_path(),
    {
        self.root.as_str()
    }

    /// Does the directory walk descend into a subdirectory of this name? Not into
    /// `target` nor into dotted directories.
    pub fn descends_into(name: &str) -> (r: bool)
        ensures
            r == !(name@ == "target"@ || (name@.len() > 0 && name@[0] == '.')),
    {
        let n = chars_of(name);
        let t = chars_of("target");
        !(crate::text::eq_exec(&n, &t) || (n.len() > 0 && n[0] == '.'))
    }
}

impl CoreSource for FsSource {
    open spec fn source_files(&self) -> Seq<SourceFile> {
        self.held()
    }

    fn files(&self) -> (r: Vec<SourceFile>) {
        copy_files(&self.files)
    }
}

} // verus!
