//! Module paths: where a package is installed, like
//! `packages/app/node_modules/@scope/name`.

use vstd::prelude::*;
use vstd::string::StrSliceExecFns;

use crate::error::Error;
use crate::name::{
    is_package_name, name_positions_wf, package_name_at, package_name_at_exec, NamePos,
    PackageName, PackageNameBorrowed, PackageNamePositions,
};
use crate::text::{chars_of, has_at, has_at_exec, lemma_run_len_props, run_len, run_len_exec};

verus! {

/// The kind of a path segment.
pub enum SegKind {
    /// A directory outside of any `node_modules`, e.g. a workspace member's path.
    Arbitrary,
    /// A `node_modules` directory.
    NodeModules,
    /// A package installed in `node_modules`; scoped names span two directories.
    PackageName(NamePos),
}

/// A segment's kind and the index where its text ends.
pub type SegView = (SegKind, nat);

/// The scanner's state between segments.
pub struct MpState {
    pub segs: Seq<SegView>,
    pub inside_node_modules: bool,
    pub inside_scope: bool,
}

/// Why a string is not a module path.
pub enum MpErr {
    /// The path as a whole is malformed.
    Path,
    /// The text between these indices should be a package name but is not.
    Name(int, int),
}

pub open spec fn not_slash_pred() -> spec_fn(char) -> bool {
    |c: char| c != '/'
}

/// Where the text of the segment after `segs` starts.
pub open spec fn next_start(segs: Seq<SegView>) -> int {
    if segs.len() == 0 {
        0
    } else {
        segs.last().1 + 1 as int
    }
}

/// Reading the directory `s[a..b]` in state `st`.
pub open spec fn mp_step(s: Seq<char>, st: MpState, a: int, b: int) -> Result<MpState, MpErr> {
    let seg = s.subrange(a, b);
    if seg.len() == 0 {
        Err(MpErr::Path)
    } else if seg == "node_modules"@ {
        Ok(
            MpState {
                segs: st.segs.push((SegKind::NodeModules, b as nat)),
                inside_node_modules: true,
                inside_scope: st.inside_scope,
            },
        )
    } else if st.inside_node_modules && !st.inside_scope && seg[0] == '@' {
        Ok(MpState { segs: st.segs, inside_node_modules: true, inside_scope: true })
    } else if st.inside_node_modules {
        if st.segs.last().0 is PackageName {
            Err(MpErr::Path)
        } else {
            let start = next_start(st.segs);
            let t = s.subrange(start, b);
            match package_name_at(t, 0) {
                Some(p) => if p.total_length == t.len() {
                    Ok(
                        MpState {
                            segs: st.segs.push(
                                (
                                    SegKind::PackageName(p),
                                    b as nat,
                                ),
                            ),
                            inside_node_modules: true,
                            inside_scope: false,
                        },
                    )
                } else {
                    Err(MpErr::Name(start, b))
                },
                None => Err(MpErr::Name(start, b)),
            }
        }
    } else {
        Ok(
            MpState {
                segs: st.segs.push((SegKind::Arbitrary, b as nat)),
                inside_node_modules: st.inside_node_modules,
                inside_scope: st.inside_scope,
            },
        )
    }
}

/// Reading the directories of `s` from index `a` on.
#[verifier::opaque]
pub open spec fn mp_run(s: Seq<char>, a: int, st: MpState) -> Result<MpState, MpErr>
    decreases s.len() - a,
{
    let b = a + run_len(s, a, not_slash_pred());
    if a < 0 || a > s.len() {
        Err(MpErr::Path)
    } else {
        match mp_step(s, st, a, b) {
            Err(e) => Err(e),
            Ok(st2) => if b >= s.len() {
                Ok(st2)
            } else {
                mp_run(s, b + 1, st2)
            },
        }
    }
}

pub proof fn lemma_mp_run_unfold(s: Seq<char>, a: int, st: MpState)
    ensures
        mp_run(s, a, st) == {
            let b = a + run_len(s, a, not_slash_pred());
            if a < 0 || a > s.len() {
                Err(MpErr::Path)
            } else {
                match mp_step(s, st, a, b) {
                    Err(e) => Err(e),
                    Ok(st2) => if b >= s.len() {
                        Ok(st2)
                    } else {
                        mp_run(s, b + 1, st2)
                    },
                }
            }
        },
{
    reveal(mp_run);
}

pub open spec fn mp_init() -> MpState {
    MpState { segs: Seq::empty(), inside_node_modules: false, inside_scope: false }
}

/// The segments of a module path, or why it is not one. The empty string is the
/// root path, with no segments. A path may not end inside `node_modules` or
/// inside a scope directory.
pub open spec fn parse_module_path(s: Seq<char>) -> Result<Seq<SegView>, MpErr> {
    if s.len() == 0 {
        Ok(Seq::empty())
    } else {
        match mp_run(s, 0, mp_init()) {
            Err(e) => Err(e),
            Ok(st) => if st.inside_scope || (st.segs.len() > 0 && st.segs.last().0 is NodeModules) {
                Err(MpErr::Path)
            } else {
                Ok(st.segs)
            },
        }
    }
}

pub open spec fn is_module_path(s: Seq<char>) -> bool {
    parse_module_path(s) is Ok
}

/// Where the text of segment `i` starts.
pub open spec fn seg_start(segs: Seq<SegView>, i: int) -> int {
    if i == 0 {
        0
    } else {
        segs[i - 1].1 + 1 as int
    }
}

/// The text of segment `i`.
pub open spec fn seg_text(s: Seq<char>, segs: Seq<SegView>, i: int) -> Seq<char> {
    s.subrange(seg_start(segs, i), segs[i].1 as int)
}

/// Segment bounds lie within `s` and in order, and package segments hold names.
#[verifier::opaque]
pub open spec fn segs_wf(s: Seq<char>, segs: Seq<SegView>) -> bool {
    forall|i: int|
        0 <= i < segs.len() ==> {
            &&& 0 <= seg_start(segs, i) <= #[trigger] segs[i].1 <= s.len()
            &&& (segs[i].0 matches SegKind::PackageName(p) ==> package_name_at(
                seg_text(s, segs, i),
                0,
            ) == Some(p) && p.total_length == seg_text(s, segs, i).len())
        }
}

pub proof fn lemma_segs_wf_at(s: Seq<char>, segs: Seq<SegView>, i: int)
    requires
        segs_wf(s, segs),
        0 <= i < segs.len(),
    ensures
        0 <= seg_start(segs, i) <= segs[i].1 <= s.len(),
        segs[i].0 matches SegKind::PackageName(p) ==> package_name_at(seg_text(s, segs, i), 0)
            == Some(p) && p.total_length == seg_text(s, segs, i).len(),
{
    reveal(segs_wf);
}

pub proof fn lemma_segs_wf_empty(s: Seq<char>)
    ensures
        segs_wf(s, Seq::empty()),
{
    reveal(segs_wf);
}

/// The name that a path implies for the package installed there: the last package
/// segment; or, when the path has no `node_modules`, its last directory, or its last
/// two directories when those make a scoped name.
pub open spec fn implied_name_text(s: Seq<char>, segs: Seq<SegView>) -> Option<Seq<char>> {
    if segs.len() == 0 {
        None
    } else {
        match segs.last().0 {
            SegKind::PackageName(_) => Some(seg_text(s, segs, segs.len() - 1)),
            SegKind::Arbitrary => if segs.len() == 1 {
                Some(seg_text(s, segs, 0))
            } else if segs.len() == 2 && s.len() > 0 && s[0] == '@' {
                Some(s)
            } else {
                Some(s.subrange(segs[segs.len() - 2].1 + 1 as int, s.len() as int))
            },
            SegKind::NodeModules => None,
        }
    }
}

/// The implied package name, when it is a valid one.
pub open spec fn spec_implied_package_name(s: Seq<char>) -> Option<Seq<char>> {
    match implied_name_text(s, parse_module_path(s)->Ok_0) {
        Some(t) => if is_package_name(t) {
            Some(t)
        } else {
            None
        },
        None => None,
    }
}

/// The kind and end index of a segment.
#[derive(Debug, PartialEq, Eq, Clone, Copy)]
enum ModulePathSegmentInternal {
    Arbitrary(usize),
    NodeModules(usize),
    PackageName(usize, PackageNamePositions),
}

impl ModulePathSegmentInternal {
    spec fn seg(self) -> SegView {
        match self {
            ModulePathSegmentInternal::Arbitrary(i) => (SegKind::Arbitrary, i as nat),
            ModulePathSegmentInternal::NodeModules(i) => (SegKind::NodeModules, i as nat),
            ModulePathSegmentInternal::PackageName(i, p) => (SegKind::PackageName(p.pos()), i as nat),
        }
    }

    fn end_idx(&self) -> (r: usize)
        ensures
            r == self.seg().1,
    {
        match self {
            ModulePathSegmentInternal::Arbitrary(i) => *i,
            ModulePathSegmentInternal::NodeModules(i) => *i,
            ModulePathSegmentInternal::PackageName(i, _) => *i,
        }
    }
}

spec fn segs_view(v: Seq<ModulePathSegmentInternal>) -> Seq<SegView> {
    v.map_values(|x: ModulePathSegmentInternal| x.seg())
}

/// A path in the installation tree: directories, `node_modules`, and the
/// packages installed in them.
#[derive(Debug)]
pub struct ModulePath {
    inner: String,
    segments: Vec<ModulePathSegmentInternal>,
}

/// One segment of a [`ModulePath`].
#[derive(Debug, PartialEq, Eq)]
pub enum ModulePathSegment<'a> {
    Arbitrary(&'a str),
    NodeModules(&'a str),
    PackageName(PackageNameBorrowed<'a>),
}

impl<'a> ModulePathSegment<'a> {
    pub open spec fn text(self) -> Seq<char> {
        match self {
            ModulePathSegment::Arbitrary(t) => t@,
            ModulePathSegment::NodeModules(t) => t@,
            ModulePathSegment::PackageName(n) => n@,
        }
    }

    pub open spec fn has_kind(self, k: SegKind) -> bool {
        match self {
            ModulePathSegment::Arbitrary(_) => k is Arbitrary,
            ModulePathSegment::NodeModules(_) => k is NodeModules,
            ModulePathSegment::PackageName(_) => k is PackageName,
        }
    }

    /// The segment's text.
    pub fn as_str(&self) -> (r: &'a str)
        ensures
            r@ == self.text(),
    {
        match self {
            ModulePathSegment::Arbitrary(t) => t,
            ModulePathSegment::NodeModules(t) => t,
            ModulePathSegment::PackageName(n) => n.as_str(),
        }
    }
}

impl View for ModulePath {
    type V = Seq<char>;

    closed spec fn view(&self) -> Seq<char> {
        self.inner@
    }
}

fn not_slash_exec(c: char) -> (b: bool)
    ensures
        b == not_slash_pred()(c),
{
    c != '/'
}

#[verifier::rlimit(40)]
proof fn lemma_step_wf(s: Seq<char>, st: MpState, a: int, b: int)
    requires
        segs_wf(s, st.segs),
        0 <= a <= b <= s.len(),
        st.segs.len() > 0 ==> st.segs.last().1 < a,
        st.inside_node_modules ==> st.segs.len() > 0,
        mp_step(s, st, a, b) is Ok,
    ensures
        segs_wf(s, mp_step(s, st, a, b)->Ok_0.segs),
        mp_step(s, st, a, b)->Ok_0.inside_node_modules ==> mp_step(s, st, a, b)->Ok_0.segs.len()
            > 0,
        mp_step(s, st, a, b)->Ok_0.segs.len() > 0 ==> mp_step(s, st, a, b)->Ok_0.segs.last().1
            <= b,
{
    reveal(segs_wf);
    let st2 = mp_step(s, st, a, b)->Ok_0;
    let n = st.segs.len();
    if st2.segs.len() == n + 1 {
        assert(st2.segs.subrange(0, n as int) =~= st.segs);
        assert forall|i: int| 0 <= i < st2.segs.len() implies {
            &&& 0 <= seg_start(st2.segs, i) <= #[trigger] st2.segs[i].1 <= s.len()
            &&& (st2.segs[i].0 matches SegKind::PackageName(p) ==> package_name_at(
                seg_text(s, st2.segs, i),
                0,
            ) == Some(p) && p.total_length == seg_text(s, st2.segs, i).len())
        } by {
            if i < n {
                assert(st2.segs[i] == st.segs[i]);
                if i > 0 {
                    assert(st2.segs[i - 1] == st.segs[i - 1]);
                }
            } else {
                if i > 0 {
                    assert(st2.segs[i - 1] == st.segs[i - 1]);
                }
            }
        }
    }
}

impl Clone for ModulePath {
    fn clone(&self) -> (r: ModulePath)
        ensures
            r@ == self@,
            r.segments() == self.segments(),
    {
        proof {
            use_type_invariant(self);
        }
        ModulePath { inner: self.inner.clone(), segments: self.segments.clone() }
    }
}

impl ModulePath {
    #[verifier::type_invariant]
    closed spec fn inv(self) -> bool {
        &&& parse_module_path(self.inner@) == Ok::<Seq<SegView>, MpErr>(
            segs_view(self.segments@),
        )
        &&& segs_wf(self.inner@, segs_view(self.segments@))
        &&& self.inner@.len() <= usize::MAX
    }

    /// The segments of this path.
    pub closed spec fn segments(self) -> Seq<SegView> {
        segs_view(self.segments@)
    }

    /// Reads a module path.
    pub fn new(value: String) -> (r: Result<ModulePath, Error>)
        ensures
            match r {
                Ok(mp) => mp@ == value@ && parse_module_path(value@) == Ok::<Seq<SegView>, MpErr>(
                    mp.segments(),
                ),
                Err(Error::InvalidModulePath(v)) => v == value && parse_module_path(value@)
                    == Err::<Seq<SegView>, MpErr>(MpErr::Path),
                Err(Error::InvalidPackageName(t)) => exists|a: int, b: int|
                    parse_module_path(value@) == Err::<Seq<SegView>, MpErr>(MpErr::Name(a, b))
                        && 0 <= a <= b <= value@.len() && t@ == value@.subrange(a, b),
                Err(_) => false,
            },
    {
        let v = chars_of(value.as_str());
        let mut segments: Vec<ModulePathSegmentInternal> = Vec::new();
        assert(segs_view(segments@) =~= Seq::<SegView>::empty());
        proof {
            lemma_segs_wf_empty(v@);
        }
        if v.len() == 0 {
            return Ok(ModulePath { inner: value, segments });
        }
        let mut inside_node_modules = false;
        let mut inside_scope = false;
        let mut a: usize = 0;
        loop
            invariant_except_break
                a <= v.len(),
                v@ == value@,
                v@.len() > 0,
                mp_run(v@, 0, mp_init()) == mp_run(
                    v@,
                    a as int,
                    MpState { segs: segs_view(segments@), inside_node_modules, inside_scope },
                ),
                segs_wf(v@, segs_view(segments@)),
                segments@.len() > 0 ==> segments@.last().seg().1 < a,
                inside_node_modules ==> segments@.len() > 0,
            ensures
                v@ == value@,
                v@.len() > 0,
                mp_run(v@, 0, mp_init()) == Ok::<MpState, MpErr>(
                    MpState { segs: segs_view(segments@), inside_node_modules, inside_scope },
                ),
                segs_wf(v@, segs_view(segments@)),
            decreases v.len() - a,
        {
            let ghost st = MpState {
                segs: segs_view(segments@),
                inside_node_modules,
                inside_scope,
            };
            let k = run_len_exec(&v, a, not_slash_exec, Ghost(not_slash_pred()));
            let b = a + k;
            proof {
                lemma_run_len_props(v@, a as int, not_slash_pred());
                lemma_mp_run_unfold(v@, a as int, st);
            }
            if k == 0 {
                return Err(Error::InvalidModulePath(value));
            }
            if has_at_exec(&v, a, "node_modules") && k == "node_modules".unicode_len() {
                segments.push(ModulePathSegmentInternal::NodeModules(b));
                inside_node_modules = true;
            } else if inside_node_modules && !inside_scope && v[a] == '@' {
                inside_scope = true;
            } else if inside_node_modules {
                let last = segments[segments.len() - 1];
                if let ModulePathSegmentInternal::PackageName(..) = last {
                    return Err(Error::InvalidModulePath(value));
                }
                let start = last.end_idx() + 1;
                let t = value.as_str().substring_char(start, b);
                let tv = chars_of(t);
                match package_name_at_exec(&tv, 0) {
                    Some(p) => {
                        if p.total_length == tv.len() {
                            segments.push(ModulePathSegmentInternal::PackageName(b, p));
                            inside_scope = false;
                        } else {
                            return Err(Error::InvalidPackageName(t.to_owned()));
                        }
                    },
                    None => {
                        return Err(Error::InvalidPackageName(t.to_owned()));
                    },
                }
            } else {
                segments.push(ModulePathSegmentInternal::Arbitrary(b));
            }
            proof {
                lemma_step_wf(v@, st, a as int, b as int);
                assert(segs_view(segments@) =~= mp_step(v@, st, a as int, b as int)->Ok_0.segs);
            }
            if b >= v.len() {
                break ;
            }
            a = b + 1;
        }
        if inside_scope {
            return Err(Error::InvalidModulePath(value));
        }
        if segments.len() > 0 {
            if let ModulePathSegmentInternal::NodeModules(_) = segments[segments.len() - 1] {
                return Err(Error::InvalidModulePath(value));
            }
        }
        Ok(ModulePath { inner: value, segments })
    }

    /// The root path: the empty string.
    pub fn root() -> (r: ModulePath)
        ensures
            r@ == Seq::<char>::empty(),
            r.segments() == Seq::<SegView>::empty(),
    {
        let segments: Vec<ModulePathSegmentInternal> = Vec::new();
        assert(segs_view(segments@) =~= Seq::<SegView>::empty());
        proof {
            lemma_segs_wf_empty(Seq::empty());
        }
        ModulePath { inner: String::new(), segments }
    }

    pub fn as_str(&self) -> (r: &str)
        ensures
            r@ == self@,
    {
        self.inner.as_str()
    }

    /// The segments, first to last.
    pub fn iter(&self) -> (r: ModulePathIter<'_>)
        ensures
            r.path() == self,
            r.index() == 0,
    {
        ModulePathIter { inner: self, idx: 0 }
    }

    /// Number of segments.
    pub fn len(&self) -> (r: usize)
        ensures
            r == self.segments().len(),
    {
        self.segments.len()
    }

    /// Segment `i`.
    pub fn segment(&self, i: usize) -> (r: ModulePathSegment<'_>)
        requires
            i < self.segments().len(),
        ensures
            r.text() == seg_text(self@, self.segments(), i as int),
            r.has_kind(self.segments()[i as int].0),
    {
        proof {
            use_type_invariant(self);
        }
        let seg = self.segments[i];
        proof {
            assert(self.segments()[i as int] == seg.seg());
            lemma_segs_wf_at(self@, self.segments(), i as int);
        }
        let start = if i == 0 {
            0
        } else {
            self.segments[i - 1].end_idx() + 1
        };
        proof {
            assert(self.segments()[i as int] == seg.seg());
            if i > 0 {
                assert(self.segments()[i - 1] == self.segments@[i - 1].seg());
            }
        }
        let text = self.inner.as_str().substring_char(start, seg.end_idx());
        match seg {
            ModulePathSegmentInternal::Arbitrary(_) => ModulePathSegment::Arbitrary(text),
            ModulePathSegmentInternal::NodeModules(_) => ModulePathSegment::NodeModules(text),
            ModulePathSegmentInternal::PackageName(_, p) => {
                ModulePathSegment::PackageName(PackageNameBorrowed::from_valid(text, p))
            },
        }
    }

    /// The package name implied by the path (see [`implied_name_text`]), when valid.
    pub fn implied_package_name(&self) -> (r: Option<PackageName>)
        ensures
            match r {
                Some(n) => spec_implied_package_name(self@) == Some(n@),
                None => spec_implied_package_name(self@) is None,
            },
    {
        proof {
            use_type_invariant(self);
        }
        let n = self.segments.len();
        if n == 0 {
            return None;
        }
        match self.implied_text() {
            Some(text) => match PackageName::new(text) {
                Ok(name) => Some(name),
                Err(_) => None,
            },
            None => None,
        }
    }

    fn implied_text(&self) -> (r: Option<String>)
        ensures
            match r {
                Some(t) => implied_name_text(self@, self.segments()) == Some(t@),
                None => implied_name_text(self@, self.segments()) is None,
            },
    {
        proof {
            use_type_invariant(self);
        }
        let n = self.segments.len();
        if n == 0 {
            return None;
        }
        let ghost segs = self.segments();
        let ghost s = self@;
        proof {
            lemma_segs_wf_at(s, segs, n - 1);
            if n >= 2 {
                lemma_segs_wf_at(s, segs, n - 2);
            }
        }
        match self.segment(n - 1) {
            ModulePathSegment::PackageName(pn) => Some(pn.as_str().to_owned()),
            ModulePathSegment::Arbitrary(a) => {
                let v = chars_of(self.inner.as_str());
                proof {
                    reveal_strlit("@");
                    if s.len() > 0 && s[0] == '@' {
                        assert(s.subrange(0, 1) =~= "@"@);
                    }
                    if has_at(s, 0, "@"@) {
                        assert(s.subrange(0, 1)[0] == '@');
                    }
                }
                if n == 1 {
                    Some(a.to_owned())
                } else if n == 2 && has_at_exec(&v, 0, "@") {
                    Some(self.inner.clone())
                } else {
                    proof {
                        assert(segs[n - 2] == self.segments@[n - 2].seg());
                    }
                    let start = self.segments[n - 2].end_idx() + 1;
                    Some(self.inner.as_str().substring_char(start, v.len()).to_owned())
                }
            },
            ModulePathSegment::NodeModules(_) => None,
        }
    }
}

/// Walks the segments of a [`ModulePath`].
pub struct ModulePathIter<'a> {
    inner: &'a ModulePath,
    idx: usize,
}

impl<'a> ModulePathIter<'a> {
    pub closed spec fn path(self) -> &'a ModulePath {
        self.inner
    }

    pub closed spec fn index(self) -> nat {
        self.idx as nat
    }

    /// The next segment, if any.
    pub fn next(&mut self) -> (r: Option<ModulePathSegment<'a>>)
        ensures
            final(self).path() == old(self).path(),
            match r {
                Some(seg) => {
                    &&& old(self).index() < old(self).path().segments().len()
                    &&& final(self).index() == old(self).index() + 1
                    &&& seg.text() == seg_text(old(self).path()@, old(self).path().segments(), old(self).index() as int)
                    &&& seg.has_kind(old(self).path().segments()[old(self).index() as int].0)
                },
                None => {
                    &&& old(self).index() >= old(self).path().segments().len()
                    &&& final(self).index() == old(self).index()
                },
            },
    {
        if self.idx < self.inner.len() {
            let seg = self.inner.segment(self.idx);
            self.idx = self.idx + 1;
            Some(seg)
        } else {
            None
        }
    }
}


/// The texts of the first `n` segments, joined with `/`.
pub open spec fn join_segments(s: Seq<char>, segs: Seq<SegView>, n: int) -> Seq<char>
    decreases n,
{
    if n <= 0 {
        Seq::empty()
    } else if n == 1 {
        seg_text(s, segs, 0)
    } else {
        join_segments(s, segs, n - 1) + "/"@ + seg_text(s, segs, n - 1)
    }
}

/// How the segments read so far lie in `s`, before index `a`: each ends at a `/`
/// before `a` and is not empty; the kinds follow each other as a module path has
/// them.
spec fn scan_shape(s: Seq<char>, a: int, st: MpState) -> bool {
    let segs = st.segs;
    &&& 0 <= a <= s.len() + 1
    &&& forall|i: int| 0 <= i < segs.len() ==> seg_start(segs, i) < #[trigger] segs[i].1 && segs[i].1 < a
    &&& forall|i: int| 0 <= i < segs.len() && #[trigger] segs[i].1 < s.len() ==> s[segs[i].1 as int] == '/'
    &&& (!st.inside_scope && a > 0) ==> segs.len() > 0 && segs.last().1 == a - 1
    &&& a == 0 ==> segs.len() == 0 && !st.inside_scope && !st.inside_node_modules
    &&& st.inside_scope ==> st.inside_node_modules
    &&& !st.inside_node_modules ==> forall|i: int| 0 <= i < segs.len() ==> (#[trigger] segs[i]).0 is Arbitrary
    &&& st.inside_node_modules ==> segs.len() > 0 && !(segs.last().0 is Arbitrary)
    &&& forall|i: int, j: int| 0 <= i < j < segs.len() && (#[trigger] segs[i]).0 is NodeModules ==> !((#[trigger] segs[j]).0 is Arbitrary)
    &&& forall|i: int| 0 <= i < segs.len() && (#[trigger] segs[i]).0 is PackageName ==> i > 0 && segs[i - 1].0 is NodeModules
}

proof fn lemma_step_shape(s: Seq<char>, st: MpState, a: int, b: int)
    requires
        scan_shape(s, a, st),
        a <= s.len(),
        a < b <= s.len(),
        b < s.len() ==> s[b] == '/',
        mp_step(s, st, a, b) is Ok,
    ensures
        scan_shape(s, b + 1, mp_step(s, st, a, b)->Ok_0),
{
    let st2 = mp_step(s, st, a, b)->Ok_0;
    let n = st.segs.len();
    if st2.segs.len() == n + 1 {
        assert forall|i: int| 0 <= i < n + 1 implies st2.segs[i] == (if i < n { st.segs[i] } else { st2.segs.last() }) by {}
        if n > 0 {
            assert(st2.segs[n - 1] == st.segs[n - 1]);
        }
    } else {
        assert(st2.segs == st.segs);
    }
}

proof fn lemma_run_shape(s: Seq<char>, a: int, st: MpState)
    requires
        scan_shape(s, a, st),
        segs_wf(s, st.segs),
        a <= s.len(),
        mp_run(s, a, st) is Ok,
    ensures
        scan_shape(s, (s.len() + 1) as int, mp_run(s, a, st)->Ok_0),
        segs_wf(s, mp_run(s, a, st)->Ok_0.segs),
    decreases s.len() - a,
{
    lemma_mp_run_unfold(s, a, st);
    let b = a + run_len(s, a, not_slash_pred());
    lemma_run_len_props(s, a, not_slash_pred());
    if b == a {
        assert(s.subrange(a, b).len() == 0);
    }
    lemma_step_shape(s, st, a, b);
    lemma_step_wf(s, st, a, b);
    let st2 = mp_step(s, st, a, b)->Ok_0;
    if b < s.len() {
        lemma_run_shape(s, b + 1, st2);
    }
}

/// What a module path is made of: the empty path has no segments, any other has
/// segments that are not empty and that, joined with `/`, give the path back. The
/// last segment is not `node_modules`; once a `node_modules` segment has come, no
/// plain directory follows; each package segment follows a `node_modules` segment
/// and holds a valid package name.
pub proof fn law_module_path_segments(s: Seq<char>)
    requires
        is_module_path(s),
    ensures
        ({
            let segs = parse_module_path(s)->Ok_0;
            &&& (segs.len() == 0 <==> s.len() == 0)
            &&& forall|i: int| 0 <= i < segs.len() ==> (#[trigger] seg_text(s, segs, i)).len() > 0
            &&& join_segments(s, segs, segs.len() as int) == s
            &&& segs.len() > 0 ==> !(segs.last().0 is NodeModules)
            &&& forall|i: int, j: int| 0 <= i < j < segs.len() && (#[trigger] segs[i]).0 is NodeModules ==> !((#[trigger] segs[j]).0 is Arbitrary)
            &&& forall|i: int| 0 <= i < segs.len() && (#[trigger] segs[i]).0 is PackageName ==> i > 0
                && segs[i - 1].0 is NodeModules && is_package_name(seg_text(s, segs, i))
        }),
{
    let segs = parse_module_path(s)->Ok_0;
    if s.len() > 0 {
        let fin = mp_run(s, 0, mp_init())->Ok_0;
        lemma_segs_wf_empty(s);
        lemma_run_shape(s, 0, mp_init());
        assert(fin.segs == segs);
        assert forall|i: int| 0 <= i < segs.len() implies (#[trigger] seg_text(s, segs, i)).len() > 0 by {
            assert(seg_start(segs, i) < segs[i].1);
        }
        reveal_strlit("/");
        assert forall|k: int| 1 <= k <= segs.len() implies join_segments(s, segs, k) == s.subrange(0, segs[k - 1].1 as int) by {
            lemma_join_prefix(s, segs, k);
        }
        assert(s.subrange(0, s.len() as int) =~= s);
        assert forall|i: int| 0 <= i < segs.len() && (#[trigger] segs[i]).0 is PackageName implies i > 0
            && segs[i - 1].0 is NodeModules && is_package_name(seg_text(s, segs, i)) by {
            lemma_segs_wf_at(s, segs, i);
        }
    }
}

proof fn lemma_join_prefix(s: Seq<char>, segs: Seq<SegView>, k: int)
    requires
        1 <= k <= segs.len(),
        forall|i: int| 0 <= i < segs.len() ==> seg_start(segs, i) < #[trigger] segs[i].1 && segs[i].1 <= s.len(),
        forall|i: int| 0 <= i < segs.len() && #[trigger] segs[i].1 < s.len() ==> s[segs[i].1 as int] == '/',
    ensures
        join_segments(s, segs, k) == s.subrange(0, segs[k - 1].1 as int),
    decreases k,
{
    reveal_strlit("/");
    if k > 1 {
        lemma_join_prefix(s, segs, k - 1);
        let e = segs[k - 2].1 as int;
        assert(seg_start(segs, k - 1) == e + 1);
        assert(e < segs[k - 1].1);
        assert(s[e] == '/');
        assert(s.subrange(0, segs[k - 1].1 as int) =~= s.subrange(0, e) + "/"@ + s.subrange(e + 1, segs[k - 1].1 as int));
    }
}


/// The name that a path implies is a valid package name and ends the path; for a
/// path whose last segment is a package it is that package's name, and a path with
/// no segments implies none.
pub proof fn law_implied_name_ends_path(s: Seq<char>)
    requires
        is_module_path(s),
    ensures
        spec_implied_package_name(s) matches Some(n) ==> is_package_name(n) && n.len() <= s.len()
            && s.subrange(s.len() - n.len(), s.len() as int) == n,
        ({
            let segs = parse_module_path(s)->Ok_0;
            &&& segs.len() == 0 ==> spec_implied_package_name(s) is None
            &&& (segs.len() > 0 && segs.last().0 is PackageName) ==> spec_implied_package_name(s)
                == Some(seg_text(s, segs, segs.len() - 1))
        }),
{
    let segs = parse_module_path(s)->Ok_0;
    if s.len() > 0 {
        lemma_segs_wf_empty(s);
        lemma_run_shape(s, 0, mp_init());
        let n = segs.len() as int;
        assert(segs[n - 1].1 == s.len());
        lemma_segs_wf_at(s, segs, n - 1);
        match implied_name_text(s, segs) {
            Some(t) => {
                assert(t.len() <= s.len());
                assert(s.subrange(s.len() - t.len(), s.len() as int) =~= t);
            },
            None => {},
        }
    }
}


/// `r` is what `next` returns on an iterator at `index` over `p`: the segment at that
/// index, or nothing past the last one.
pub open spec fn next_result(p: ModulePath, index: nat, r: Option<ModulePathSegment>) -> bool {
    if index < p.segments().len() {
        r matches Some(seg) && seg.text() == seg_text(p@, p.segments(), index as int) && seg.has_kind(
            p.segments()[index as int].0,
        )
    } else {
        r is None
    }
}

/// The calls of `next` from `its[0]` on: call `i` takes `its[i]` to `its[i + 1]`
/// and returns `rs[i]`, as `next` states it.
pub open spec fn walk_steps<'a>(its: Seq<ModulePathIter<'a>>, rs: Seq<Option<ModulePathSegment<'a>>>) -> bool {
    &&& its.len() == rs.len() + 1
    &&& forall|j: int|
        #![trigger rs[j]]
        0 <= j < rs.len() ==> {
            &&& its[j + 1].path() == its[j].path()
            &&& match rs[j] {
                Some(seg) => {
                    &&& its[j].index() < its[j].path().segments().len()
                    &&& its[j + 1].index() == its[j].index() + 1
                    &&& seg.text() == seg_text(its[j].path()@, its[j].path().segments(), its[j].index() as int)
                    &&& seg.has_kind(its[j].path().segments()[its[j].index() as int].0)
                },
                None => {
                    &&& its[j].index() >= its[j].path().segments().len()
                    &&& its[j + 1].index() == its[j].index()
                },
            }
        }
}

/// Walking a path with a fresh iterator, call after call as `next` states each call:
/// the `i`-th call gives the `i`-th segment while there is one, and nothing on every
/// later call; the path is not changed, so every fresh walk gives the same results.
pub proof fn law_iteration_gives_segments<'a>(
    p: &'a ModulePath,
    its: Seq<ModulePathIter<'a>>,
    rs: Seq<Option<ModulePathSegment<'a>>>,
)
    requires
        its[0].path() == p,
        its[0].index() == 0,
        walk_steps(its, rs),
    ensures
        forall|i: int| 0 <= i < rs.len() ==> next_result(*p, i as nat, #[trigger] rs[i]),
        forall|i: int| 0 <= i < its.len() ==> (#[trigger] its[i]).path() == p,
{
    assert forall|i: int| 0 <= i < its.len() implies (#[trigger] its[i]).path() == p by {
        lemma_iter_index(p, its, rs, i);
    }
    assert forall|i: int| 0 <= i < rs.len() implies next_result(*p, i as nat, #[trigger] rs[i]) by {
        lemma_iter_index(p, its, rs, i);
        lemma_iter_index(p, its, rs, i + 1);
    }
}

proof fn lemma_iter_index<'a>(
    p: &'a ModulePath,
    its: Seq<ModulePathIter<'a>>,
    rs: Seq<Option<ModulePathSegment<'a>>>,
    i: int,
)
    requires
        its[0].path() == p,
        its[0].index() == 0,
        walk_steps(its, rs),
        0 <= i < its.len(),
    ensures
        its[i].path() == p,
        its[i].index() == (if i <= p.segments().len() { i } else { p.segments().len() as int }),
    decreases i,
{
    if i > 0 {
        lemma_iter_index(p, its, rs, i - 1);
        let r = rs[i - 1];
        assert(its[i].path() == its[i - 1].path());
    }
}

} // verus!
