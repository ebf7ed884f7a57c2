//! Source/version specifiers: what a dependency asks for, such as `^1.0.0`,
//! `npm:other@^2`, a tarball URL, a git URL or a GitHub slug.

use vstd::prelude::*;
use vstd::string::StrSliceExecFns;

use crate::error::Error;
use crate::name::{
    lemma_name_in_window, name_positions_wf, opt_str_view, package_name_at, package_name_at_exec,
    NamePos, PackageNameBorrowed, PackageNamePositions,
};
use crate::quirks::QuirksMode;
use crate::semver::{parse_range, semver_range_parses};
use crate::text::{
    chars_of, ends_with, ends_with_exec, has_at, has_at_exec, lemma_run_len_props,
    lemma_run_len_window, run_len, run_len_exec,
};

verus! {

/// Where the recognized parts of a specifier lie.
pub enum SvsPos {
    /// An npm version range, optionally `npm:`-prefixed and optionally naming
    /// another package (`npm:name@range`).
    Npm { type_prefix_end: nat, alias: Option<NamePos> },
    /// A named npm tag, like `latest`.
    NpmTag,
    /// A tarball URL.
    TarballURL,
    /// A git URL; for SSH addresses, the position of the separator before the path.
    Git { type_prefix_end: nat, path_sep: Option<nat> },
    /// A GitHub `owner/repo` slug.
    GitHub { type_prefix_end: nat },
}

pub open spec fn prefix_len(s: Seq<char>, i: int, p: Seq<char>) -> nat {
    if has_at(s, i, p) {
        p.len()
    } else {
        0
    }
}

/// Length of the `npm:` prefix, if there is one.
pub open spec fn npm_prefix_len(s: Seq<char>) -> nat {
    prefix_len(s, 0, "npm:"@)
}

/// The package name before `@`, when the specifier names one.
pub open spec fn npm_alias(s: Seq<char>) -> Option<NamePos> {
    let tp = npm_prefix_len(s);
    match package_name_at(s, tp as int) {
        Some(p) => if tp + p.total_length < s.len() && s[tp + p.total_length as int] == '@' {
            Some(p)
        } else {
            None
        },
        None => None,
    }
}

/// Where the version range begins.
pub open spec fn npm_range_start(s: Seq<char>) -> nat {
    npm_prefix_len(s) + match npm_alias(s) {
        Some(p) => p.total_length + 1,
        None => 0,
    }
}

/// The version range as written.
pub open spec fn npm_range_text(s: Seq<char>) -> Seq<char> {
    s.subrange(npm_range_start(s) as int, s.len() as int)
}

/// The string handed to the range parser: an empty range means any version.
pub open spec fn npm_range_input(s: Seq<char>) -> Seq<char> {
    if npm_range_text(s).len() == 0 {
        "*"@
    } else {
        npm_range_text(s)
    }
}

/// An npm range specifier, given whether its range parses.
pub open spec fn spec_npm(s: Seq<char>, range_parses: bool) -> Option<SvsPos> {
    if range_parses {
        Some(SvsPos::Npm { type_prefix_end: npm_prefix_len(s), alias: npm_alias(s) })
    } else {
        None
    }
}

pub open spec fn not_hash_pred() -> spec_fn(char) -> bool {
    |c: char| c != '#'
}

/// `[git+]http[s]://...[#...]`: a git URL when prefixed with `git+` or ending
/// in `.git`, else a tarball URL.
pub open spec fn spec_url(s: Seq<char>) -> Option<SvsPos> {
    let gp = prefix_len(s, 0, "git+"@) as int;
    if has_at(s, gp, "http"@) {
        let a = gp + "http"@.len();
        let b = if a < s.len() && s[a] == 's' {
            a + 1
        } else {
            a
        };
        if has_at(s, b, "://"@) {
            let c = b + "://"@.len();
            let u_end = c + run_len(s, c, not_hash_pred());
            if gp > 0 || ends_with(s.subrange(gp, u_end), ".git"@) {
                Some(SvsPos::Git { type_prefix_end: gp as nat, path_sep: None })
            } else {
                Some(SvsPos::TarballURL)
            }
        } else {
            None
        }
    } else {
        None
    }
}

pub open spec fn is_ascii_alnum(c: char) -> bool {
    ('a' <= c && c <= 'z') || ('A' <= c && c <= 'Z') || ('0' <= c && c <= '9')
}

pub open spec fn owner_pred() -> spec_fn(char) -> bool {
    |c: char| is_ascii_alnum(c) || c == '-'
}

pub open spec fn repo_pred() -> spec_fn(char) -> bool {
    |c: char| is_ascii_alnum(c) || c == '-' || c == '.' || c == '_'
}

/// `[github:]owner/repo[#...]`, where the repository name does not start with `.`.
pub open spec fn spec_github(s: Seq<char>) -> Option<SvsPos> {
    let gh = prefix_len(s, 0, "github:"@) as int;
    let o = run_len(s, gh, owner_pred());
    let slash = gh + o;
    let r0 = slash + 1;
    let rr = run_len(s, r0, repo_pred());
    let e = r0 + rr;
    if o > 0 && slash < s.len() && s[slash] == '/' && rr > 0 && s[r0] != '.' && (e == s.len()
        || s[e] == '#') {
        Some(SvsPos::GitHub { type_prefix_end: gh as nat })
    } else {
        None
    }
}

pub open spec fn host_pred() -> spec_fn(char) -> bool {
    |c: char| c != '/' && c != ':'
}

pub open spec fn digit_pred() -> spec_fn(char) -> bool {
    |c: char| '0' <= c && c <= '9'
}

/// Length of the `[git+]ssh://` prefix, if there is one.
pub open spec fn ssh_prefix_len(s: Seq<char>) -> nat {
    if has_at(s, 0, "git+ssh://"@) {
        "git+ssh://"@.len()
    } else {
        prefix_len(s, 0, "ssh://"@)
    }
}

/// Position of the separator between the host (with its optional `:port`) and the path.
pub open spec fn ssh_sep_pos(s: Seq<char>) -> int {
    let pl = ssh_prefix_len(s) as int;
    let q = pl + run_len(s, pl, host_pred());
    let d = run_len(s, q + 1, digit_pred());
    if q < s.len() && s[q] == ':' && d > 0 {
        q + 1 + d
    } else {
        q
    }
}

/// `[[git+]ssh://]host[:port](:|/)path[#...]`: accepted when prefixed or when the
/// path ends in `.git`.
pub open spec fn spec_ssh(s: Seq<char>) -> Option<SvsPos> {
    let pl = ssh_prefix_len(s);
    let n = ssh_sep_pos(s);
    if n < s.len() && (s[n] == ':' || s[n] == '/') {
        let u_end = n + 1 + run_len(s, n + 1, not_hash_pred());
        if pl > 0 || ends_with(s.subrange(n + 1, u_end), ".git"@) {
            Some(SvsPos::Git { type_prefix_end: pl, path_sep: Some(n as nat) })
        } else {
            None
        }
    } else {
        None
    }
}

/// Printable ASCII.
pub open spec fn tag_pred() -> spec_fn(char) -> bool {
    |c: char| (c as u32) < 128 && !((c as u32) < 32 || (c as u32) == 127)
}

/// Anything else made of printable ASCII is taken as an npm tag.
pub open spec fn spec_npm_tag(s: Seq<char>) -> Option<SvsPos> {
    if run_len(s, 0, tag_pred()) == s.len() {
        Some(SvsPos::NpmTag)
    } else {
        None
    }
}

/// yarn v1 reads `ssh://git@host:path.git` as an npm tag, so under its quirks an
/// SSH address must separate the path with `/`.
pub open spec fn ssh_allowed(s: Seq<char>, quirks: Option<QuirksMode>, pos: SvsPos) -> bool {
    quirks != Some(QuirksMode::Yarn(1)) || match pos {
        SvsPos::Git { path_sep: Some(o), .. } => s[o as int] == '/',
        _ => true,
    }
}

/// The kinds are tried in order: npm range, URL, GitHub slug, SSH address, npm tag.
pub open spec fn classify_svs(s: Seq<char>, quirks: Option<QuirksMode>, range_parses: bool) -> Option<
    SvsPos,
> {
    if spec_npm(s, range_parses) is Some {
        spec_npm(s, range_parses)
    } else if spec_url(s) is Some {
        spec_url(s)
    } else if spec_github(s) is Some {
        spec_github(s)
    } else if spec_ssh(s) is Some && ssh_allowed(s, quirks, spec_ssh(s).unwrap()) {
        spec_ssh(s)
    } else {
        spec_npm_tag(s)
    }
}

/// How the specifier `s` is read, with the range parser's verdict on its range.
pub open spec fn parse_svs(s: Seq<char>, quirks: Option<QuirksMode>) -> Option<SvsPos> {
    classify_svs(s, quirks, semver_range_parses(npm_range_input(s)))
}

/// The positions are those of a specifier of their kind within `s`.
pub open spec fn svs_wf(s: Seq<char>, pos: SvsPos) -> bool {
    match pos {
        SvsPos::Npm { type_prefix_end, alias } => type_prefix_end == npm_prefix_len(s) && alias
            == npm_alias(s),
        SvsPos::Git { type_prefix_end, path_sep } => type_prefix_end <= s.len() && match path_sep {
            Some(o) => o < s.len(),
            None => true,
        },
        SvsPos::GitHub { type_prefix_end } => type_prefix_end <= s.len(),
        _ => true,
    }
}

/// The aliased package name of an npm specifier.
pub open spec fn spec_aliased_name(s: Seq<char>, pos: SvsPos) -> Option<Seq<char>> {
    match pos {
        SvsPos::Npm { type_prefix_end, alias: Some(p) } => Some(
            s.subrange(type_prefix_end as int, type_prefix_end + p.total_length as int),
        ),
        _ => None,
    }
}

/// The range of an npm specifier, as written.
pub open spec fn spec_range_str(s: Seq<char>, pos: SvsPos) -> Option<Seq<char>> {
    match pos {
        SvsPos::Npm { .. } => Some(npm_range_text(s)),
        _ => None,
    }
}

/// The separator before the path of an SSH git address.
pub open spec fn spec_ssh_path_sep(s: Seq<char>, pos: SvsPos) -> Option<Seq<char>> {
    match pos {
        SvsPos::Git { path_sep: Some(o), .. } => Some(s.subrange(o as int, o + 1 as int)),
        _ => None,
    }
}

/// Executable positions of a specifier.
#[derive(Debug, Clone, Copy)]
enum SourceVersionSpecifierPositions {
    Npm { type_prefix_end: usize, alias_package_name: Option<PackageNamePositions> },
    NpmTag,
    TarballURL,
    Git { type_prefix_end: usize, pre_path_sep_offset: Option<usize> },
    GitHub { type_prefix_end: usize },
}

impl SourceVersionSpecifierPositions {
    spec fn pos(self) -> SvsPos {
        match self {
            SourceVersionSpecifierPositions::Npm { type_prefix_end, alias_package_name } => {
                SvsPos::Npm {
                    type_prefix_end: type_prefix_end as nat,
                    alias: match alias_package_name {
                        Some(p) => Some(p.pos()),
                        None => None,
                    },
                }
            },
            SourceVersionSpecifierPositions::NpmTag => SvsPos::NpmTag,
            SourceVersionSpecifierPositions::TarballURL => SvsPos::TarballURL,
            SourceVersionSpecifierPositions::Git { type_prefix_end, pre_path_sep_offset } => {
                SvsPos::Git {
                    type_prefix_end: type_prefix_end as nat,
                    path_sep: match pre_path_sep_offset {
                        Some(o) => Some(o as nat),
                        None => None,
                    },
                }
            },
            SourceVersionSpecifierPositions::GitHub { type_prefix_end } => SvsPos::GitHub {
                type_prefix_end: type_prefix_end as nat,
            },
        }
    }
}

fn not_hash_char_exec(c: char) -> (b: bool)
    ensures
        b == not_hash_pred()(c),
{
    c != '#'
}

fn owner_char_exec(c: char) -> (b: bool)
    ensures
        b == owner_pred()(c),
{
    is_ascii_alnum_exec(c) || c == '-'
}

fn repo_char_exec(c: char) -> (b: bool)
    ensures
        b == repo_pred()(c),
{
    is_ascii_alnum_exec(c) || c == '-' || c == '.' || c == '_'
}

fn host_char_exec(c: char) -> (b: bool)
    ensures
        b == host_pred()(c),
{
    c != '/' && c != ':'
}

fn digit_char_exec(c: char) -> (b: bool)
    ensures
        b == digit_pred()(c),
{
    '0' <= c && c <= '9'
}

fn tag_char_exec(c: char) -> (b: bool)
    ensures
        b == tag_pred()(c),
{
    (c as u32) < 128 && !((c as u32) < 32 || (c as u32) == 127)
}

fn prefix_len_exec(v: &Vec<char>, i: usize, lit: &str) -> (n: usize)
    requires
        i <= v.len(),
    ensures
        n == prefix_len(v@, i as int, lit@),
        i + n <= v.len(),
{
    if has_at_exec(v, i, lit) {
        lit.unicode_len()
    } else {
        0
    }
}

pub(crate) fn npm_prefix_len_exec(v: &Vec<char>) -> (n: usize)
    ensures
        n == npm_prefix_len(v@),
        n <= v.len(),
{
    prefix_len_exec(v, 0, "npm:")
}

/// Executable [`spec_url`]: whether it is a git URL, and its prefix length.
pub(crate) fn url_kind_exec(v: &Vec<char>) -> (r: Option<(bool, usize)>)
    ensures
        match r {
            Some((true, tp)) => spec_url(v@) == Some(
                SvsPos::Git { type_prefix_end: tp as nat, path_sep: None },
            ),
            Some((false, _)) => spec_url(v@) == Some(SvsPos::TarballURL),
            None => spec_url(v@) is None,
        },
{
    match url_exec(v) {
        Some(SourceVersionSpecifierPositions::Git { type_prefix_end, .. }) => Some(
            (true, type_prefix_end),
        ),
        Some(_) => Some((false, 0)),
        None => None,
    }
}

/// Executable [`spec_github`]: its prefix length.
pub(crate) fn github_prefix_exec(v: &Vec<char>) -> (r: Option<usize>)
    ensures
        match r {
            Some(tp) => spec_github(v@) == Some(SvsPos::GitHub { type_prefix_end: tp as nat }),
            None => spec_github(v@) is None,
        },
{
    match github_exec(v) {
        Some(SourceVersionSpecifierPositions::GitHub { type_prefix_end }) => Some(type_prefix_end),
        _ => None,
    }
}

fn npm_alias_exec(v: &Vec<char>) -> (r: (usize, Option<PackageNamePositions>))
    ensures
        r.0 == npm_prefix_len(v@),
        match r.1 {
            Some(p) => npm_alias(v@) == Some(p.pos()),
            None => npm_alias(v@) is None,
        },
{
    let tp = prefix_len_exec(v, 0, "npm:");
    match package_name_at_exec(v, tp) {
        Some(p) => {
            if tp + p.total_length < v.len() && v[tp + p.total_length] == '@' {
                (tp, Some(p))
            } else {
                (tp, None)
            }
        },
        None => (tp, None),
    }
}

fn url_exec(v: &Vec<char>) -> (r: Option<SourceVersionSpecifierPositions>)
    ensures
        match r {
            Some(p) => spec_url(v@) == Some(p.pos()),
            None => spec_url(v@) is None,
        },
{
    let gp = prefix_len_exec(v, 0, "git+");
    if !has_at_exec(v, gp, "http") {
        return None;
    }
    let a = gp + "http".unicode_len();
    let b = if a < v.len() && v[a] == 's' {
        a + 1
    } else {
        a
    };
    if !has_at_exec(v, b, "://") {
        return None;
    }
    let c = b + "://".unicode_len();
    let k = run_len_exec(
        v,
        c,
        not_hash_char_exec,
        Ghost(not_hash_pred()),
    );
    let u_end = c + k;
    if gp > 0 || ends_with_exec(v, gp, u_end, ".git") {
        Some(SourceVersionSpecifierPositions::Git { type_prefix_end: gp, pre_path_sep_offset: None })
    } else {
        Some(SourceVersionSpecifierPositions::TarballURL)
    }
}

fn is_ascii_alnum_exec(c: char) -> (b: bool)
    ensures
        b == is_ascii_alnum(c),
{
    ('a' <= c && c <= 'z') || ('A' <= c && c <= 'Z') || ('0' <= c && c <= '9')
}

fn github_exec(v: &Vec<char>) -> (r: Option<SourceVersionSpecifierPositions>)
    ensures
        match r {
            Some(p) => spec_github(v@) == Some(p.pos()),
            None => spec_github(v@) is None,
        },
{
    let gh = prefix_len_exec(v, 0, "github:");
    let o = run_len_exec(
        v,
        gh,
        owner_char_exec,
        Ghost(owner_pred()),
    );
    let slash = gh + o;
    if o == 0 || slash >= v.len() || v[slash] != '/' {
        return None;
    }
    let r0 = slash + 1;
    let rr = run_len_exec(
        v,
        r0,
        repo_char_exec,
        Ghost(repo_pred()),
    );
    let e = r0 + rr;
    if rr > 0 && v[r0] != '.' && (e == v.len() || v[e] == '#') {
        Some(SourceVersionSpecifierPositions::GitHub { type_prefix_end: gh })
    } else {
        None
    }
}

fn ssh_exec(v: &Vec<char>) -> (r: Option<SourceVersionSpecifierPositions>)
    ensures
        match r {
            Some(p) => spec_ssh(v@) == Some(p.pos()),
            None => spec_ssh(v@) is None,
        },
{
    let pl = if has_at_exec(v, 0, "git+ssh://") {
        "git+ssh://".unicode_len()
    } else {
        prefix_len_exec(v, 0, "ssh://")
    };
    let h = run_len_exec(
        v,
        pl,
        host_char_exec,
        Ghost(host_pred()),
    );
    let q = pl + h;
    let n = if q < v.len() && v[q] == ':' {
        let d = run_len_exec(
            v,
            q + 1,
            digit_char_exec,
            Ghost(digit_pred()),
        );
        if d > 0 {
            q + 1 + d
        } else {
            q
        }
    } else {
        q
    };
    assert(n == ssh_sep_pos(v@));
    if n < v.len() && (v[n] == ':' || v[n] == '/') {
        let k = run_len_exec(
            v,
            n + 1,
            not_hash_char_exec,
            Ghost(not_hash_pred()),
        );
        let u_end = n + 1 + k;
        if pl > 0 || ends_with_exec(v, n + 1, u_end, ".git") {
            Some(
                SourceVersionSpecifierPositions::Git {
                    type_prefix_end: pl,
                    pre_path_sep_offset: Some(n),
                },
            )
        } else {
            None
        }
    } else {
        None
    }
}

fn npm_tag_exec(v: &Vec<char>) -> (r: bool)
    ensures
        r == (spec_npm_tag(v@) is Some),
{
    let k = run_len_exec(
        v,
        0,
        tag_char_exec,
        Ghost(tag_pred()),
    );
    k == v.len()
}

proof fn lemma_classified_wf(s: Seq<char>, quirks: Option<QuirksMode>, range_parses: bool)
    requires
        classify_svs(s, quirks, range_parses) is Some,
    ensures
        svs_wf(s, classify_svs(s, quirks, range_parses).unwrap()),
{
    let gp = prefix_len(s, 0, "git+"@) as int;
    if spec_url(s) is Some {
        assert(has_at(s, gp, "http"@));
    }
    if spec_github(s) is Some {
        let gh = prefix_len(s, 0, "github:"@) as int;
        lemma_run_len_props(s, 0, owner_pred());
    }
}

/// The range text of an npm specifier, from the string and its range start.
fn range_start_exec(v: &Vec<char>, tp: usize, alias: Option<PackageNamePositions>) -> (r: usize)
    requires
        tp == npm_prefix_len(v@),
        match alias {
            Some(p) => npm_alias(v@) == Some(p.pos()),
            None => npm_alias(v@) is None,
        },
    ensures
        r == npm_range_start(v@),
        r <= v.len(),
{
    match alias {
        Some(p) => {
            assert(tp + p.total_length < v.len());
            tp + p.total_length + 1
        },
        None => tp,
    }
}

/// Source/version specifier. It is a constraint defined by a specific dependency,
/// and is used by package managers to choose a specific package source.
#[derive(Debug)]
pub struct SourceVersionSpecifier {
    inner: String,
    positions: SourceVersionSpecifierPositions,
}

/// The kind of a [`SourceVersionSpecifier`].
#[derive(Debug, Clone, Copy, PartialEq, Eq)]
#[non_exhaustive]
pub enum SourceVersionSpecifierKind {
    /// Package from an npm registry. Does not include tags.
    Npm,
    /// Named tag from an npm registry, e.g. "latest", "beta".
    NpmTag,
    /// Arbitrary tarball URL.
    TarballURL,
    /// Git repository.
    Git,
    /// GitHub repository slug.
    GitHub,
}

impl View for SourceVersionSpecifier {
    type V = Seq<char>;

    closed spec fn view(&self) -> Seq<char> {
        self.inner@
    }
}

impl Clone for SourceVersionSpecifier {
    fn clone(&self) -> (r: SourceVersionSpecifier)
        ensures
            r@ == self@,
            r.positions() == self.positions(),
    {
        proof {
            use_type_invariant(self);
        }
        SourceVersionSpecifier { inner: self.inner.clone(), positions: self.positions }
    }
}

impl SourceVersionSpecifier {
    #[verifier::type_invariant]
    closed spec fn inv(self) -> bool {
        &&& svs_wf(self.inner@, self.positions.pos())
        &&& self.inner@.len() <= usize::MAX
    }

    /// How this specifier was read.
    pub closed spec fn positions(self) -> SvsPos {
        self.positions.pos()
    }

    /// Reads `svs` under `quirks`, given whether its npm range (see
    /// [`npm_range_input`]) is accepted by the range parser.
    pub fn classify(svs: String, quirks: Option<QuirksMode>, range_parses: bool) -> (r: Result<
        SourceVersionSpecifier,
        Error,
    >)
        ensures
            match r {
                Ok(x) => x@ == svs@ && classify_svs(svs@, quirks, range_parses) == Some(
                    x.positions(),
                ),
                Err(e) => e == Error::InvalidSVS(svs) && classify_svs(svs@, quirks, range_parses)
                    is None,
            },
    {
        let v = chars_of(svs.as_str());
        let (tp, alias) = npm_alias_exec(&v);
        let positions = if range_parses {
            SourceVersionSpecifierPositions::Npm { type_prefix_end: tp, alias_package_name: alias }
        } else if let Some(p) = url_exec(&v) {
            p
        } else if let Some(p) = github_exec(&v) {
            p
        } else {
            let ssh = ssh_exec(&v);
            let ssh_ok = match ssh {
                Some(SourceVersionSpecifierPositions::Git {
                    pre_path_sep_offset: Some(o),
                    ..
                }) => quirks != Some(QuirksMode::Yarn(1)) || v[o] == '/',
                _ => true,
            };
            match ssh {
                Some(p) if ssh_ok => p,
                _ => {
                    if npm_tag_exec(&v) {
                        SourceVersionSpecifierPositions::NpmTag
                    } else {
                        return Err(Error::InvalidSVS(svs));
                    }
                },
            }
        };
        proof {
            lemma_classified_wf(svs@, quirks, range_parses);
        }
        Ok(SourceVersionSpecifier { inner: svs, positions })
    }

    fn parse(svs: String, quirks: Option<QuirksMode>) -> (r: Result<SourceVersionSpecifier, Error>)
        ensures
            match r {
                Ok(x) => x@ == svs@ && parse_svs(svs@, quirks) == Some(x.positions()),
                Err(e) => e == Error::InvalidSVS(svs) && parse_svs(svs@, quirks) is None,
            },
    {
        let v = chars_of(svs.as_str());
        let (tp, alias) = npm_alias_exec(&v);
        let start = range_start_exec(&v, tp, alias);
        let range_ok = if start == v.len() {
            parse_range("*").is_ok()
        } else {
            parse_range(svs.as_str().substring_char(start, v.len())).is_ok()
        };
        Self::classify(svs, quirks, range_ok)
    }

    /// Reads a specifier.
    pub fn new(svs: String) -> (r: Result<SourceVersionSpecifier, Error>)
        ensures
            match r {
                Ok(x) => x@ == svs@ && parse_svs(svs@, None) == Some(x.positions()),
                Err(e) => e == Error::InvalidSVS(svs) && parse_svs(svs@, None) is None,
            },
    {
        Self::parse(svs, None)
    }

    /// Reads a specifier the way the given package manager does.
    pub fn with_quirks(svs: String, quirks: QuirksMode) -> (r: Result<SourceVersionSpecifier, Error>)
        ensures
            match r {
                Ok(x) => x@ == svs@ && parse_svs(svs@, Some(quirks)) == Some(x.positions()),
                Err(e) => e == Error::InvalidSVS(svs) && parse_svs(svs@, Some(quirks)) is None,
            },
    {
        Self::parse(svs, Some(quirks))
    }

    pub fn as_str(&self) -> (r: &str)
        ensures
            r@ == self@,
    {
        self.inner.as_str()
    }

    /// Whether the specifier chooses an npm version range (not a tag).
    pub fn is_npm(&self) -> (b: bool)
        ensures
            b == (self.positions() is Npm),
    {
        matches!(self.positions, SourceVersionSpecifierPositions::Npm { .. })
    }

    /// Whether the specifier chooses an npm tag.
    pub fn is_npm_tag(&self) -> (b: bool)
        ensures
            b == (self.positions() is NpmTag),
    {
        matches!(self.positions, SourceVersionSpecifierPositions::NpmTag)
    }

    /// Whether the specifier chooses an arbitrary tarball URL.
    pub fn is_tar(&self) -> (b: bool)
        ensures
            b == (self.positions() is TarballURL),
    {
        matches!(self.positions, SourceVersionSpecifierPositions::TarballURL)
    }

    /// Whether the specifier chooses a git repository (not a GitHub slug).
    pub fn is_git(&self) -> (b: bool)
        ensures
            b == (self.positions() is Git),
    {
        matches!(self.positions, SourceVersionSpecifierPositions::Git { .. })
    }

    /// Whether the specifier is a GitHub slug.
    pub fn is_github(&self) -> (b: bool)
        ensures
            b == (self.positions() is GitHub),
    {
        matches!(self.positions, SourceVersionSpecifierPositions::GitHub { .. })
    }

    pub fn kind(&self) -> (k: SourceVersionSpecifierKind)
        ensures
            k == match self.positions() {
                SvsPos::Npm { .. } => SourceVersionSpecifierKind::Npm,
                SvsPos::NpmTag => SourceVersionSpecifierKind::NpmTag,
                SvsPos::TarballURL => SourceVersionSpecifierKind::TarballURL,
                SvsPos::Git { .. } => SourceVersionSpecifierKind::Git,
                SvsPos::GitHub { .. } => SourceVersionSpecifierKind::GitHub,
            },
    {
        match self.positions {
            SourceVersionSpecifierPositions::Npm { .. } => SourceVersionSpecifierKind::Npm,
            SourceVersionSpecifierPositions::NpmTag => SourceVersionSpecifierKind::NpmTag,
            SourceVersionSpecifierPositions::TarballURL => SourceVersionSpecifierKind::TarballURL,
            SourceVersionSpecifierPositions::Git { .. } => SourceVersionSpecifierKind::Git,
            SourceVersionSpecifierPositions::GitHub { .. } => SourceVersionSpecifierKind::GitHub,
        }
    }

    /// Package name under which an npm specifier aliases another package, as in
    /// `npm:@chastelock/lodash-fork@^4.1.0`.
    pub fn aliased_package_name(&self) -> (r: Option<PackageNameBorrowed<'_>>)
        ensures
            match r {
                Some(n) => spec_aliased_name(self@, self.positions()) == Some(n@),
                None => spec_aliased_name(self@, self.positions()) is None,
            },
    {
        proof {
            use_type_invariant(self);
        }
        match self.positions {
            SourceVersionSpecifierPositions::Npm {
                type_prefix_end,
                alias_package_name: Some(p),
            } => {
                assert(type_prefix_end + p.total_length < self.inner@.len());
                let sub = self.inner.as_str().substring_char(
                    type_prefix_end,
                    type_prefix_end + p.total_length,
                );
                proof {
                    lemma_name_in_window(self.inner@, type_prefix_end as int, p);
                }
                Some(PackageNameBorrowed::from_valid(sub, p))
            },
            _ => None,
        }
    }

    /// The version range of an npm specifier, as written.
    pub fn npm_range_str(&self) -> (r: Option<&str>)
        ensures
            opt_str_view(r) == spec_range_str(self@, self.positions()),
    {
        proof {
            use_type_invariant(self);
        }
        match self.positions {
            SourceVersionSpecifierPositions::Npm { type_prefix_end, alias_package_name } => {
                let v = chars_of(self.inner.as_str());
                let start = range_start_exec(&v, type_prefix_end, alias_package_name);
                Some(self.inner.as_str().substring_char(start, v.len()))
            },
            _ => None,
        }
    }

    /// The version range of an npm specifier, parsed (an empty range means any
    /// version); `None` for other kinds, or when the range parser refuses it.
    pub fn npm_range(&self) -> (r: Option<nodejs_semver::Range>)
        ensures
            r is Some <==> (self.positions() is Npm && semver_range_parses(npm_range_input(self@))),
    {
        match self.npm_range_str() {
            Some(text) => {
                let parsed = if text.unicode_len() == 0 {
                    parse_range("*")
                } else {
                    parse_range(text)
                };
                match parsed {
                    Ok(range) => Some(range),
                    Err(_) => None,
                }
            },
            None => None,
        }
    }

    /// For Git over SSH, the separator between the server and the path: `:` or `/`.
    pub fn ssh_path_sep(&self) -> (r: Option<&str>)
        ensures
            opt_str_view(r) == spec_ssh_path_sep(self@, self.positions()),
    {
        proof {
            use_type_invariant(self);
        }
        match self.positions {
            SourceVersionSpecifierPositions::Git { pre_path_sep_offset: Some(o), .. } => {
                assert(o < self.inner@.len());
                Some(self.inner.as_str().substring_char(o, o + 1))
            },
            _ => None,
        }
    }
}


/// Reading a specifier the way a package manager does changes the reading only in
/// one case: yarn 1 does not take an SSH address whose path follows a `:`, and reads
/// it as an npm tag instead, and it always does so with such an address. Every other
/// specifier is read as [`parse_svs`] without quirks reads it.
pub proof fn law_quirks_change_only_colon_ssh(s: Seq<char>, q: QuirksMode)
    ensures
        parse_svs(s, Some(q)) != parse_svs(s, None) ==> {
            &&& q == QuirksMode::Yarn(1)
            &&& parse_svs(s, None) == spec_ssh(s)
            &&& spec_ssh(s) matches Some(SvsPos::Git { path_sep: Some(o), .. })
            &&& s[o as int] != '/'
            &&& parse_svs(s, Some(q)) == spec_npm_tag(s)
        },
        ({
            &&& q == QuirksMode::Yarn(1)
            &&& spec_npm(s, semver_range_parses(npm_range_input(s))) is None
            &&& spec_url(s) is None
            &&& spec_github(s) is None
            &&& spec_ssh(s) matches Some(SvsPos::Git { path_sep: Some(o), .. })
            &&& s[o as int] != '/'
        }) ==> parse_svs(s, None) == spec_ssh(s) && parse_svs(s, Some(q)) == spec_npm_tag(s),
{
}

/// The text of an npm specifier is, in order: the `npm:` prefix or nothing, the
/// aliased package name and `@` or nothing, and the range. Only an npm specifier has
/// a range or an alias.
pub proof fn law_npm_range_decomposition(s: Seq<char>, q: Option<QuirksMode>, pos: SvsPos)
    requires
        parse_svs(s, q) == Some(pos),
    ensures
        spec_range_str(s, pos) is Some <==> pos is Npm,
        spec_aliased_name(s, pos) is Some ==> pos is Npm,
        spec_range_str(s, pos) matches Some(r) ==> {
            let p = s.subrange(0, npm_prefix_len(s) as int);
            let a = match spec_aliased_name(s, pos) {
                Some(n) => n + "@"@,
                None => Seq::<char>::empty(),
            };
            &&& (p == Seq::<char>::empty() || p == "npm:"@)
            &&& s == p + a + r
        },
{
    if pos is Npm {
        reveal_strlit("@");
        reveal_strlit("npm:");
        assert(spec_npm(s, semver_range_parses(npm_range_input(s))) == Some(pos));
        let tp = npm_prefix_len(s) as int;
        let p = s.subrange(0, tp);
        let r = npm_range_text(s);
        if !has_at(s, 0, "npm:"@) {
            assert(p =~= Seq::<char>::empty());
        }
        match npm_alias(s) {
            Some(np) => {
                let l = np.total_length as int;
                let a = s.subrange(tp, tp + l) + "@"@;
                assert(s.subrange(tp, tp + l + 1) =~= a);
                assert(s =~= p + a + r);
            },
            None => {
                assert(s =~= p + Seq::<char>::empty() + r);
            },
        }
    }
}

} // verus!
