//! The `"resolutions"` field of a yarn project: overrides of dependency
//! specifiers, optionally limited to dependencies of a given parent.

use vstd::prelude::*;
use vstd::string::StrSliceExecFns;

use crate::name::{package_name_at, package_name_at_exec};
use crate::text::{
    lemma_seq_lt_total,
    chars_of, ends_with, ends_with_exec, has_at, has_at_exec, lemma_seq_lt_trans, run_len,
    run_len_exec, seq_lt, str_eq, str_lt,
};
use crate::yarn::Error;

verus! {

pub open spec fn spec_char_pred() -> spec_fn(char) -> bool {
    |c: char| c != '/' && c != '@'
}

fn spec_char_exec(c: char) -> (b: bool)
    ensures
        b == spec_char_pred()(c),
{
    c != '/' && c != '@'
}

/// Where a selector `name[@specifier]` lies.
pub struct SelPos {
    pub start: nat,
    pub name_end: nat,
    /// Bounds of the specifier, after `@`.
    pub svs: Option<(nat, nat)>,
}

pub open spec fn sel_end(p: SelPos) -> nat {
    match p.svs {
        Some((_, e)) => e,
        None => p.name_end,
    }
}

/// The selector at `i`: a package name, then `@` and a non-empty specifier that
/// stops before `/` or `@`, if there is one.
pub open spec fn selector_at(s: Seq<char>, i: int) -> Option<SelPos> {
    match package_name_at(s, i) {
        None => None,
        Some(p) => {
            let e = i + p.total_length;
            let k = run_len(s, e + 1, spec_char_pred());
            if e < s.len() && s[e] == '@' && k > 0 {
                Some(SelPos { start: i as nat, name_end: e as nat, svs: Some(((e + 1) as nat, (e + 1 + k) as nat)) })
            } else {
                Some(SelPos { start: i as nat, name_end: e as nat, svs: None })
            }
        },
    }
}

/// A resolution key: `selector` or `parent/selector`, taking the whole string.
pub open spec fn parse_resolution_key(s: Seq<char>) -> Option<(Option<SelPos>, SelPos)> {
    match selector_at(s, 0) {
        None => None,
        Some(a) => {
            let e = sel_end(a) as int;
            let second = if e < s.len() && s[e] == '/' {
                selector_at(s, e + 1)
            } else {
                None
            };
            match second {
                Some(b) => if sel_end(b) == s.len() {
                    Some((Some(a), b))
                } else {
                    None
                },
                None => if e == s.len() {
                    Some((None, a))
                } else {
                    None
                },
            }
        },
    }
}

/// The key as text, selector first, then the parent it is limited to.
pub open spec fn parsed_key(s: Seq<char>) -> Option<(SelView, Option<SelView>)> {
    match parse_resolution_key(s) {
        Some((pa, sel)) => Some(
            (
                sel_view(s, sel),
                match pa {
                    Some(x) => Some(sel_view(s, x)),
                    None => None,
                },
            ),
        ),
        None => None,
    }
}

/// A selector as text: the package name and the specifier.
pub type SelView = (Seq<char>, Option<Seq<char>>);

pub open spec fn sel_view(s: Seq<char>, p: SelPos) -> SelView {
    (
        s.subrange(p.start as int, p.name_end as int),
        match p.svs {
            Some((a, b)) => Some(s.subrange(a as int, b as int)),
            None => None,
        },
    )
}

/// Selects a dependency by package name and, optionally, by specifier.
#[derive(Debug, Clone, Copy, PartialEq, Eq)]
pub struct ResolutionSelector<'a> {
    pub name: &'a str,
    pub svs: Option<&'a str>,
}

impl<'a> ResolutionSelector<'a> {
    pub open spec fn view_sel(self) -> SelView {
        (
            self.name@,
            match self.svs {
                Some(s) => Some(s@),
                None => None,
            },
        )
    }
}

pub open spec fn opt_sel_view(o: Option<ResolutionSelector>) -> Option<SelView> {
    match o {
        Some(s) => Some(s.view_sel()),
        None => None,
    }
}

/// A parsed resolution key.
pub struct ResolutionKey<'a> {
    /// When present, the resolution only applies to dependencies of this parent.
    pub parent: Option<ResolutionSelector<'a>>,
    pub selector: ResolutionSelector<'a>,
}

fn selector_at_exec<'a>(s: &'a str, v: &Vec<char>, i: usize) -> (r: Option<
    (ResolutionSelector<'a>, usize),
>)
    requires
        v@ == s@,
        i <= v.len(),
    ensures
        match r {
            Some((sel, e)) => selector_at(v@, i as int) matches Some(p) && sel.view_sel()
                == sel_view(v@, p) && e == sel_end(p) && e <= v.len(),
            None => selector_at(v@, i as int) is None,
        },
{
    match package_name_at_exec(v, i) {
        None => None,
        Some(p) => {
            let e = i + p.total_length;
            let name = s.substring_char(i, e);
            if e < v.len() && v[e] == '@' {
                let k = run_len_exec(v, e + 1, spec_char_exec, Ghost(spec_char_pred()));
                if k > 0 {
                    let svs = s.substring_char(e + 1, e + 1 + k);
                    return Some((ResolutionSelector { name, svs: Some(svs) }, e + 1 + k));
                }
            }
            Some((ResolutionSelector { name, svs: None }, e))
        },
    }
}

impl<'a> ResolutionKey<'a> {
    pub open spec fn view_key(self) -> (Option<SelView>, SelView) {
        (opt_sel_view(self.parent), self.selector.view_sel())
    }

    /// Parses `selector` or `parent/selector`, where a selector is a package name
    /// optionally followed by `@` and a specifier.
    pub fn parse(input: &'a str) -> (r: Result<ResolutionKey<'a>, Error>)
        ensures
            match r {
                Ok(k) => parse_resolution_key(input@) matches Some((pa, sel)) && k.view_key() == (
                    match pa {
                        Some(x) => Some(sel_view(input@, x)),
                        None => None,
                    },
                    sel_view(input@, sel),
                ),
                Err(e) => e matches Error::InvalidResolution(t) && t@ == input@ && parse_resolution_key(
                    input@,
                ) is None,
            },
    {
        let v = chars_of(input);
        match selector_at_exec(input, &v, 0) {
            None => Err(Error::InvalidResolution(input.to_owned())),
            Some((first, e)) => {
                if e < v.len() && v[e] == '/' {
                    if let Some((second, e2)) = selector_at_exec(input, &v, e + 1) {
                        if e2 == v.len() {
                            return Ok(ResolutionKey { parent: Some(first), selector: second });
                        } else {
                            return Err(Error::InvalidResolution(input.to_owned()));
                        }
                    }
                }
                if e == v.len() {
                    Ok(ResolutionKey { parent: None, selector: first })
                } else {
                    Err(Error::InvalidResolution(input.to_owned()))
                }
            },
        }
    }
}

/// `None` sorts before any string.
pub open spec fn opt_lt(a: Option<Seq<char>>, b: Option<Seq<char>>) -> bool {
    match (a, b) {
        (None, Some(_)) => true,
        (Some(x), Some(y)) => seq_lt(x, y),
        _ => false,
    }
}

pub open spec fn sel_lt(a: SelView, b: SelView) -> bool {
    seq_lt(a.0, b.0) || (a.0 == b.0 && opt_lt(a.1, b.1))
}

pub open spec fn opt_sel_lt(a: Option<SelView>, b: Option<SelView>) -> bool {
    match (a, b) {
        (None, Some(_)) => true,
        (Some(x), Some(y)) => sel_lt(x, y),
        _ => false,
    }
}

/// A stored resolution: the selector, the parent, and the replacement specifier.
pub type EntryView = (SelView, Option<SelView>, Seq<char>);

/// Order of resolution keys: by selector, then by parent, with no parent first.
pub open spec fn key_lt(a: EntryView, b: EntryView) -> bool {
    sel_lt(a.0, b.0) || (a.0 == b.0 && opt_sel_lt(a.1, b.1))
}

pub proof fn lemma_key_lt_trans(a: EntryView, b: EntryView, c: EntryView)
    requires
        key_lt(a, b),
        key_lt(b, c),
    ensures
        key_lt(a, c),
{
    if seq_lt(a.0.0, b.0.0) && seq_lt(b.0.0, c.0.0) {
        lemma_seq_lt_trans(a.0.0, b.0.0, c.0.0);
    }
    if let (Some(x), Some(y), Some(z)) = (a.0.1, b.0.1, c.0.1) {
        if seq_lt(x, y) && seq_lt(y, z) {
            lemma_seq_lt_trans(x, y, z);
        }
    }
    if let (Some(x), Some(y), Some(z)) = (a.1, b.1, c.1) {
        if seq_lt(x.0, y.0) && seq_lt(y.0, z.0) {
            lemma_seq_lt_trans(x.0, y.0, z.0);
        }
        if let (Some(p), Some(q), Some(r)) = (x.1, y.1, z.1) {
            if seq_lt(p, q) && seq_lt(q, r) {
                lemma_seq_lt_trans(p, q, r);
            }
        }
    }
}

/// Whether a specifier as the user wrote it (`one`) names the same thing as one
/// written into the lockfile (`other`): equal, equal after an `npm:` prefix, or
/// equal before the last `::` that starts added parameters.
pub open spec fn spec_is_same_svs(one: Seq<char>, other: Seq<char>) -> bool {
    ||| one == other
    ||| (has_at(other, 0, "npm:"@) && one == other.subrange("npm:"@.len() as int, other.len() as int))
    ||| (exists|i: int|
        #![trigger other.subrange(0, i)]
        has_at(other, i, "::"@) && (forall|j: int| i < j ==> !has_at(other, j, "::"@)) && one
            == other.subrange(0, i))
}

/// The last index where `::` occurs.
fn last_double_colon(v: &Vec<char>) -> (r: Option<usize>)
    ensures
        match r {
            Some(i) => has_at(v@, i as int, "::"@) && forall|j: int| i < j ==> !has_at(v@, j, "::"@),
            None => forall|j: int| !has_at(v@, j, "::"@),
        },
{
    let n = v.len();
    let mut i = n;
    proof {
        reveal_strlit("::");
    }
    while i > 0
        invariant
            i <= n == v.len(),
            forall|j: int| i <= j ==> !has_at(v@, j, "::"@),
        decreases i,
    {
        if has_at_exec(v, i - 1, "::") {
            return Some(i - 1);
        }
        i = i - 1;
    }
    assert forall|j: int| !has_at(v@, j, "::"@) by {
        if j < 0 {
        }
    }
    None
}

/// Executable [`spec_is_same_svs`].
pub fn is_same_svs(one: &str, other: &str) -> (b: bool)
    ensures
        b == spec_is_same_svs(one@, other@),
{
    if str_eq(one, other) {
        return true;
    }
    let v = chars_of(other);
    let n = v.len();
    if has_at_exec(&v, 0, "npm:") {
        let rest = other.substring_char("npm:".unicode_len(), n);
        if str_eq(one, rest) {
            return true;
        }
    }
    match last_double_colon(&v) {
        Some(i) => {
            let head = other.substring_char(0, i);
            let r = str_eq(one, head);
            proof {
                if spec_is_same_svs(one@, other@) && !(one@ == other@) && !(has_at(
                    other@,
                    0,
                    "npm:"@,
                ) && one@ == other@.subrange("npm:"@.len() as int, other@.len() as int)) {
                    let k = choose|k: int|
                        #![trigger other@.subrange(0, k)]
                        has_at(other@, k, "::"@) && (forall|j: int| k < j ==> !has_at(other@, j, "::"@))
                            && one@ == other@.subrange(0, k);
                    assert(k == i);
                }
            }
            r
        },
        None => false,
    }
}

pub open spec fn not_slash_pred() -> spec_fn(char) -> bool {
    |c: char| c != '/'
}

pub open spec fn not_hash_pred() -> spec_fn(char) -> bool {
    |c: char| c != '#'
}

fn not_slash_exec(c: char) -> (b: bool)
    ensures
        b == not_slash_pred()(c),
{
    c != '/'
}

fn not_hash_exec(c: char) -> (b: bool)
    ensures
        b == not_hash_pred()(c),
{
    c != '#'
}

/// `r` without one trailing `.git`.
pub open spec fn strip_git(r: Seq<char>) -> Seq<char> {
    if ends_with(r, ".git"@) {
        r.subrange(0, r.len() - ".git"@.len())
    } else {
        r
    }
}

/// A GitHub reference read from `start`: a non-empty owner up to `/`, a non-empty
/// repository up to `#` (without one `.git` suffix when `strip`), and the rest; when
/// `sep` is given, the rest must start with it and is taken after it.
pub open spec fn gh_parts(s: Seq<char>, start: int, strip: bool, sep: Option<Seq<char>>) -> Option<
    (Seq<char>, Seq<char>, Seq<char>),
> {
    let o = run_len(s, start, not_slash_pred());
    let slash = start + o;
    let rs = slash + 1;
    let after = rs + run_len(s, rs, not_hash_pred());
    if 0 <= start <= s.len() && o > 0 && slash < s.len() && s[slash] == '/' && after > rs {
        let repo = if strip {
            strip_git(s.subrange(rs, after))
        } else {
            s.subrange(rs, after)
        };
        match sep {
            None => Some((s.subrange(start, slash), repo, s.subrange(after, s.len() as int))),
            Some(p) => if has_at(s, after, p) {
                Some((s.subrange(start, slash), repo, s.subrange(after + p.len(), s.len() as int)))
            } else {
                None
            },
        }
    } else {
        None
    }
}

/// The length of the GitHub URL prefix that `s` starts with.
pub open spec fn gh_url_prefix(s: Seq<char>) -> Option<int> {
    if has_at(s, 0, "https://github.com/"@) {
        Some("https://github.com/"@.len() as int)
    } else if has_at(s, 0, "http://github.com/"@) {
        Some("http://github.com/"@.len() as int)
    } else if has_at(s, 0, "ssh://git@github.com/"@) {
        Some("ssh://git@github.com/"@.len() as int)
    } else {
        None
    }
}

/// A GitHub URL as a user writes it.
pub open spec fn zpm_url_parts(one: Seq<char>) -> Option<(Seq<char>, Seq<char>, Seq<char>)> {
    match gh_url_prefix(one) {
        Some(p) => gh_parts(one, p, true, None),
        None => None,
    }
}

/// A `github:` reference as the lockfile records it.
pub open spec fn zpm_short_parts(other: Seq<char>) -> Option<(Seq<char>, Seq<char>, Seq<char>)> {
    if has_at(other, 0, "github:"@) {
        gh_parts(other, "github:"@.len() as int, false, None)
    } else {
        None
    }
}

/// A GitHub semver reference as a user writes it (`...#semver:range`).
pub open spec fn zpm_semver_user(one: Seq<char>) -> Option<(Seq<char>, Seq<char>, Seq<char>)> {
    let p = match gh_url_prefix(one) {
        Some(p) => p,
        None => if has_at(one, 0, "github:"@) {
            "github:"@.len() as int
        } else {
            0
        },
    };
    gh_parts(one, p, true, Some("#semver:"@))
}

/// A GitHub semver reference as the lockfile records it (`...#semver=range`).
pub open spec fn zpm_semver_lock(other: Seq<char>) -> Option<(Seq<char>, Seq<char>, Seq<char>)> {
    if has_at(other, 0, "github:"@) {
        gh_parts(other, "github:"@.len() as int, true, Some("#semver="@))
    } else if has_at(other, 0, "ssh://git@github.com/"@) {
        gh_parts(other, "ssh://git@github.com/"@.len() as int, true, Some("#semver="@))
    } else {
        None
    }
}

/// [`spec_is_same_svs`] as the JSON-format yarn lockfile needs it: GitHub URLs
/// are recorded as `github:` references.
pub open spec fn spec_is_same_svs_zpm(one: Seq<char>, other: Seq<char>) -> bool {
    ||| spec_is_same_svs(one, other)
    ||| (zpm_url_parts(one) is Some && zpm_url_parts(one) == zpm_short_parts(other))
    ||| (has_at(other, 0, "github:"@) && one == other.subrange(
        "github:"@.len() as int,
        other.len() as int,
    ))
    ||| (zpm_semver_user(one) is Some && zpm_semver_user(one) == zpm_semver_lock(other))
}

pub open spec fn opt_lit_view(o: Option<&str>) -> Option<Seq<char>> {
    match o {
        Some(s) => Some(s@),
        None => None,
    }
}

/// Executable [`gh_parts`], giving the bounds of the owner, the repository and the rest.
fn gh_parts_exec(v: &Vec<char>, start: usize, strip: bool, sep: Option<&str>) -> (r: Option<
    (usize, usize, usize, usize, usize, usize),
>)
    ensures
        match r {
            Some(t) => t.0 <= t.1 <= v@.len() && t.2 <= t.3 <= v@.len() && t.4 <= t.5 <= v@.len()
                && gh_parts(v@, start as int, strip, opt_lit_view(sep)) == Some(
                (
                    v@.subrange(t.0 as int, t.1 as int),
                    v@.subrange(t.2 as int, t.3 as int),
                    v@.subrange(t.4 as int, t.5 as int),
                ),
            ),
            None => gh_parts(v@, start as int, strip, opt_lit_view(sep)) is None,
        },
{
    if start > v.len() {
        return None;
    }
    let o = run_len_exec(v, start, not_slash_exec, Ghost(not_slash_pred()));
    let slash = start + o;
    if o == 0 || slash >= v.len() || v[slash] != '/' {
        return None;
    }
    let rs = slash + 1;
    let rl = run_len_exec(v, rs, not_hash_exec, Ghost(not_hash_pred()));
    if rl == 0 {
        return None;
    }
    let after = rs + rl;
    let mut repo_end = after;
    if strip && ends_with_exec(v, rs, after, ".git") {
        repo_end = after - ".git".unicode_len();
        proof {
            assert(v@.subrange(rs as int, after as int).subrange(0, rl - ".git"@.len()) =~= v@.subrange(
                rs as int,
                repo_end as int,
            ));
        }
    }
    match sep {
        None => Some((start, slash, rs, repo_end, after, v.len())),
        Some(p) => {
            if has_at_exec(v, after, p) {
                let rest = after + p.unicode_len();
                Some((start, slash, rs, repo_end, rest, v.len()))
            } else {
                None
            }
        },
    }
}

/// Whether two parsed references have equal parts.
fn same_parts(
    a: &str,
    ta: (usize, usize, usize, usize, usize, usize),
    b: &str,
    tb: (usize, usize, usize, usize, usize, usize),
) -> (r: bool)
    requires
        ta.0 <= ta.1 <= a@.len(),
        ta.2 <= ta.3 <= a@.len(),
        ta.4 <= ta.5 <= a@.len(),
        tb.0 <= tb.1 <= b@.len(),
        tb.2 <= tb.3 <= b@.len(),
        tb.4 <= tb.5 <= b@.len(),
    ensures
        r == ((
            a@.subrange(ta.0 as int, ta.1 as int),
            a@.subrange(ta.2 as int, ta.3 as int),
            a@.subrange(ta.4 as int, ta.5 as int),
        ) == (
            b@.subrange(tb.0 as int, tb.1 as int),
            b@.subrange(tb.2 as int, tb.3 as int),
            b@.subrange(tb.4 as int, tb.5 as int),
        )),
{
    str_eq(a.substring_char(ta.0, ta.1), b.substring_char(tb.0, tb.1)) && str_eq(
        a.substring_char(ta.2, ta.3),
        b.substring_char(tb.2, tb.3),
    ) && str_eq(a.substring_char(ta.4, ta.5), b.substring_char(tb.4, tb.5))
}

fn gh_url_prefix_exec(v: &Vec<char>) -> (r: Option<usize>)
    ensures
        match r {
            Some(p) => gh_url_prefix(v@) == Some(p as int),
            None => gh_url_prefix(v@) is None,
        },
{
    if has_at_exec(v, 0, "https://github.com/") {
        Some("https://github.com/".unicode_len())
    } else if has_at_exec(v, 0, "http://github.com/") {
        Some("http://github.com/".unicode_len())
    } else if has_at_exec(v, 0, "ssh://git@github.com/") {
        Some("ssh://git@github.com/".unicode_len())
    } else {
        None
    }
}

/// Executable [`spec_is_same_svs_zpm`].
pub fn is_same_svs_zpm(one: &str, other: &str) -> (b: bool)
    ensures
        b == spec_is_same_svs_zpm(one@, other@),
{
    if is_same_svs(one, other) {
        return true;
    }
    let vo = chars_of(one);
    let vt = chars_of(other);
    let url_prefix = gh_url_prefix_exec(&vo);
    let other_github = has_at_exec(&vt, 0, "github:");
    let gl = "github:".unicode_len();
    if let Some(p) = url_prefix {
        if let Some(ta) = gh_parts_exec(&vo, p, true, None) {
            if other_github {
                if let Some(tb) = gh_parts_exec(&vt, gl, false, None) {
                    if same_parts(one, ta, other, tb) {
                        return true;
                    }
                }
            }
        }
    }
    if other_github {
        if str_eq(one, other.substring_char(gl, vt.len())) {
            return true;
        }
    }
    let p = match url_prefix {
        Some(p) => p,
        None => if has_at_exec(&vo, 0, "github:") {
            gl
        } else {
            0
        },
    };
    let user = gh_parts_exec(&vo, p, true, Some("#semver:"));
    let lock = if other_github {
        gh_parts_exec(&vt, gl, true, Some("#semver="))
    } else if has_at_exec(&vt, 0, "ssh://git@github.com/") {
        gh_parts_exec(&vt, "ssh://git@github.com/".unicode_len(), true, Some("#semver="))
    } else {
        None
    };
    match (user, lock) {
        (Some(ta), Some(tb)) => same_parts(one, ta, other, tb),
        _ => false,
    }
}

/// No two entries have the same key.
pub open spec fn keys_unique(es: Seq<EntryView>) -> bool {
    forall|i: int, j: int|
        0 <= i < j < es.len() ==> key_of(#[trigger] es[i]) != key_of(#[trigger] es[j])
}

/// `new` is `old` with the value of key `k` set to `value`: in place when the key is
/// present, else appended.
pub open spec fn inserted(
    old: Seq<EntryView>,
    new: Seq<EntryView>,
    k: (SelView, Option<SelView>),
    value: Seq<char>,
) -> bool {
    &&& forall|i: int|
        0 <= i < old.len() && key_of(old[i]) == k ==> new == old.update(i, (k.0, k.1, value))
    &&& (forall|i: int| 0 <= i < old.len() ==> key_of(#[trigger] old[i]) != k) ==> new == old.push(
        (k.0, k.1, value),
    )
}

/// `r` is what a lookup of a request for `name` at `svs`, by a package with one of the
/// `parents`, finds: the value of the matching entry with the least key, or nothing
/// when no entry matches.
pub open spec fn found(
    es: Seq<EntryView>,
    name: Seq<char>,
    svs: Seq<char>,
    parents: Seq<(Seq<char>, Seq<char>)>,
    r: Option<Seq<char>>,
) -> bool {
    match r {
        None => forall|i: int| 0 <= i < es.len() ==> !entry_matches(#[trigger] es[i], name, svs, parents),
        Some(v) => exists|i: int|
            0 <= i < es.len() && entry_matches(#[trigger] es[i], name, svs, parents) && es[i].2 == v
                && forall|j: int|
                0 <= j < es.len() && entry_matches(#[trigger] es[j], name, svs, parents) ==> !key_lt(
                    es[j],
                    es[i],
                ),
    }
}

/// Distinct keys are ordered one way or the other.
pub proof fn lemma_key_lt_total(a: EntryView, b: EntryView)
    requires
        key_of(a) != key_of(b),
    ensures
        key_lt(a, b) || key_lt(b, a),
{
    lemma_seq_lt_total(a.0.0, b.0.0);
    if let (Some(x), Some(y)) = (a.0.1, b.0.1) {
        lemma_seq_lt_total(x, y);
    }
    if let (Some(x), Some(y)) = (a.1, b.1) {
        lemma_seq_lt_total(x.0, y.0);
        if let (Some(p), Some(q)) = (x.1, y.1) {
            lemma_seq_lt_total(p, q);
        }
    }
}

/// What a lookup finds: the value of the matching entry with the least key.
pub open spec fn lookup(
    es: Seq<EntryView>,
    name: Seq<char>,
    svs: Seq<char>,
    parents: Seq<(Seq<char>, Seq<char>)>,
) -> Option<Seq<char>> {
    if exists|v: Seq<char>| found(es, name, svs, parents, Some(v)) {
        Some(choose|v: Seq<char>| found(es, name, svs, parents, Some(v)))
    } else {
        None
    }
}

/// With distinct keys, a lookup has one outcome.
pub proof fn lemma_found_is_lookup(
    es: Seq<EntryView>,
    name: Seq<char>,
    svs: Seq<char>,
    parents: Seq<(Seq<char>, Seq<char>)>,
    r: Option<Seq<char>>,
)
    requires
        keys_unique(es),
        found(es, name, svs, parents, r),
    ensures
        r == lookup(es, name, svs, parents),
{
    match r {
        None => {
            if exists|v: Seq<char>| found(es, name, svs, parents, Some(v)) {
                let v = choose|v: Seq<char>| found(es, name, svs, parents, Some(v));
                let i = choose|i: int|
                    0 <= i < es.len() && entry_matches(#[trigger] es[i], name, svs, parents) && es[i].2 == v
                        && forall|j: int|
                        0 <= j < es.len() && entry_matches(#[trigger] es[j], name, svs, parents) ==> !key_lt(
                            es[j],
                            es[i],
                        );
                assert(!entry_matches(es[i], name, svs, parents));
            }
        },
        Some(v) => {
            let w = choose|w: Seq<char>| found(es, name, svs, parents, Some(w));
            let i = choose|i: int|
                0 <= i < es.len() && entry_matches(#[trigger] es[i], name, svs, parents) && es[i].2 == v
                    && forall|j: int|
                    0 <= j < es.len() && entry_matches(#[trigger] es[j], name, svs, parents) ==> !key_lt(
                        es[j],
                        es[i],
                    );
            let k = choose|k: int|
                0 <= k < es.len() && entry_matches(#[trigger] es[k], name, svs, parents) && es[k].2 == w
                    && forall|j: int|
                    0 <= j < es.len() && entry_matches(#[trigger] es[j], name, svs, parents) ==> !key_lt(
                        es[j],
                        es[k],
                    );
            if i != k {
                if i < k {
                    assert(key_of(es[i]) != key_of(es[k]));
                } else {
                    assert(key_of(es[k]) != key_of(es[i]));
                }
                lemma_key_lt_total(es[i], es[k]);
                assert(false);
            }
        },
    }
}

/// Resolution overrides, kept with distinct keys.
#[derive(Default)]
pub struct Resolutions<'a> {
    store: Vec<(ResolutionSelector<'a>, Option<ResolutionSelector<'a>>, &'a str)>,
}

pub open spec fn entry_view(e: (ResolutionSelector, Option<ResolutionSelector>, &str)) -> EntryView {
    (e.0.view_sel(), opt_sel_view(e.1), e.2@)
}

/// The key of an entry: its selector and parent.
pub open spec fn key_of(e: EntryView) -> (SelView, Option<SelView>) {
    (e.0, e.1)
}

/// The entry applies to a dependency on `name` with specifier `svs`, requested by a
/// package that has one of the given (name, specifier) pairs.
pub open spec fn entry_matches(
    e: EntryView,
    name: Seq<char>,
    svs: Seq<char>,
    parents: Seq<(Seq<char>, Seq<char>)>,
) -> bool {
    &&& e.0.0 == name
    &&& (e.0.1 matches Some(s) ==> spec_is_same_svs(s, svs))
    &&& (e.1 matches Some(kp) ==> exists|k: int|
        0 <= k < parents.len() && kp.0 == (#[trigger] parents[k]).0 && (kp.1 matches Some(s)
            ==> spec_is_same_svs(s, parents[k].1)))
}

pub open spec fn pairs_view(p: Seq<(&str, &str)>) -> Seq<(Seq<char>, Seq<char>)> {
    p.map_values(|x: (&str, &str)| (x.0@, x.1@))
}

impl<'a> Resolutions<'a> {
    pub closed spec fn entries(self) -> Seq<EntryView> {
        self.store@.map_values(|e: (ResolutionSelector, Option<ResolutionSelector>, &str)| entry_view(e))
    }

    #[verifier::type_invariant]
    closed spec fn inv(self) -> bool {
        forall|i: int, j: int|
            0 <= i < j < self.store@.len() ==> key_of(entry_view(#[trigger] self.store@[i]))
                != key_of(entry_view(#[trigger] self.store@[j]))
    }

    proof fn lemma_keys_unique(self)
        requires
            self.inv(),
        ensures
            keys_unique(self.entries()),
    {
        assert forall|i: int, j: int| 0 <= i < j < self.entries().len() implies key_of(
            #[trigger] self.entries()[i],
        ) != key_of(#[trigger] self.entries()[j]) by {
            assert(self.entries()[i] == entry_view(self.store@[i]));
            assert(self.entries()[j] == entry_view(self.store@[j]));
        }
    }

    pub fn new() -> (r: Resolutions<'a>)
        ensures
            r.entries() == Seq::<EntryView>::empty(),
            keys_unique(r.entries()),
    {
        let r = Resolutions { store: Vec::new() };
        assert(r.entries() =~= Seq::<EntryView>::empty());
        r
    }

    /// Adds a resolution; a key that is already present gets the new value.
    pub fn insert(&mut self, key: &'a str, value: &'a str) -> (r: Result<(), Error>)
        ensures
            match r {
                Ok(()) => parsed_key(key@) matches Some(k) && inserted(
                    old(self).entries(),
                    final(self).entries(),
                    k,
                    value@,
                ),
                Err(e) => e matches Error::InvalidResolution(t) && t@ == key@ && parse_resolution_key(key@)
                    is None
                    && final(self).entries() == old(self).entries(),
            },
            keys_unique(final(self).entries()),
    {
        proof {
            use_type_invariant(&*self);
            self.lemma_keys_unique();
        }
        let rk = ResolutionKey::parse(key)?;
        let ghost k = (rk.selector.view_sel(), opt_sel_view(rk.parent));
        proof {
            use_type_invariant(&*self);
        }
        let mut store: Vec<(ResolutionSelector<'a>, Option<ResolutionSelector<'a>>, &'a str)> =
            Vec::new();
        std::mem::swap(&mut store, &mut self.store);
        let ghost old_store = store@;
        assert(old(self).entries() == old_store.map_values(
            |e: (ResolutionSelector, Option<ResolutionSelector>, &str)| entry_view(e),
        ));
        let mut i: usize = 0;
        while i < store.len()
            invariant
                i <= store.len(),
                store@ == old_store,
                k == (rk.selector.view_sel(), opt_sel_view(rk.parent)),
                parsed_key(key@) == Some(k),
                old(self).entries() == old_store.map_values(
                    |e: (ResolutionSelector, Option<ResolutionSelector>, &str)| entry_view(e),
                ),
                forall|a: int, b: int|
                    0 <= a < b < old_store.len() ==> key_of(entry_view(#[trigger] old_store[a]))
                        != key_of(entry_view(#[trigger] old_store[b])),
                forall|m: int| 0 <= m < i ==> key_of(entry_view(#[trigger] store@[m])) != k,
            decreases store.len() - i,
        {
            let s1 = same_selector(&store[i].0, &rk.selector);
            let s2 = same_opt_selector(&store[i].1, &rk.parent);
            proof {
                assert(s1 == (store@[i as int].0.view_sel() == rk.selector.view_sel()));
                assert(s2 == (opt_sel_view(store@[i as int].1) == opt_sel_view(rk.parent)));
                assert(key_of(entry_view(store@[i as int])) == (store@[i as int].0.view_sel(), opt_sel_view(store@[i as int].1)));
            }
            if s1 && s2 {
                let entry = (rk.selector, rk.parent, value);
                proof {
                    assert(key_of(entry_view(old_store[i as int])) == k);
                    assert(key_of(entry_view(entry)) == k);
                }
                store.set(i, entry);
                proof {
                    assert(store@ == old_store.update(i as int, entry));
                    assert forall|a: int, b: int|
                        0 <= a < b < store@.len() implies key_of(entry_view(#[trigger] store@[a]))
                        != key_of(entry_view(#[trigger] store@[b])) by {
                        assert(key_of(entry_view(store@[a])) == key_of(entry_view(old_store[a])));
                        assert(key_of(entry_view(store@[b])) == key_of(entry_view(old_store[b])));
                    }
                }
                self.store = store;
                proof {
                    assert(self.entries() =~= old(self).entries().update(
                        i as int,
                        (k.0, k.1, value@),
                    ));
                    assert(old(self).entries()[i as int] == entry_view(old_store[i as int]));
                    assert(key_of(old(self).entries()[i as int]) == k);
                    assert forall|j: int|
                        0 <= j < old(self).entries().len() && key_of(old(self).entries()[j]) == k implies j
                        == i by {
                        assert(old(self).entries()[j] == entry_view(old_store[j]));
                        if j < i {
                            assert(key_of(entry_view(old_store[j])) != key_of(entry_view(old_store[i as int])));
                        }
                        if j > i {
                            assert(key_of(entry_view(old_store[i as int])) != key_of(entry_view(old_store[j])));
                        }
                    }
                }
                return Ok(());
            }
            proof {
                assert(key_of(entry_view(store@[i as int])) != k);
            }
            i = i + 1;
        }
        store.push((rk.selector, rk.parent, value));
        proof {
            assert forall|a: int, b: int|
                0 <= a < b < store@.len() implies key_of(entry_view(#[trigger] store@[a]))
                != key_of(entry_view(#[trigger] store@[b])) by {
                if b < old_store.len() {
                    assert(store@[a] == old_store[a]);
                    assert(store@[b] == old_store[b]);
                } else {
                    assert(store@[a] == old_store[a]);
                }
            }
        }
        self.store = store;
        proof {
            assert(self.entries() =~= old(self).entries().push((k.0, k.1, value@)));
            assert forall|m: int|
                0 <= m < old(self).entries().len() && key_of(old(self).entries()[m]) == k implies false by {
                assert(old(self).entries()[m] == entry_view(old_store[m]));
            }
        }
        Ok(())
    }

    /// The value of the least matching resolution in key order, if any matches.
    pub fn find(&self, selector: (&str, &str), parents: &[(&str, &str)]) -> (r: Option<&'a str>)
        ensures
            found(
                self.entries(),
                selector.0@,
                selector.1@,
                pairs_view(parents@),
                match r {
                    Some(v) => Some(v@),
                    None => None,
                },
            ),
            keys_unique(self.entries()),
    {
        proof {
            use_type_invariant(self);
            self.lemma_keys_unique();
        }
        let ghost es = self.entries();
        let ghost pv = pairs_view(parents@);
        let mut best: Option<usize> = None;
        let mut i: usize = 0;
        while i < self.store.len()
            invariant
                i <= self.store.len(),
                es == self.entries(),
                es.len() == self.store@.len(),
                pv == pairs_view(parents@),
                match best {
                    None => forall|m: int|
                        0 <= m < i ==> !entry_matches(#[trigger] es[m], selector.0@, selector.1@, pv),
                    Some(b) => b < i && entry_matches(es[b as int], selector.0@, selector.1@, pv)
                        && forall|m: int|
                        0 <= m < i && entry_matches(#[trigger] es[m], selector.0@, selector.1@, pv)
                            ==> !key_lt(es[m], es[b as int]),
                },
            decreases self.store.len() - i,
        {
            let entry = &self.store[i];
            proof {
                assert(es[i as int] == entry_view(*entry));
            }
            if self.entry_matches_exec(entry, selector, parents) {
                let better = match best {
                    None => true,
                    Some(b) => self.entry_lt(entry, &self.store[b]),
                };
                if better {
                    proof {
                        if let Some(b) = best {
                            assert(es[b as int] == entry_view(self.store@[b as int]));
                            assert forall|m: int|
                                0 <= m < i + 1 && entry_matches(
                                    #[trigger] es[m],
                                    selector.0@,
                                    selector.1@,
                                    pv,
                                ) implies !key_lt(es[m], es[i as int]) by {
                                if m < i && key_lt(es[m], es[i as int]) {
                                    lemma_key_lt_trans(es[m], es[i as int], es[b as int]);
                                }
                                if m == i {
                                    lemma_key_lt_irrefl(es[m]);
                                }
                            }
                        } else {
                            lemma_key_lt_irrefl(es[i as int]);
                        }
                    }
                    best = Some(i);
                } else {
                    proof {
                        let b = best.unwrap();
                        assert(es[b as int] == entry_view(self.store@[b as int]));
                    }
                }
            }
            i = i + 1;
        }
        match best {
            Some(b) => {
                proof {
                    assert(es[b as int] == entry_view(self.store@[b as int]));
                }
                Some(self.store[b].2)
            },
            None => None,
        }
    }

    fn entry_matches_exec(
        &self,
        e: &(ResolutionSelector<'a>, Option<ResolutionSelector<'a>>, &'a str),
        selector: (&str, &str),
        parents: &[(&str, &str)],
    ) -> (b: bool)
        ensures
            b == entry_matches(entry_view(*e), selector.0@, selector.1@, pairs_view(parents@)),
    {
        if !str_eq(e.0.name, selector.0) {
            return false;
        }
        if let Some(s) = e.0.svs {
            if !is_same_svs(s, selector.1) {
                return false;
            }
        }
        match e.1 {
            None => true,
            Some(kp) => {
                let mut k: usize = 0;
                while k < parents.len()
                    invariant
                        k <= parents@.len(),
                        e.0.name@ == selector.0@,
                        (e.0.svs matches Some(s) ==> spec_is_same_svs(s@, selector.1@)),
                        e.1 == Some(kp),
                        forall|m: int|
                            0 <= m < k ==> !(kp.name@ == (#[trigger] pairs_view(parents@)[m]).0 && (
                            kp.view_sel().1 matches Some(s) ==> spec_is_same_svs(
                                s,
                                pairs_view(parents@)[m].1,
                            ))),
                    decreases parents@.len() - k,
                {
                    let p = parents[k];
                    proof {
                        assert(pairs_view(parents@)[k as int] == (p.0@, p.1@));
                    }
                    if str_eq(kp.name, p.0) {
                        let ok = match kp.svs {
                            None => true,
                            Some(s) => is_same_svs(s, p.1),
                        };
                        if ok {
                            proof {
                                let pv = pairs_view(parents@);
                                assert(pv[k as int] == (p.0@, p.1@));
                                assert(kp.name@ == pv[k as int].0);
                            }
                            return true;
                        }
                    }
                    k = k + 1;
                }
                false
            },
        }
    }

    fn entry_lt(
        &self,
        a: &(ResolutionSelector<'a>, Option<ResolutionSelector<'a>>, &'a str),
        b: &(ResolutionSelector<'a>, Option<ResolutionSelector<'a>>, &'a str),
    ) -> (r: bool)
        ensures
            r == key_lt(entry_view(*a), entry_view(*b)),
    {
        if selector_lt(&a.0, &b.0) {
            return true;
        }
        if !same_selector(&a.0, &b.0) {
            return false;
        }
        match (a.1, b.1) {
            (None, Some(_)) => true,
            (Some(x), Some(y)) => selector_lt(&x, &y),
            _ => false,
        }
    }
}

pub proof fn lemma_key_lt_irrefl(a: EntryView)
    ensures
        !key_lt(a, a),
{
    crate::text::lemma_seq_lt_total(a.0.0, a.0.0);
    if let Some(x) = a.0.1 {
        crate::text::lemma_seq_lt_total(x, x);
    }
    if let Some(p) = a.1 {
        crate::text::lemma_seq_lt_total(p.0, p.0);
        if let Some(x) = p.1 {
            crate::text::lemma_seq_lt_total(x, x);
        }
    }
}

fn same_selector(a: &ResolutionSelector, b: &ResolutionSelector) -> (r: bool)
    ensures
        r == (a.view_sel() == b.view_sel()),
{
    if !str_eq(a.name, b.name) {
        return false;
    }
    match (a.svs, b.svs) {
        (None, None) => true,
        (Some(x), Some(y)) => str_eq(x, y),
        _ => false,
    }
}

fn same_opt_selector(a: &Option<ResolutionSelector>, b: &Option<ResolutionSelector>) -> (r: bool)
    ensures
        r == (opt_sel_view(*a) == opt_sel_view(*b)),
{
    match (a, b) {
        (None, None) => true,
        (Some(x), Some(y)) => same_selector(x, y),
        _ => false,
    }
}

fn selector_lt(a: &ResolutionSelector, b: &ResolutionSelector) -> (r: bool)
    ensures
        r == sel_lt(a.view_sel(), b.view_sel()),
{
    if str_lt(a.name, b.name) {
        return true;
    }
    if !str_eq(a.name, b.name) {
        return false;
    }
    match (a.svs, b.svs) {
        (None, Some(_)) => true,
        (Some(x), Some(y)) => str_lt(x, y),
        _ => false,
    }
}


/// A resolution keyed by a bare package name applies to every request for that
/// package, whatever its specifier and whoever requests it: once it is inserted, a
/// lookup for the package finds its value.
pub proof fn law_bare_name_resolution_applies(
    before: Seq<EntryView>,
    after: Seq<EntryView>,
    name: Seq<char>,
    value: Seq<char>,
    svs: Seq<char>,
    parents: Seq<(Seq<char>, Seq<char>)>,
    r: Option<Seq<char>>,
)
    requires
        parsed_key(name) == Some(((name, None::<Seq<char>>), None::<SelView>)),
        inserted(before, after, ((name, None::<Seq<char>>), None::<SelView>), value),
        keys_unique(after),
        found(after, name, svs, parents, r),
    ensures
        r == Some(value),
{
    let k: (SelView, Option<SelView>) = ((name, None), None);
    let ours: EntryView = (k.0, k.1, value);
    let idx: int;
    if exists|i: int| 0 <= i < before.len() && key_of(before[i]) == k {
        idx = choose|i: int| 0 <= i < before.len() && key_of(before[i]) == k;
        assert(after == before.update(idx, ours));
    } else {
        idx = before.len() as int;
        assert forall|i: int| 0 <= i < before.len() implies key_of(#[trigger] before[i]) != k by {}
        assert(after == before.push(ours));
    }
    assert(0 <= idx < after.len() && after[idx] == ours);
    assert(entry_matches(after[idx], name, svs, parents));
    crate::text::lemma_seq_lt_total(name, name);
    match r {
        None => {},
        Some(w) => {
            let i = choose|i: int|
                0 <= i < after.len() && entry_matches(#[trigger] after[i], name, svs, parents)
                    && after[i].2 == w && forall|j: int|
                    0 <= j < after.len() && entry_matches(#[trigger] after[j], name, svs, parents)
                        ==> !key_lt(after[j], after[i]);
            assert(!key_lt(after[idx], after[i]));
            assert(key_of(after[i]) == k);
            if i != idx {
                if i < idx {
                    assert(key_of(after[i]) != key_of(after[idx]));
                } else {
                    assert(key_of(after[idx]) != key_of(after[i]));
                }
            }
        },
    }
}


/// Specifiers that match as the text format compares them also match as the JSON
/// format compares them.
pub proof fn law_zpm_comparison_extends(one: Seq<char>, other: Seq<char>)
    requires
        spec_is_same_svs(one, other),
    ensures
        spec_is_same_svs_zpm(one, other),
{
}

/// A specifier matches itself.
pub proof fn law_same_svs_reflexive(one: Seq<char>)
    ensures
        spec_is_same_svs(one, one),
        spec_is_same_svs_zpm(one, one),
{
}


/// A lookup after an insert finds the value just inserted, for every request that the
/// inserted key applies to and that no other key below it applies to.
pub proof fn law_find_after_insert(
    old: Seq<EntryView>,
    new: Seq<EntryView>,
    k: (SelView, Option<SelView>),
    v: Seq<char>,
    name: Seq<char>,
    svs: Seq<char>,
    parents: Seq<(Seq<char>, Seq<char>)>,
    r: Option<Seq<char>>,
)
    requires
        keys_unique(old),
        inserted(old, new, k, v),
        found(new, name, svs, parents, r),
        entry_matches((k.0, k.1, v), name, svs, parents),
        forall|j: int|
            0 <= j < old.len() && key_of(old[j]) != k && entry_matches(#[trigger] old[j], name, svs, parents)
                ==> !key_lt(old[j], (k.0, k.1, v)),
    ensures
        r == Some(v),
{
    let ins = (k.0, k.1, v);
    // where the inserted entry stands, and that every other entry is an old one of
    // another key
    let at: int = if exists|i: int| 0 <= i < old.len() && key_of(old[i]) == k {
        choose|i: int| 0 <= i < old.len() && key_of(old[i]) == k
    } else {
        old.len() as int
    };
    if at < old.len() {
        assert(key_of(old[at]) == k);
        assert(new == old.update(at, ins));
        assert forall|j: int| 0 <= j < new.len() && j != at implies j < old.len() && #[trigger] new[j] == old[j] && key_of(old[j]) != k by {
            assert(key_of(old[j]) != key_of(old[at]));
        }
    } else {
        assert(forall|i: int| 0 <= i < old.len() ==> key_of(#[trigger] old[i]) != k);
        assert(new == old.push(ins));
        assert forall|j: int| 0 <= j < new.len() && j != at implies j < old.len() && #[trigger] new[j] == old[j] && key_of(old[j]) != k by {}
    }
    assert(new[at] == ins);
    match r {
        None => {
            assert(entry_matches(new[at], name, svs, parents));
        },
        Some(x) => {
            let i = choose|i: int|
                0 <= i < new.len() && entry_matches(#[trigger] new[i], name, svs, parents) && new[i].2 == x
                    && forall|j: int|
                    0 <= j < new.len() && entry_matches(#[trigger] new[j], name, svs, parents) ==> !key_lt(
                        new[j],
                        new[i],
                    );
            if i != at {
                assert(new[i] == old[i] && key_of(old[i]) != k);
                assert(!key_lt(old[i], ins));
                lemma_key_lt_total(old[i], ins);
                assert(entry_matches(new[at], name, svs, parents));
                assert(!key_lt(new[at], new[i]));
                assert(false);
            }
        },
    }
}

/// The value that the last insert of key `k` among `ins` gave, if any.
pub open spec fn last_value(ins: Seq<((SelView, Option<SelView>), Seq<char>)>, k: (SelView, Option<SelView>)) -> Option<
    Seq<char>,
>
    decreases ins.len(),
{
    if ins.len() == 0 {
        None
    } else if ins.last().0 == k {
        Some(ins.last().1)
    } else {
        last_value(ins.drop_last(), k)
    }
}

/// Some entry of `es` has the key `k`.
pub open spec fn has_key(es: Seq<EntryView>, k: (SelView, Option<SelView>)) -> bool {
    exists|j: int| 0 <= j < es.len() && key_of(#[trigger] es[j]) == k
}

/// After a sequence of successful inserts into an empty table, the table holds
/// exactly the keys inserted, each with the value of its last insert. With
/// [`Resolutions::find`]'s contract ([`found`]), a lookup thus answers with the value
/// last inserted under the least key that applies to the request.
pub proof fn law_entries_after_inserts(
    ess: Seq<Seq<EntryView>>,
    ins: Seq<((SelView, Option<SelView>), Seq<char>)>,
)
    requires
        ess.len() == ins.len() + 1,
        ess[0] == Seq::<EntryView>::empty(),
        forall|i: int| 0 <= i < ess.len() ==> keys_unique(#[trigger] ess[i]),
        forall|i: int| 0 <= i < ins.len() ==> inserted(#[trigger] ess[i], ess[i + 1], ins[i].0, ins[i].1),
    ensures
        forall|k: (SelView, Option<SelView>)| has_key(ess.last(), k) <==> #[trigger] last_value(ins, k) is Some,
        forall|j: int| 0 <= j < ess.last().len() ==> last_value(ins, key_of(#[trigger] ess.last()[j])) == Some(ess.last()[j].2),
    decreases ins.len(),
{
    if ins.len() > 0 {
        let n = ins.len() - 1;
        assert forall|i: int| 0 <= i < ess.drop_last().len() implies keys_unique(#[trigger] ess.drop_last()[i]) by {
            assert(keys_unique(ess[i]));
        }
        assert forall|i: int| 0 <= i < ins.drop_last().len() implies inserted(
            #[trigger] ess.drop_last()[i],
            ess.drop_last()[i + 1],
            ins.drop_last()[i].0,
            ins.drop_last()[i].1,
        ) by {
            assert(inserted(ess[i], ess[i + 1], ins[i].0, ins[i].1));
        }
        law_entries_after_inserts(ess.drop_last(), ins.drop_last());
        let e = ess[n];
        let e2 = ess[n + 1];
        let (k, v) = ins[n];
        assert(inserted(e, e2, k, v));
        assert(keys_unique(e));
        let ent = (k.0, k.1, v);
        assert(ess.drop_last().last() == e);
        assert(ess.last() == e2);
        assert forall|q: (SelView, Option<SelView>)| q != k implies #[trigger] last_value(ins, q) == last_value(ins.drop_last(), q) by {}
        if exists|i: int| 0 <= i < e.len() && key_of(e[i]) == k {
            let at = choose|i: int| 0 <= i < e.len() && key_of(e[i]) == k;
            assert(e2 == e.update(at, ent));
            assert forall|q: (SelView, Option<SelView>)| has_key(e2, q) <==> #[trigger] last_value(ins, q) is Some by {
                if q != k {
                    assert(last_value(ins, q) == last_value(ins.drop_last(), q));
                    assert(has_key(e, q) <==> last_value(ins.drop_last(), q) is Some);
                    if has_key(e2, q) {
                        let j = choose|j: int| 0 <= j < e2.len() && key_of(#[trigger] e2[j]) == q;
                        assert(e2[j] == e[j]);
                    }
                    if has_key(e, q) {
                        let j = choose|j: int| 0 <= j < e.len() && key_of(#[trigger] e[j]) == q;
                        assert(j != at);
                        assert(e2[j] == e[j]);
                    }
                } else {
                    assert(key_of(e2[at]) == k);
                }
            }
            assert forall|j: int| 0 <= j < e2.len() implies last_value(ins, key_of(#[trigger] e2[j])) == Some(e2[j].2) by {
                if j != at {
                    assert(e2[j] == e[j]);
                    assert(key_of(e[j]) != key_of(e[at]));
                    assert(last_value(ins.drop_last(), key_of(e[j])) == Some(e[j].2));
                }
            }
        } else {
            assert(forall|i: int| 0 <= i < e.len() ==> key_of(#[trigger] e[i]) != k);
            assert(e2 == e.push(ent));
            assert forall|q: (SelView, Option<SelView>)| has_key(e2, q) <==> #[trigger] last_value(ins, q) is Some by {
                if q != k {
                    assert(last_value(ins, q) == last_value(ins.drop_last(), q));
                    assert(has_key(e, q) <==> last_value(ins.drop_last(), q) is Some);
                    if has_key(e2, q) {
                        let j = choose|j: int| 0 <= j < e2.len() && key_of(#[trigger] e2[j]) == q;
                        assert(j < e.len());
                        assert(e2[j] == e[j]);
                    }
                    if has_key(e, q) {
                        let j = choose|j: int| 0 <= j < e.len() && key_of(#[trigger] e[j]) == q;
                        assert(e2[j] == e[j]);
                    }
                } else {
                    assert(key_of(e2[e.len() as int]) == k);
                }
            }
            assert forall|j: int| 0 <= j < e2.len() implies last_value(ins, key_of(#[trigger] e2[j])) == Some(e2[j].2) by {
                if j < e.len() {
                    assert(e2[j] == e[j]);
                    assert(last_value(ins.drop_last(), key_of(e[j])) == Some(e[j].2));
                }
            }
        }
    } else {
        assert forall|k: (SelView, Option<SelView>)| has_key(ess.last(), k) <==> #[trigger] last_value(ins, k) is Some by {
            assert(ess.last() == ess[0]);
        }
    }
}

} // verus!
