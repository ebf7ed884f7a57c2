//! Keys and resolutions of yarn's JSON lockfile format.

use vstd::prelude::*;
use vstd::string::StrSliceExecFns;

use crate::name::{package_name_at, package_name_at_exec};
use crate::source::{PackageSource, SourceView};
use crate::text::{chars_of, ends_with, ends_with_exec, has_at, has_at_exec, run_len, run_len_exec};
use crate::yarn::Error;

verus! {

pub open spec fn not_comma_pred() -> spec_fn(char) -> bool {
    |c: char| c != ','
}

fn not_comma_exec(c: char) -> (b: bool)
    ensures
        b == not_comma_pred()(c),
{
    c != ','
}

/// A specifier at `i`: a package name, `@`, and a non-empty range up to the next `,`.
/// Gives the end of the name and the end of the range.
pub open spec fn specifier_at(s: Seq<char>, i: int) -> Option<(int, int)> {
    match package_name_at(s, i) {
        Some(p) => {
            let at = i + p.total_length;
            let k = run_len(s, at + 1, not_comma_pred());
            if at < s.len() && s[at] == '@' && k > 0 {
                Some((at, at + 1 + k))
            } else {
                None
            }
        },
        None => None,
    }
}

/// Executable [`specifier_at`].
pub(crate) fn specifier_at_exec(v: &Vec<char>, i: usize) -> (r: Option<(usize, usize)>)
    requires
        i <= v.len(),
    ensures
        match r {
            Some((at, e)) => specifier_at(v@, i as int) == Some((at as int, e as int)) && at < e <= v.len(),
            None => specifier_at(v@, i as int) is None,
        },
{
    let p = match package_name_at_exec(v, i) {
        Some(p) => p,
        None => return None,
    };
    let at = i + p.total_length;
    if !(at < v.len() && v[at] == '@') {
        return None;
    }
    let k = run_len_exec(v, at + 1, not_comma_exec, Ghost(not_comma_pred()));
    if k == 0 {
        return None;
    }
    Some((at, at + 1 + k))
}

/// The specifiers of a key from `i`, separated by `, ` and taking the rest of the
/// string: the bounds of each name and range.
pub open spec fn specifiers_from(s: Seq<char>, i: int) -> Option<Seq<(int, int, int)>>
    decreases s.len() - i,
{
    match specifier_at(s, i) {
        None => None,
        Some((at, e)) => if !(i < at < e <= s.len()) {
            None
        } else if e == s.len() {
            Some(seq![(i, at, e)])
        } else if has_at(s, e, ", "@) {
            match specifiers_from(s, e + ", "@.len()) {
                Some(rest) => Some(seq![(i, at, e)] + rest),
                None => None,
            }
        } else {
            None
        },
    }
}

pub open spec fn spans_view(s: Seq<char>, sp: Seq<(int, int, int)>) -> Seq<(Seq<char>, Seq<char>)> {
    sp.map_values(|t: (int, int, int)| (s.subrange(t.0, t.1), s.subrange(t.1 + 1, t.2)))
}

pub open spec fn pairs_view(v: Seq<(&str, &str)>) -> Seq<(Seq<char>, Seq<char>)> {
    v.map_values(|p: (&str, &str)| (p.0@, p.1@))
}

/// Splits a lockfile key such as `a@npm:^1, b@npm:^2` into (name, range) pairs.
pub fn specifiers<'a>(input: &'a str) -> (r: Result<Vec<(&'a str, &'a str)>, Error>)
    ensures
        match r {
            Ok(v) => specifiers_from(input@, 0) matches Some(sp) && pairs_view(v@) == spans_view(
                input@,
                sp,
            ),
            Err(e) => specifiers_from(input@, 0) is None && (e matches Error::InvalidEntryKey(k)
                && k@ == input@),
        },
{
    let v = chars_of(input);
    let n = v.len();
    let mut out: Vec<(&'a str, &'a str)> = Vec::new();
    let ghost mut done: Seq<(int, int, int)> = Seq::empty();
    let mut i: usize = 0;
    loop
        invariant
            v@ == input@,
            n == v@.len(),
            i <= n,
            pairs_view(out@) == spans_view(input@, done),
            specifiers_from(input@, 0) == match specifiers_from(input@, i as int) {
                Some(rest) => Some(done + rest),
                None => None::<Seq<(int, int, int)>>,
            },
        decreases n - i,
    {
        let p = match package_name_at_exec(&v, i) {
            Some(p) => p,
            None => {
                return Err(Error::InvalidEntryKey(input.to_owned()));
            },
        };
        let at = i + p.total_length;
        if !(at < n && v[at] == '@') {
            return Err(Error::InvalidEntryKey(input.to_owned()));
        }
        let k = run_len_exec(&v, at + 1, not_comma_exec, Ghost(not_comma_pred()));
        if k == 0 || !(i < at) {
            return Err(Error::InvalidEntryKey(input.to_owned()));
        }
        let e = at + 1 + k;
        proof {
            reveal_strlit(", ");
            assert(specifier_at(input@, i as int) == Some((at as int, e as int)));
        }
        let ghost prev = out@;
        out.push((input.substring_char(i, at), input.substring_char(at + 1, e)));
        proof {
            assert(pairs_view(out@) =~= pairs_view(prev).push(
                (input@.subrange(i as int, at as int), input@.subrange(at + 1, e as int)),
            ));
            assert(spans_view(input@, done.push((i as int, at as int, e as int))) =~= spans_view(
                input@,
                done,
            ).push((input@.subrange(i as int, at as int), input@.subrange(at + 1, e as int))));
        }
        if e == n {
            proof {
                assert(done + seq![(i as int, at as int, e as int)] =~= done.push(
                    (i as int, at as int, e as int),
                ));
            }
            return Ok(out);
        }
        if !has_at_exec(&v, e, ", ") {
            return Err(Error::InvalidEntryKey(input.to_owned()));
        }
        proof {
            let ghost t = (i as int, at as int, e as int);
            match specifiers_from(input@, e + 2) {
                Some(rest) => {
                    assert(done + (seq![t] + rest) =~= done.push(t) + rest);
                },
                None => {},
            }
            done = done.push(t);
        }
        i = e + 2;
    }
}

/// What a `resolution` field says after `name@`.
pub enum Resolved<'a> {
    /// A package from a registry, a git repository or a tarball URL.
    Remote(PackageSource),
    /// A workspace member at this location.
    Workspace(&'a str),
}

/// [`Resolved`] as plain values.
pub enum ResolvedView {
    Remote(SourceView),
    Workspace(Seq<char>),
}

/// The source a resolution names: `npm:...`, `git:url`, `workspace:location`, or an
/// `http(s)://` URL of a `.tgz` or `.tar.gz` file.
pub open spec fn spec_resolved_source(s: Seq<char>) -> Option<ResolvedView> {
    if has_at(s, 0, "npm:"@) {
        Some(ResolvedView::Remote(SourceView::Npm))
    } else if has_at(s, 0, "git:"@) {
        Some(ResolvedView::Remote(SourceView::Git(s.subrange("git:"@.len() as int, s.len() as int))))
    } else if has_at(s, 0, "workspace:"@) {
        Some(ResolvedView::Workspace(s.subrange("workspace:"@.len() as int, s.len() as int)))
    } else if (has_at(s, 0, "https://"@) || has_at(s, 0, "http://"@)) && (ends_with(s, ".tgz"@)
        || ends_with(s, ".tar.gz"@)) {
        Some(ResolvedView::Remote(SourceView::TarballURL(s)))
    } else {
        None
    }
}

pub open spec fn resolved_view(r: Resolved) -> ResolvedView {
    match r {
        Resolved::Remote(src) => ResolvedView::Remote(crate::source::source_view(src)),
        Resolved::Workspace(w) => ResolvedView::Workspace(w@),
    }
}

/// Reads the source of a resolution (see [`spec_resolved_source`]).
pub fn resolved_source<'a>(input: &'a str) -> (r: Option<Resolved<'a>>)
    ensures
        match r {
            Some(x) => spec_resolved_source(input@) == Some(resolved_view(x)),
            None => spec_resolved_source(input@) is None,
        },
{
    let v = chars_of(input);
    let n = v.len();
    if has_at_exec(&v, 0, "npm:") {
        Some(Resolved::Remote(PackageSource::Npm))
    } else if has_at_exec(&v, 0, "git:") {
        Some(
            Resolved::Remote(
                PackageSource::Git { url: input.substring_char("git:".unicode_len(), n).to_owned() },
            ),
        )
    } else if has_at_exec(&v, 0, "workspace:") {
        Some(Resolved::Workspace(input.substring_char("workspace:".unicode_len(), n)))
    } else if (has_at_exec(&v, 0, "https://") || has_at_exec(&v, 0, "http://")) && (ends_with_exec(
        &v,
        0,
        n,
        ".tgz",
    ) || ends_with_exec(&v, 0, n, ".tar.gz")) {
        proof {
            assert(v@.subrange(0, n as int) =~= v@);
        }
        Some(Resolved::Remote(PackageSource::TarballURL { url: input.to_owned() }))
    } else {
        proof {
            assert(v@.subrange(0, n as int) =~= v@);
        }
        None
    }
}

/// A resolution is a package name, `@`, and a source when one is recognized.
pub open spec fn spec_resolved(s: Seq<char>) -> Option<(Seq<char>, Option<ResolvedView>)> {
    match package_name_at(s, 0) {
        Some(p) => if p.total_length < s.len() && s[p.total_length as int] == '@' {
            Some(
                (
                    s.subrange(0, p.total_length as int),
                    spec_resolved_source(s.subrange(p.total_length + 1 as int, s.len() as int)),
                ),
            )
        } else {
            None
        },
        None => None,
    }
}

/// Reads a `resolution` field such as `lodash@npm:4.17.21`.
pub fn resolved<'a>(input: &'a str) -> (r: Result<(&'a str, Option<Resolved<'a>>), Error>)
    ensures
        match r {
            Ok((name, src)) => spec_resolved(input@) == Some(
                (
                    name@,
                    match src {
                        Some(x) => Some(resolved_view(x)),
                        None => None,
                    },
                ),
            ),
            Err(e) => spec_resolved(input@) is None && (e matches Error::InvalidResolved(k) && k@
                == input@),
        },
{
    let v = chars_of(input);
    match package_name_at_exec(&v, 0) {
        Some(p) => {
            if p.total_length < v.len() && v[p.total_length] == '@' {
                let name = input.substring_char(0, p.total_length);
                let rest = input.substring_char(p.total_length + 1, v.len());
                Ok((name, resolved_source(rest)))
            } else {
                Err(Error::InvalidResolved(input.to_owned()))
            }
        },
        None => Err(Error::InvalidResolved(input.to_owned())),
    }
}

} // verus!
