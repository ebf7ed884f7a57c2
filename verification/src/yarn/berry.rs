//! Readers for the fields of yarn berry (v2 and later) lockfiles.

use vstd::prelude::*;
use vstd::string::{StrSliceExecFns, StringExecFns};

use crate::name::{package_name_at, package_name_at_exec};
use crate::semver::{parse_version, semver_version_parses};
use crate::source::{opt_source_view, PackageSource, SourceView};
use crate::text::{chars_of, ends_with, ends_with_exec, first_from, first_from_exec, has_at, has_at_exec};

verus! {

pub open spec fn is_lower_hex(c: char) -> bool {
    ('0' <= c <= '9') || ('a' <= c <= 'f')
}

/// A full git commit hash: 40 lowercase hexadecimal digits.
pub open spec fn spec_is_commit_hash(s: Seq<char>) -> bool {
    s.len() == 40 && forall|i: int| 0 <= i < s.len() ==> is_lower_hex(#[trigger] s[i])
}

fn lower_hex_run(v: &Vec<char>, start: usize, end: usize) -> (b: bool)
    requires
        start <= end <= v.len(),
    ensures
        b == forall|i: int| start <= i < end ==> is_lower_hex(#[trigger] v@[i]),
{
    let mut i = start;
    while i < end
        invariant
            start <= i <= end <= v.len(),
            forall|j: int| start <= j < i ==> is_lower_hex(#[trigger] v@[j]),
        decreases end - i,
    {
        let c = v[i];
        if !(('0' <= c && c <= '9') || ('a' <= c && c <= 'f')) {
            return false;
        }
        i = i + 1;
    }
    true
}

/// Whether the string is a full git commit hash.
pub fn is_commit_hash(input: &str) -> (b: bool)
    ensures
        b == spec_is_commit_hash(input@),
{
    let v = chars_of(input);
    v.len() == 40 && lower_hex_run(&v, 0, 40)
}

/// `npm:` and a version.
pub open spec fn berry_npm(s: Seq<char>, i: int) -> bool {
    has_at(s, i, "npm:"@) && semver_version_parses(s.subrange(i + "npm:"@.len(), s.len() as int))
}

/// The length of the URL scheme of a git source at `i`.
pub open spec fn git_scheme(s: Seq<char>, i: int) -> Option<int> {
    if has_at(s, i, "ssh://"@) {
        Some("ssh://"@.len() as int)
    } else if has_at(s, i, "http://"@) {
        Some("http://"@.len() as int)
    } else if has_at(s, i, "https://"@) {
        Some("https://"@.len() as int)
    } else {
        None
    }
}

/// A git URL, `#commit=` and a full commit hash: the URL.
pub open spec fn berry_git(s: Seq<char>, i: int) -> Option<Seq<char>> {
    match git_scheme(s, i) {
        Some(k) => match first_from(s, i + k, "#commit="@) {
            Some(j) => if spec_is_commit_hash(s.subrange(j + "#commit="@.len(), s.len() as int)) {
                Some(s.subrange(i, j))
            } else {
                None
            },
            None => None,
        },
        None => None,
    }
}

/// A tarball URL: `http(s)://`, no query or fragment, and a `.tgz` or `.tar.gz` file
/// or a path that ends with `/`.
pub open spec fn berry_tarball(s: Seq<char>, i: int) -> bool {
    let u = s.subrange(i, s.len() as int);
    &&& (has_at(s, i, "http://"@) || has_at(s, i, "https://"@))
    &&& !u.contains('?')
    &&& !u.contains('#')
    &&& (ends_with(u, ".tgz"@) || ends_with(u, ".tar.gz"@) || ends_with(u, "/"@))
}

/// A `resolution` field: a package name, `@`, and a recognized source or nothing.
pub open spec fn spec_berry_source(s: Seq<char>) -> Option<(Seq<char>, Option<SourceView>)> {
    match package_name_at(s, 0) {
        Some(p) => {
            let i = p.total_length as int;
            if i < s.len() && s[i] == '@' {
                let name = s.subrange(0, i);
                if berry_npm(s, i + 1) {
                    Some((name, Some(SourceView::Npm)))
                } else if berry_git(s, i + 1) is Some {
                    Some((name, Some(SourceView::Git(berry_git(s, i + 1)->0))))
                } else if berry_tarball(s, i + 1) {
                    Some((name, Some(SourceView::TarballURL(s.subrange(i + 1, s.len() as int)))))
                } else if i + 1 == s.len() {
                    Some((name, None))
                } else {
                    None
                }
            } else {
                None
            }
        },
        None => None,
    }
}

fn contains_char(v: &Vec<char>, start: usize, c: char) -> (b: bool)
    requires
        start <= v.len(),
    ensures
        b == v@.subrange(start as int, v@.len() as int).contains(c),
{
    let mut i = start;
    while i < v.len()
        invariant
            start <= i <= v.len(),
            forall|j: int| start <= j < i ==> v@[j] != c,
        decreases v.len() - i,
    {
        if v[i] == c {
            assert(v@.subrange(start as int, v@.len() as int)[i - start] == c);
            return true;
        }
        i = i + 1;
    }
    assert forall|k: int| 0 <= k < v@.len() - start implies v@.subrange(
        start as int,
        v@.len() as int,
    )[k] != c by {
        assert(v@.subrange(start as int, v@.len() as int)[k] == v@[start + k]);
    }
    false
}

/// Reads the package name and source of a `resolution` field.
pub fn parse_source(resolved: &str) -> (r: Option<(&str, Option<PackageSource>)>)
    ensures
        match r {
            Some((name, src)) => spec_berry_source(resolved@) == Some((name@, opt_source_view(src))),
            None => spec_berry_source(resolved@) is None,
        },
{
    let v = chars_of(resolved);
    let n = v.len();
    let p = match package_name_at_exec(&v, 0) {
        Some(p) => p,
        None => {
            return None;
        },
    };
    let i = p.total_length;
    if !(i < n && v[i] == '@') {
        return None;
    }
    let name = resolved.substring_char(0, i);
    let s = i + 1;
    if has_at_exec(&v, s, "npm:") {
        let rest = resolved.substring_char(s + "npm:".unicode_len(), n);
        if parse_version(rest).is_ok() {
            return Some((name, Some(PackageSource::Npm)));
        }
    }
    let scheme = if has_at_exec(&v, s, "ssh://") {
        Some("ssh://".unicode_len())
    } else if has_at_exec(&v, s, "http://") {
        Some("http://".unicode_len())
    } else if has_at_exec(&v, s, "https://") {
        Some("https://".unicode_len())
    } else {
        None
    };
    if let Some(k) = scheme {
        if let Some(j) = first_from_exec(&v, s + k, "#commit=") {
            let hash = resolved.substring_char(j + "#commit=".unicode_len(), n);
            if is_commit_hash(hash) {
                return Some(
                    (name, Some(PackageSource::Git { url: resolved.substring_char(s, j).to_owned() })),
                );
            }
        }
    }
    if (has_at_exec(&v, s, "http://") || has_at_exec(&v, s, "https://")) && !contains_char(&v, s, '?')
        && !contains_char(&v, s, '#') && (ends_with_exec(&v, s, n, ".tgz") || ends_with_exec(
        &v,
        s,
        n,
        ".tar.gz",
    ) || ends_with_exec(&v, s, n, "/")) {
        return Some(
            (name, Some(PackageSource::TarballURL { url: resolved.substring_char(s, n).to_owned() })),
        );
    }
    if s == n {
        return Some((name, None));
    }
    None
}

/// A patched descriptor `name@patch:name@range#path::params`: the two names, the
/// range, the patch path and the parameters.
pub open spec fn spec_patch_descriptor(s: Seq<char>) -> Option<
    (Seq<char>, Seq<char>, Seq<char>, Seq<char>, Seq<char>),
> {
    match package_name_at(s, 0) {
        None => None,
        Some(p1) => {
            let a = p1.total_length as int;
            let b = a + "@patch:"@.len();
            if !has_at(s, a, "@patch:"@) {
                None
            } else {
                match package_name_at(s, b) {
                    None => None,
                    Some(p2) => {
                        let c = b + p2.total_length;
                        if !(c < s.len() && s[c] == '@') {
                            None
                        } else {
                            match first_from(s, c + 1, "#"@) {
                                None => None,
                                Some(h) => match first_from(s, h + 1, "::"@) {
                                    None => None,
                                    Some(k) => Some(
                                        (
                                            s.subrange(0, a),
                                            s.subrange(b, c),
                                            s.subrange(c + 1, h),
                                            s.subrange(h + 1, k),
                                            s.subrange(k + 2, s.len() as int),
                                        ),
                                    ),
                                },
                            }
                        }
                    },
                }
            }
        },
    }
}

/// Reads a patched descriptor (see [`spec_patch_descriptor`]).
pub fn patch_descriptor(input: &str) -> (r: Option<(&str, &str, &str, &str, &str)>)
    ensures
        match r {
            Some(t) => spec_patch_descriptor(input@) == Some((t.0@, t.1@, t.2@, t.3@, t.4@)),
            None => spec_patch_descriptor(input@) is None,
        },
{
    let v = chars_of(input);
    let n = v.len();
    let p1 = match package_name_at_exec(&v, 0) {
        Some(p) => p,
        None => {
            return None;
        },
    };
    let a = p1.total_length;
    if !has_at_exec(&v, a, "@patch:") {
        return None;
    }
    let b = a + "@patch:".unicode_len();
    let p2 = match package_name_at_exec(&v, b) {
        Some(p) => p,
        None => {
            return None;
        },
    };
    let c = b + p2.total_length;
    if !(c < n && v[c] == '@') {
        return None;
    }
    let h = match first_from_exec(&v, c + 1, "#") {
        Some(h) => h,
        None => {
            return None;
        },
    };
    proof {
        reveal_strlit("#");
        reveal_strlit("::");
    }
    assert(h + 1 <= n);
    let k = match first_from_exec(&v, h + 1, "::") {
        Some(k) => k,
        None => {
            return None;
        },
    };
    assert(k + 2 <= n);
    Some(
        (
            input.substring_char(0, a),
            input.substring_char(b, c),
            input.substring_char(c + 1, h),
            input.substring_char(h + 1, k),
            input.substring_char(k + 2, n),
        ),
    )
}

/// A state key of a virtual package, `name@virtual:<128 hex digits>#descriptor`, stands
/// for `name@descriptor`; any other key stands for itself.
pub open spec fn spec_resolution_from_state_key(s: Seq<char>) -> Seq<char> {
    match package_name_at(s, 0) {
        Some(p) => {
            let a = p.total_length as int;
            let h = a + "@virtual:"@.len();
            if has_at(s, a, "@virtual:"@) && h + 128 < s.len() && (forall|i: int|
                h <= i < h + 128 ==> is_lower_hex(#[trigger] s[i])) && s[h + 128] == '#' {
                s.subrange(0, a) + "@"@ + s.subrange(h + 129, s.len() as int)
            } else {
                s
            }
        },
        None => s,
    }
}

/// The resolution that a key of `.yarn-state.yml` stands for.
pub fn resolution_from_state_key(state_key: &str) -> (r: String)
    ensures
        r@ == spec_resolution_from_state_key(state_key@),
{
    let v = chars_of(state_key);
    let n = v.len();
    if let Some(p) = package_name_at_exec(&v, 0) {
        let a = p.total_length;
        if has_at_exec(&v, a, "@virtual:") {
            let h = a + "@virtual:".unicode_len();
            if h < n && 128 < n - h && lower_hex_run(&v, h, h + 128) && v[h + 128] == '#' {
                let mut r = String::from_str(state_key.substring_char(0, a));
                r.append("@");
                r.append(state_key.substring_char(h + 129, n));
                return r;
            }
        }
    }
    String::from_str(state_key)
}

/// The text that percent-decoding gives, or `None` where the decoded bytes are not UTF-8.
pub uninterp spec fn percent_decoded(s: Seq<char>) -> Option<Seq<char>>;

/// Decodes `%XX` sequences with `percent_encoding::percent_decode_str(..).decode_utf8()`.
/// Trusted: the result is [`percent_decoded`] of the input; a refusal is reported as
/// the UTF-8 error's message.
#[verifier::external_body]
pub(crate) fn percent_decode(s: &str) -> (r: Result<String, String>)
    ensures
        r is Ok <==> percent_decoded(s@) is Some,
        r matches Ok(d) ==> percent_decoded(s@) == Some(d@),
{
    percent_encoding::percent_decode_str(s).decode_utf8().map(|d| d.into_owned()).map_err(|e| e.to_string())
}

} // verus!
