//! Recognizers for sources in yarn's classic (v1) lockfiles.

use vstd::prelude::*;

use vstd::string::{StrSliceExecFns, StringExecFns};

use crate::name::{spec_name_rest, PackageNameBorrowed};
use crate::text::{chars_of, has_at, has_at_exec, run_len, run_len_exec, str_eq};

verus! {

pub open spec fn is_ascii_alnum(c: char) -> bool {
    ('a' <= c <= 'z') || ('A' <= c <= 'Z') || ('0' <= c <= '9')
}

pub open spec fn gh_owner_pred() -> spec_fn(char) -> bool {
    |c: char| is_ascii_alnum(c) || c == '-'
}

pub open spec fn gh_repo_pred() -> spec_fn(char) -> bool {
    |c: char| is_ascii_alnum(c) || c == '-' || c == '.' || c == '_'
}

fn gh_owner_exec(c: char) -> (b: bool)
    ensures
        b == gh_owner_pred()(c),
{
    ('a' <= c && c <= 'z') || ('A' <= c && c <= 'Z') || ('0' <= c && c <= '9') || c == '-'
}

fn gh_repo_exec(c: char) -> (b: bool)
    ensures
        b == gh_repo_pred()(c),
{
    ('a' <= c && c <= 'z') || ('A' <= c && c <= 'Z') || ('0' <= c && c <= '9') || c == '-' || c
        == '.' || c == '_'
}

/// A GitHub slug as yarn classic writes it: optionally `github:`, an owner of ASCII
/// letters, digits and `-`, `/`, a repository name of those and `.` and `_` that
/// does not start with `.`, then the end or `#`.
pub open spec fn spec_is_github_svs(s: Seq<char>) -> bool {
    let start: int = if has_at(s, 0, "github:"@) {
        "github:"@.len() as int
    } else {
        0
    };
    let o = run_len(s, start, gh_owner_pred());
    let rs = start + o + 1;
    let r = run_len(s, rs, gh_repo_pred());
    &&& o > 0
    &&& start + o < s.len() && s[start + o] == '/'
    &&& r > 0
    &&& s[rs] != '.'
    &&& (rs + r == s.len() || s[rs + r] == '#')
}

/// Whether the specifier is a GitHub slug (see [`spec_is_github_svs`]).
pub fn is_github_svs(input: &str) -> (b: bool)
    ensures
        b == spec_is_github_svs(input@),
{
    let v = chars_of(input);
    let start: usize = if has_at_exec(&v, 0, "github:") {
        "github:".unicode_len()
    } else {
        0
    };
    let o = run_len_exec(&v, start, gh_owner_exec, Ghost(gh_owner_pred()));
    if o == 0 || start + o >= v.len() || v[start + o] != '/' {
        return false;
    }
    let rs = start + o + 1;
    let r = run_len_exec(&v, rs, gh_repo_exec, Ghost(gh_repo_pred()));
    if r == 0 || v[rs] == '.' {
        return false;
    }
    rs + r == v.len() || v[rs + r] == '#'
}

/// A tarball URL of the npm registry (or yarn's mirror of it) for the package
/// `name` at `version`.
pub open spec fn registry_url(scheme: Seq<char>, host: Seq<char>, name: Seq<char>, rest: Seq<char>, version: Seq<char>) -> Seq<char> {
    scheme + host + "/"@ + name + "/-/"@ + rest + "-"@ + version + ".tgz"@
}

pub open spec fn spec_is_registry_url(name: Seq<char>, rest: Seq<char>, version: Seq<char>, s: Seq<char>) -> bool {
    exists|scheme: Seq<char>, host: Seq<char>|
        (scheme == "https://"@ || scheme == "http://"@) && (host == "registry.yarnpkg.com"@ || host
            == "registry.npmjs.org"@ || host == "registry.npmjs.com"@) && s == #[trigger] registry_url(
            scheme,
            host,
            name,
            rest,
            version,
        )
}

/// Whether `input` is the registry tarball URL of `name` at `version`.
pub fn is_registry_url<'a>(name: PackageNameBorrowed<'a>, version: &'a str, input: &'a str) -> (b: bool)
    ensures
        b == spec_is_registry_url(name@, spec_name_rest(name@), version@, input@),
{
    let schemes = ["https://", "http://"];
    let hosts = ["registry.yarnpkg.com", "registry.npmjs.org", "registry.npmjs.com"];
    let mut i: usize = 0;
    while i < 2
        invariant
            i <= 2,
            schemes@ == seq!["https://", "http://"],
            hosts@ == seq!["registry.yarnpkg.com", "registry.npmjs.org", "registry.npmjs.com"],
            forall|a: int, h: int|
                0 <= a < i && 0 <= h < 3 ==> input@ != registry_url(
                    schemes@[a]@,
                    hosts@[h]@,
                    name@,
                    spec_name_rest(name@),
                    version@,
                ),
        decreases 2 - i,
    {
        let mut j: usize = 0;
        while j < 3
            invariant
                i < 2,
                j <= 3,
                schemes@ == seq!["https://", "http://"],
                hosts@ == seq!["registry.yarnpkg.com", "registry.npmjs.org", "registry.npmjs.com"],
                forall|a: int, h: int|
                    (0 <= a < i && 0 <= h < 3) || (a == i && 0 <= h < j) ==> input@ != registry_url(
                        schemes@[a]@,
                        hosts@[h]@,
                        name@,
                        spec_name_rest(name@),
                        version@,
                    ),
            decreases 3 - j,
        {
            let mut url = String::from_str(schemes[i]);
            url.append(hosts[j]);
            url.append("/");
            url.append(name.as_str());
            url.append("/-/");
            url.append(name.name_rest());
            url.append("-");
            url.append(version);
            url.append(".tgz");
            assert(url@ =~= registry_url(
                schemes@[i as int]@,
                hosts@[j as int]@,
                name@,
                spec_name_rest(name@),
                version@,
            ));
            if str_eq(url.as_str(), input) {
                return true;
            }
            j = j + 1;
        }
        i = i + 1;
    }
    assert forall|scheme: Seq<char>, host: Seq<char>|
        (scheme == "https://"@ || scheme == "http://"@) && (host == "registry.yarnpkg.com"@ || host
            == "registry.npmjs.org"@ || host == "registry.npmjs.com"@) implies input@
        != #[trigger] registry_url(scheme, host, name@, spec_name_rest(name@), version@) by {
        let a: int = if scheme == "https://"@ {
            0
        } else {
            1
        };
        let h: int = if host == "registry.yarnpkg.com"@ {
            0
        } else if host == "registry.npmjs.org"@ {
            1
        } else {
            2
        };
        assert(schemes@[a]@ == scheme);
        assert(hosts@[h]@ == host);
    }
    false
}

} // verus!
