//! Installation paths of an npm lockfile, and how a dependency is found from them.

use vstd::prelude::*;
use vstd::string::{StrSliceExecFns, StringExecFns};

use crate::npm::Error;
use crate::package::PackageID;
use crate::name::{is_package_name, opt_str_view, PackageName};
use crate::text::{
    chars_of, last_index_of, last_index_of_exec, lemma_last_index_of, lemma_run_len_props,
    run_len, run_len_exec, str_eq,
};

verus! {

/// Package ids by installation path, in the order they were recorded.
pub open spec fn path_map_view(m: Seq<(String, PackageID)>) -> Seq<(Seq<char>, PackageID)> {
    m.map_values(|e: (String, PackageID)| (e.0@, e.1))
}

/// The id recorded last for the path `k`: a later record overrides an earlier one.
pub open spec fn path_lookup(m: Seq<(Seq<char>, PackageID)>, k: Seq<char>) -> Option<PackageID>
    decreases m.len(),
{
    if m.len() == 0 {
        None
    } else if m.last().0 == k {
        Some(m.last().1)
    } else {
        path_lookup(m.drop_last(), k)
    }
}

/// Executable [`path_lookup`].
pub fn lookup_path(m: &Vec<(String, PackageID)>, k: &str) -> (r: Option<PackageID>)
    ensures
        r == path_lookup(path_map_view(m@), k@),
{
    let mut i = m.len();
    assert(path_map_view(m@.take(i as int)) =~= path_map_view(m@));
    while i > 0
        invariant
            i <= m.len(),
            path_lookup(path_map_view(m@), k@) == path_lookup(path_map_view(m@.take(i as int)), k@),
        decreases i,
    {
        assert(path_map_view(m@.take(i as int)).drop_last() =~= path_map_view(m@.take(i - 1)));
        if str_eq(m[i - 1].0.as_str(), k) {
            return Some(m[i - 1].1);
        }
        i = i - 1;
    }
    None
}

/// Where a package `name` would be installed for a package at `path`.
pub open spec fn candidate_path(path: Seq<char>, name: Seq<char>) -> Seq<char> {
    if path.len() == 0 {
        "node_modules/"@ + name
    } else {
        path + "/node_modules/"@ + name
    }
}

/// Node's module resolution on installation paths: the package `name` as seen from
/// `path` is the one in `path`'s own `node_modules`, else in that of the directory
/// above, and so on up to the project root.
pub open spec fn spec_find_pid(path: Seq<char>, name: Seq<char>, m: Seq<(Seq<char>, PackageID)>) -> Option<
    PackageID,
>
    decreases path.len(),
{
    match path_lookup(m, candidate_path(path, name)) {
        Some(p) => Some(p),
        None => match last_index_of(path, '/') {
            Some(i) => if 0 <= i < path.len() {
                spec_find_pid(path.subrange(0, i), name, m)
            } else {
                None
            },
            None => if path.len() > 0 {
                spec_find_pid(Seq::empty(), name, m)
            } else {
                None
            },
        },
    }
}

fn candidate_path_exec(path: &str, name: &str) -> (r: String)
    ensures
        r@ == candidate_path(path@, name@),
{
    let mut r;
    if path.unicode_len() == 0 {
        r = String::from_str("node_modules/");
    } else {
        r = String::from_str(path);
        r.append("/node_modules/");
    }
    r.append(name);
    r
}

/// Finds the package that `name` resolves to from `path` (see [`spec_find_pid`]).
pub fn find_pid(path: &str, name: &str, path_pid: &Vec<(String, PackageID)>) -> (r: Result<
    PackageID,
    Error,
>)
    ensures
        match r {
            Ok(pid) => spec_find_pid(path@, name@, path_map_view(path_pid@)) == Some(pid),
            Err(e) => e matches Error::DependencyNotFound(n) && n@ == name@ && spec_find_pid(
                path@,
                name@,
                path_map_view(path_pid@),
            ) is None,
        },
    decreases path@.len(),
{
    let potential_path = candidate_path_exec(path, name);
    if let Some(pid) = lookup_path(path_pid, potential_path.as_str()) {
        return Ok(pid);
    }
    let v = chars_of(path);
    proof {
        lemma_last_index_of(path@, '/');
    }
    if let Some(i) = last_index_of_exec(&v, '/') {
        let parent_path = path.substring_char(0, i);
        return find_pid(parent_path, name, path_pid);
    }
    if v.len() > 0 {
        proof {
            reveal_strlit("");
            assert(""@ =~= Seq::<char>::empty());
        }
        return find_pid("", name, path_pid);
    }
    Err(Error::DependencyNotFound(name.to_owned()))
}


/// Why a path could not be split into tokens.
#[derive(Debug, Default, PartialEq, Eq, Clone)]
#[non_exhaustive]
pub enum PathLexingError {
    #[default]
    Other,
}

pub open spec fn not_slash() -> spec_fn(char) -> bool {
    |c: char| c != '/'
}

fn not_slash_exec(c: char) -> (b: bool)
    ensures
        b == not_slash()(c),
{
    c != '/'
}

/// The spans of the segments of a path from `i`: the runs between slashes, empty
/// ones left out.
pub open spec fn tokens_from(s: Seq<char>, i: int) -> Seq<(int, int)>
    decreases s.len() - i,
{
    if i < 0 || i >= s.len() {
        Seq::empty()
    } else if s[i] == '/' {
        tokens_from(s, i + 1)
    } else {
        let k = run_len(s, i, not_slash());
        if k > 0 && i + k <= s.len() {
            seq![(i, i + k)] + tokens_from(s, i + k)
        } else {
            Seq::empty()
        }
    }
}

/// The index of the last `node_modules` segment.
pub open spec fn last_node_modules(s: Seq<char>, t: Seq<(int, int)>) -> Option<int>
    decreases t.len(),
{
    if t.len() == 0 {
        None
    } else if s.subrange(t.last().0, t.last().1) == "node_modules"@ {
        Some(t.len() - 1)
    } else {
        last_node_modules(s, t.drop_last())
    }
}

/// A `node_modules` segment, when there is one, is followed by a name: a segment,
/// or two when the first starts with `@`.
pub open spec fn path_names_ok(s: Seq<char>) -> bool {
    let t = tokens_from(s, 0);
    match last_node_modules(s, t) {
        Some(j) => j + 1 < t.len() && (s[t[j + 1].0] == '@' ==> j + 2 < t.len()),
        None => true,
    }
}

/// The name of the package at a path: what follows the last `node_modules`; or the
/// whole path when there is none and it is a package name.
pub open spec fn spec_name_from_path(s: Seq<char>) -> Option<Seq<char>> {
    let t = tokens_from(s, 0);
    match last_node_modules(s, t) {
        Some(j) => {
            let start = t[j + 1].0;
            let end = if s[start] == '@' {
                t[j + 2].1
            } else {
                t[j + 1].1
            };
            Some(s.subrange(start, end))
        },
        None => if is_package_name(s) {
            Some(s)
        } else {
            None
        },
    }
}

pub proof fn lemma_tokens_bounds(s: Seq<char>, i: int)
    requires
        0 <= i,
    ensures
        forall|k: int|
            0 <= k < tokens_from(s, i).len() ==> i <= (#[trigger] tokens_from(s, i)[k]).0
                < tokens_from(s, i)[k].1 <= s.len() && s[tokens_from(s, i)[k].0] != '/',
        forall|k: int|
            0 <= k < tokens_from(s, i).len() - 1 ==> (#[trigger] tokens_from(s, i)[k]).1
                <= tokens_from(s, i)[k + 1].0,
    decreases s.len() - i,
{
    let t = tokens_from(s, i);
    if 0 <= i < s.len() {
        if s[i] == '/' {
            lemma_tokens_bounds(s, i + 1);
            assert(t == tokens_from(s, i + 1));
        } else {
            let k = run_len(s, i, not_slash());
            lemma_run_len_props(s, i, not_slash());
            if k > 0 && i + k <= s.len() {
                lemma_tokens_bounds(s, i + k);
                let u = tokens_from(s, i + k);
                assert(t == seq![(i, i + k)] + u);
                assert forall|q: int| 0 <= q < t.len() implies i <= (#[trigger] t[q]).0 < t[q].1
                    <= s.len() && s[t[q].0] != '/' by {
                    if q > 0 {
                        assert(t[q] == u[q - 1]);
                    }
                }
                assert forall|q: int| 0 <= q < t.len() - 1 implies (#[trigger] t[q]).1 <= t[q + 1].0 by {
                    assert(t[q + 1] == u[q]);
                    if q > 0 {
                        assert(t[q] == u[q - 1]);
                    }
                }
            }
        }
    }
}

/// The segments of a path.
fn path_tokens(v: &Vec<char>) -> (tokens: Vec<(usize, usize)>)
    ensures
        tokens_view(tokens@) == tokens_from(v@, 0),
{
    let n = v.len();
    let mut tokens: Vec<(usize, usize)> = Vec::new();
    let mut i: usize = 0;
    assert(tokens_view(tokens@) =~= Seq::<(int, int)>::empty());
    while i < n
        invariant
            n == v@.len(),
            i <= n,
            tokens_view(tokens@) + tokens_from(v@, i as int) == tokens_from(v@, 0),
        decreases n - i,
    {
        if v[i] == '/' {
            i = i + 1;
        } else {
            let k = run_len_exec(v, i, not_slash_exec, Ghost(not_slash()));
            proof {
                lemma_run_len_props(v@, i as int, not_slash());
            }
            let ghost prev = tokens_view(tokens@);
            tokens.push((i, i + k));
            proof {
                assert(tokens_view(tokens@) =~= prev.push((i as int, (i + k) as int)));
                assert(prev.push((i as int, (i + k) as int)) + tokens_from(v@, (i + k) as int) =~= prev
                    + tokens_from(v@, i as int));
            }
            i = i + k;
        }
    }
    assert(tokens_view(tokens@) + Seq::<(int, int)>::empty() =~= tokens_view(tokens@));
    tokens
}

/// Where the last `node_modules` segment is.
fn last_node_modules_exec(path: &str, tokens: &Vec<(usize, usize)>) -> (r: Option<usize>)
    requires
        forall|k: int|
            0 <= k < tokens@.len() ==> (#[trigger] tokens@[k]).0 <= tokens@[k].1 <= path@.len(),
    ensures
        match r {
            Some(j) => last_node_modules(path@, tokens_view(tokens@)) == Some(j as int),
            None => last_node_modules(path@, tokens_view(tokens@)) is None,
        },
{
    let ghost t = tokens_view(tokens@);
    let mut j = tokens.len();
    assert(t.take(j as int) =~= t);
    while j > 0
        invariant
            j <= tokens@.len(),
            t == tokens_view(tokens@),
            last_node_modules(path@, t) == last_node_modules(path@, t.take(j as int)),
            forall|k: int|
                0 <= k < tokens@.len() ==> (#[trigger] tokens@[k]).0 <= tokens@[k].1 <= path@.len(),
        decreases j,
    {
        assert(t.take(j as int).drop_last() =~= t.take(j - 1));
        assert(t.take(j as int).last() == t[j - 1]);
        let (a, b) = tokens[j - 1];
        if str_eq(path.substring_char(a, b), "node_modules") {
            return Some(j - 1);
        }
        j = j - 1;
    }
    None
}

/// The package name implied by a path (see [`spec_name_from_path`]).
pub fn package_name_from_path(path: &str) -> (r: Result<Option<&str>, Error>)
    requires
        path_names_ok(path@),
    ensures
        r matches Ok(n) && opt_str_view(n) == spec_name_from_path(path@),
{
    let v = chars_of(path);
    let tokens = path_tokens(&v);
    let ghost t = tokens_view(tokens@);
    proof {
        lemma_tokens_bounds(v@, 0);
        assert forall|k: int| 0 <= k < tokens@.len() implies (#[trigger] tokens@[k]).0 <= tokens@[k].1
            <= path@.len() by {
            assert(t[k] == (tokens@[k].0 as int, tokens@[k].1 as int));
        }
        assert forall|k: int| 0 <= k < tokens@.len() - 1 implies (#[trigger] tokens@[k]).1
            <= tokens@[k + 1].0 by {
            assert(t[k] == (tokens@[k].0 as int, tokens@[k].1 as int));
            assert(t[k + 1] == (tokens@[k + 1].0 as int, tokens@[k + 1].1 as int));
        }
    }
    match last_node_modules_exec(path, &tokens) {
        Some(j) => {
            assert(t[j + 1] == (tokens@[j + 1].0 as int, tokens@[j + 1].1 as int));
            let (start, mut end) = tokens[j + 1];
            if v[start] == '@' {
                assert(t[j + 2] == (tokens@[j + 2].0 as int, tokens@[j + 2].1 as int));
                end = tokens[j + 2].1;
            }
            Ok(Some(path.substring_char(start, end)))
        },
        None => {
            let is_name = match PackageName::new(String::from_str(path)) {
                Ok(_) => true,
                Err(_) => false,
            };
            if is_name {
                Ok(Some(path))
            } else {
                Ok(None)
            }
        },
    }
}

pub open spec fn tokens_view(t: Seq<(usize, usize)>) -> Seq<(int, int)> {
    t.map_values(|p: (usize, usize)| (p.0 as int, p.1 as int))
}


/// What a dependency resolves to is installed under the name it asks for: in the
/// `node_modules` of the dependent's path or of a directory above it.
pub proof fn law_find_pid_installed_by_name(path: Seq<char>, name: Seq<char>, m: Seq<(Seq<char>, PackageID)>)
    requires
        spec_find_pid(path, name, m) is Some,
    ensures
        exists|dir: Seq<char>|
            path_lookup(m, #[trigger] candidate_path(dir, name)) == spec_find_pid(path, name, m),
    decreases path.len(),
{
    match path_lookup(m, candidate_path(path, name)) {
        Some(p) => {
            assert(path_lookup(m, candidate_path(path, name)) == spec_find_pid(path, name, m));
        },
        None => match last_index_of(path, '/') {
            Some(i) => {
                if 0 <= i < path.len() {
                    law_find_pid_installed_by_name(path.subrange(0, i), name, m);
                }
            },
            None => {
                if path.len() > 0 {
                    law_find_pid_installed_by_name(Seq::empty(), name, m);
                }
            },
        },
    }
}

} // verus!
