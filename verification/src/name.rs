//! npm package names: `name` or `@scope/name`.

use vstd::prelude::*;
use vstd::string::StrSliceExecFns;

use crate::error::Error;
use crate::text::{chars_of, has_at, has_at_exec, lemma_run_len_props, lemma_run_len_window, run_len};

verus! {

/// Characters allowed in a part of a package name. The special ones are no longer
/// accepted by the registry for new packages but still occur in old ones.
pub open spec fn is_name_char(c: char) -> bool {
    ||| ('a' <= c && c <= 'z')
    ||| ('A' <= c && c <= 'Z')
    ||| ('0' <= c && c <= '9')
    ||| c == '.' || c == '-' || c == '_' || c == '(' || c == ')'
    ||| c == '~' || c == '\'' || c == '!' || c == '*'
}

pub open spec fn name_char_pred() -> spec_fn(char) -> bool {
    |c: char| is_name_char(c)
}

/// Length of the name part that starts at `i`: the longest run of name characters,
/// which must be non-empty and must not start with `_` or `.`.
pub open spec fn name_part(s: Seq<char>, i: int) -> Option<nat> {
    let k = run_len(s, i, name_char_pred());
    if k == 0 || s[i] == '_' || s[i] == '.' {
        None
    } else {
        Some(k)
    }
}

/// Where the parts of a package name lie, relative to its start.
pub struct NamePos {
    /// End of `@scope` (the index of `/`), when the name is scoped.
    pub scope_end: Option<nat>,
    /// Length of the whole name.
    pub total_length: nat,
}

/// Length of the scope's name when `@scope/` occurs at `i`.
pub open spec fn scope_at(s: Seq<char>, i: int) -> Option<nat> {
    if 0 <= i < s.len() && s[i] == '@' {
        match name_part(s, i + 1) {
            Some(k) => if i + 1 + k < s.len() && s[i + 1 + k] == '/' {
                Some(k)
            } else {
                None
            },
            None => None,
        }
    } else {
        None
    }
}

/// The package name that starts at `i`, if one does: an optional `@scope/`,
/// then a name part that is neither `node_modules` nor `favicon.ico`.
pub open spec fn package_name_at(s: Seq<char>, i: int) -> Option<NamePos> {
    let scope = scope_at(s, i);
    let r: int = match scope {
        Some(k) => k + 2 as int,
        None => 0,
    };
    match name_part(s, i + r) {
        Some(k2) => {
            let part = s.subrange(i + r, i + r + k2);
            if part == "node_modules"@ || part == "favicon.ico"@ {
                None
            } else {
                Some(
                    NamePos {
                        scope_end: match scope {
                            Some(k) => Some((k + 1) as nat),
                            None => None,
                        },
                        total_length: (r + k2) as nat,
                    },
                )
            }
        },
        None => None,
    }
}

/// The whole string is a package name.
pub open spec fn is_package_name(s: Seq<char>) -> bool {
    package_name_at(s, 0) matches Some(p) && p.total_length == s.len()
}

/// Recognizes a name part at the start of `input` (see [`name_part`]): what follows
/// it, then the part; `None` when `input` does not start with one.
pub fn package_name_part(input: &str) -> (r: Option<(&str, &str)>)
    ensures
        match r {
            Some((rest, part)) => name_part(input@, 0) matches Some(k) && part@ == input@.subrange(
                0,
                k as int,
            ) && rest@ == input@.subrange(k as int, input@.len() as int),
            None => name_part(input@, 0) is None,
        },
{
    let v = chars_of(input);
    match name_part_exec(&v, 0) {
        Some(k) => Some((input.substring_char(k, v.len()), input.substring_char(0, k))),
        None => None,
    }
}

/// Recognizes a package name at the start of `input` (see [`package_name_at`]): what
/// follows it, then the name; `None` when `input` does not start with one.
pub fn package_name_str(input: &str) -> (r: Option<(&str, &str)>)
    ensures
        match r {
            Some((rest, name)) => package_name_at(input@, 0) matches Some(p) && name@
                == input@.subrange(0, p.total_length as int) && rest@ == input@.subrange(
                p.total_length as int,
                input@.len() as int,
            ),
            None => package_name_at(input@, 0) is None,
        },
{
    let v = chars_of(input);
    match package_name_at_exec(&v, 0) {
        Some(p) => Some(
            (input.substring_char(p.total_length, v.len()), input.substring_char(0, p.total_length)),
        ),
        None => None,
    }
}

/// What [`package_name_str`] recognizes is exactly what [`PackageName::new`] accepts:
/// it takes the whole text exactly when the text is a package name, and what it takes
/// is a package name, followed by the rest of the text.
pub proof fn law_name_str_recognizes_names(s: Seq<char>)
    ensures
        (package_name_at(s, 0) matches Some(p) && p.total_length == s.len()) <==> is_package_name(s),
        package_name_at(s, 0) matches Some(p) ==> {
            &&& is_package_name(s.subrange(0, p.total_length as int))
            &&& s == s.subrange(0, p.total_length as int) + s.subrange(p.total_length as int, s.len() as int)
        },
{
    law_name_prefix_is_name(s);
    if let Some(p) = package_name_at(s, 0) {
        let r: int = match scope_at(s, 0) {
            Some(k) => k + 2 as int,
            None => 0,
        };
        if let Some(k) = scope_at(s, 0) {
            lemma_run_len_props(s, 1, name_char_pred());
        }
        lemma_run_len_props(s, r, name_char_pred());
        assert(s =~= s.subrange(0, p.total_length as int) + s.subrange(p.total_length as int, s.len() as int));
    }
}

/// A run of characters that ends within the first `l` characters is the same run in
/// those `l` characters.
proof fn lemma_run_len_prefix(s: Seq<char>, l: int, i: int, p: spec_fn(char) -> bool)
    requires
        0 <= i <= l <= s.len(),
    ensures
        i + run_len(s, i, p) <= l ==> run_len(s.subrange(0, l), i, p) == run_len(s, i, p),
        i + run_len(s, i, p) > l ==> run_len(s.subrange(0, l), i, p) == l - i,
    decreases l - i,
{
    if i < l {
        lemma_run_len_prefix(s, l, i + 1, p);
    }
}

/// What a package name starts a text with is a package name: the prefix that
/// [`package_name_at`] recognizes is accepted whole by [`is_package_name`].
pub proof fn law_name_prefix_is_name(s: Seq<char>)
    ensures
        package_name_at(s, 0) matches Some(np) ==> is_package_name(s.subrange(0, np.total_length as int)),
{
    if let Some(np) = package_name_at(s, 0) {
        let l = np.total_length as int;
        let t = s.subrange(0, l);
        let r: int = match scope_at(s, 0) {
            Some(k) => k + 2 as int,
            None => 0,
        };
        let k2 = name_part(s, r)->Some_0;
        assert(r + k2 == l);
        if s.len() > 0 {
            lemma_run_len_props(s, 1, name_char_pred());
        }
        if r <= s.len() {
            lemma_run_len_props(s, r, name_char_pred());
        }
        assert(l <= s.len());
        if 1 <= l {
            lemma_run_len_prefix(s, l, 1, name_char_pred());
        }
        lemma_run_len_prefix(s, l, r, name_char_pred());
        assert(scope_at(t, 0) == scope_at(s, 0));
        assert(name_part(t, r) == name_part(s, r));
        assert(t.subrange(r, r + k2) =~= s.subrange(r, r + k2));
    }
}

/// `@scope` in `@scope/name`.
pub open spec fn spec_scope(s: Seq<char>) -> Option<Seq<char>> {
    match package_name_at(s, 0).unwrap().scope_end {
        Some(e) => Some(s.subrange(0, e as int)),
        None => None,
    }
}

/// `@scope/` in `@scope/name`.
pub open spec fn spec_scope_prefix(s: Seq<char>) -> Option<Seq<char>> {
    match package_name_at(s, 0).unwrap().scope_end {
        Some(e) => Some(s.subrange(0, e + 1 as int)),
        None => None,
    }
}

/// `scope` in `@scope/name`.
pub open spec fn spec_scope_name(s: Seq<char>) -> Option<Seq<char>> {
    match package_name_at(s, 0).unwrap().scope_end {
        Some(e) => Some(s.subrange(1, e as int)),
        None => None,
    }
}

/// `name` in `@scope/name`, or the whole unscoped name.
pub open spec fn spec_name_rest(s: Seq<char>) -> Seq<char> {
    match package_name_at(s, 0).unwrap().scope_end {
        Some(e) => s.subrange(e + 1 as int, s.len() as int),
        None => s,
    }
}

/// The view of an optional string slice.
pub open spec fn opt_str_view(o: Option<&str>) -> Option<Seq<char>> {
    match o {
        Some(x) => Some(x@),
        None => None,
    }
}

pub fn is_name_char_exec(c: char) -> (b: bool)
    ensures
        b == is_name_char(c),
{
    ('a' <= c && c <= 'z') || ('A' <= c && c <= 'Z') || ('0' <= c && c <= '9') || c == '.' || c
        == '-' || c == '_' || c == '(' || c == ')' || c == '~' || c == '\'' || c == '!' || c
        == '*'
}

/// Executable [`name_part`].
pub fn name_part_exec(v: &Vec<char>, i: usize) -> (r: Option<usize>)
    requires
        i <= v.len(),
    ensures
        match r {
            Some(k) => name_part(v@, i as int) == Some(k as nat) && i + k <= v.len(),
            None => name_part(v@, i as int) is None,
        },
{
    let ghost p = name_char_pred();
    let mut j = i;
    while j < v.len() && is_name_char_exec(v[j])
        invariant
            i <= j <= v.len(),
            p == name_char_pred(),
            forall|m: int| i <= m < j ==> p(#[trigger] v@[m]),
            run_len(v@, i as int, p) == (j - i) + run_len(v@, j as int, p),
        decreases v.len() - j,
    {
        j = j + 1;
    }
    proof {
        lemma_run_len_props(v@, j as int, p);
    }
    let k = j - i;
    if k == 0 || v[i] == '_' || v[i] == '.' {
        None
    } else {
        Some(k)
    }
}

/// Positions of the parts of a package name (see [`NamePos`]).
#[derive(Debug, PartialEq, Eq, Clone, Copy)]
pub struct PackageNamePositions {
    pub scope_end: Option<usize>,
    pub total_length: usize,
}

impl PackageNamePositions {
    pub open spec fn pos(self) -> NamePos {
        NamePos {
            scope_end: match self.scope_end {
                Some(e) => Some(e as nat),
                None => None,
            },
            total_length: self.total_length as nat,
        }
    }
}

/// Executable [`package_name_at`]: the package name at the start of `v[i..]`.
pub fn package_name_at_exec(v: &Vec<char>, i: usize) -> (r: Option<PackageNamePositions>)
    requires
        i <= v.len(),
    ensures
        match r {
            Some(p) => package_name_at(v@, i as int) == Some(p.pos()) && i + p.total_length
                <= v.len(),
            None => package_name_at(v@, i as int) is None,
        },
{
    let mut scope: Option<usize> = None;
    if i < v.len() && v[i] == '@' {
        match name_part_exec(v, i + 1) {
            Some(k) => {
                if i + 1 + k < v.len() && v[i + 1 + k] == '/' {
                    scope = Some(k);
                }
            },
            None => {},
        }
    }
    assert(scope_at(v@, i as int) == match scope {
        Some(k) => Some(k as nat),
        None => None::<nat>,
    });
    let r: usize = match scope {
        Some(k) => k + 2,
        None => 0,
    };
    match name_part_exec(v, i + r) {
        Some(k2) => {
            if has_at_exec(v, i + r, "node_modules") && k2 == "node_modules".unicode_len() {
                return None;
            }
            if has_at_exec(v, i + r, "favicon.ico") && k2 == "favicon.ico".unicode_len() {
                return None;
            }
            proof {
                let part = v@.subrange(i + r, i + r + k2);
                if part == "node_modules"@ {
                    assert(has_at(v@, i + r, "node_modules"@));
                }
                if part == "favicon.ico"@ {
                    assert(has_at(v@, i + r, "favicon.ico"@));
                }
            }
            Some(
                PackageNamePositions {
                    scope_end: match scope {
                        Some(k) => Some(k + 1),
                        None => None,
                    },
                    total_length: r + k2,
                },
            )
        },
        None => None,
    }
}

/// A validated npm package name.
#[derive(Debug, PartialEq, Eq)]
pub struct PackageName {
    inner: String,
    positions: PackageNamePositions,
}

/// A package name borrowed from a larger string, such as a version specifier
/// or a module path.
#[derive(Debug, PartialEq, Eq, Clone, Copy)]
pub struct PackageNameBorrowed<'a> {
    inner: &'a str,
    positions: PackageNamePositions,
}

/// `positions` describes `s`, which is a whole package name.
pub open spec fn name_positions_wf(s: Seq<char>, positions: PackageNamePositions) -> bool {
    &&& is_package_name(s)
    &&& package_name_at(s, 0) == Some(positions.pos())
}

impl View for PackageName {
    type V = Seq<char>;

    closed spec fn view(&self) -> Seq<char> {
        self.inner@
    }
}

impl<'a> View for PackageNameBorrowed<'a> {
    type V = Seq<char>;

    closed spec fn view(&self) -> Seq<char> {
        self.inner@
    }
}

impl PackageName {
    #[verifier::type_invariant]
    closed spec fn inv(self) -> bool {
        name_positions_wf(self.inner@, self.positions)
    }

    /// Validates `name` as a package name.
    pub fn new(name: String) -> (r: Result<PackageName, Error>)
        ensures
            match r {
                Ok(n) => n@ == name@ && is_package_name(name@),
                Err(e) => e == Error::InvalidPackageName(name) && !is_package_name(name@),
            },
    {
        let v = chars_of(name.as_str());
        match package_name_at_exec(&v, 0) {
            Some(p) => {
                if p.total_length == v.len() {
                    Ok(PackageName { inner: name, positions: p })
                } else {
                    Err(Error::InvalidPackageName(name))
                }
            },
            None => Err(Error::InvalidPackageName(name)),
        }
    }

    /// Builds a name from a string that is known to be one.
    pub(crate) fn from_valid(name: String, positions: PackageNamePositions) -> (r: PackageName)
        requires
            name_positions_wf(name@, positions),
        ensures
            r@ == name@,
    {
        PackageName { inner: name, positions }
    }

    pub fn as_borrowed(&self) -> (r: PackageNameBorrowed<'_>)
        ensures
            r@ == self@,
    {
        proof {
            use_type_invariant(self);
        }
        PackageNameBorrowed { inner: self.inner.as_str(), positions: self.positions }
    }

    pub fn as_str(&self) -> (r: &str)
        ensures
            r@ == self@,
    {
        self.inner.as_str()
    }

    /// `@scope` in `@scope/name`.
    pub fn scope(&self) -> (r: Option<&str>)
        ensures
            opt_str_view(r) == spec_scope(self@),
    {
        self.as_borrowed().scope()
    }

    /// `@scope/` in `@scope/name`.
    pub fn scope_prefix(&self) -> (r: Option<&str>)
        ensures
            opt_str_view(r) == spec_scope_prefix(self@),
    {
        self.as_borrowed().scope_prefix()
    }

    /// `scope` in `@scope/name`.
    pub fn scope_name(&self) -> (r: Option<&str>)
        ensures
            opt_str_view(r) == spec_scope_name(self@),
    {
        self.as_borrowed().scope_name()
    }

    /// `name` in `@scope/name`, or the whole name when unscoped.
    pub fn name_rest(&self) -> (r: &str)
        ensures
            r@ == spec_name_rest(self@),
    {
        self.as_borrowed().name_rest()
    }

    pub fn into_string(self) -> (r: String)
        ensures
            r@ == self@,
    {
        self.inner
    }
}

impl Clone for PackageName {
    fn clone(&self) -> (r: PackageName)
        ensures
            r@ == self@,
    {
        proof {
            use_type_invariant(self);
        }
        PackageName { inner: self.inner.clone(), positions: self.positions }
    }
}

impl<'a> PackageNameBorrowed<'a> {
    #[verifier::type_invariant]
    closed spec fn inv(self) -> bool {
        name_positions_wf(self.inner@, self.positions)
    }

    /// Borrows a name from a string that is known to be one.
    pub(crate) fn from_valid(name: &'a str, positions: PackageNamePositions) -> (r:
        PackageNameBorrowed<'a>)
        requires
            name_positions_wf(name@, positions),
        ensures
            r@ == name@,
    {
        PackageNameBorrowed { inner: name, positions }
    }

    pub fn to_owned(&self) -> (r: PackageName)
        ensures
            r@ == self@,
    {
        proof {
            use_type_invariant(self);
        }
        PackageName { inner: self.inner.to_owned(), positions: self.positions }
    }

    pub fn as_str(&self) -> (r: &'a str)
        ensures
            r@ == self@,
    {
        self.inner
    }

    pub fn scope(&self) -> (r: Option<&'a str>)
        ensures
            opt_str_view(r) == spec_scope(self@),
    {
        proof {
            use_type_invariant(self);
        }
        match self.positions.scope_end {
            Some(e) => Some(self.inner.substring_char(0, e)),
            None => None,
        }
    }

    pub fn scope_prefix(&self) -> (r: Option<&'a str>)
        ensures
            opt_str_view(r) == spec_scope_prefix(self@),
    {
        proof {
            use_type_invariant(self);
        }
        match self.positions.scope_end {
            Some(e) => Some(self.inner.substring_char(0, e + 1)),
            None => None,
        }
    }

    pub fn scope_name(&self) -> (r: Option<&'a str>)
        ensures
            opt_str_view(r) == spec_scope_name(self@),
    {
        proof {
            use_type_invariant(self);
        }
        match self.positions.scope_end {
            Some(e) => Some(self.inner.substring_char(1, e)),
            None => None,
        }
    }

    pub fn name_rest(&self) -> (r: &'a str)
        ensures
            r@ == spec_name_rest(self@),
    {
        proof {
            use_type_invariant(self);
        }
        match self.positions.scope_end {
            Some(e) => self.inner.substring_char(e + 1, self.positions.total_length),
            None => {
                proof {
                    assert(self.inner@.subrange(0, self.inner@.len() as int) =~= self.inner@);
                }
                self.inner
            },
        }
    }
}

/// A package name found at `i` is the same name when cut out of the string.
pub proof fn lemma_name_in_window(s: Seq<char>, i: int, p: PackageNamePositions)
    requires
        0 <= i <= s.len(),
        package_name_at(s, i) == Some(p.pos()),
    ensures
        i + p.total_length <= s.len(),
        name_positions_wf(s.subrange(i, i + p.total_length), p),
{
    let tot = p.total_length as int;
    let scope = scope_at(s, i);
    let r: int = match scope {
        Some(k) => k + 2 as int,
        None => 0,
    };
    lemma_run_len_props(s, i + r, name_char_pred());
    let k2 = run_len(s, i + r, name_char_pred()) as int;
    assert(tot == r + k2);
    let t = s.subrange(i, i + tot);
    lemma_run_len_window(s, i, i + tot, i + r, name_char_pred());
    assert(t.subrange(r, r + k2) =~= s.subrange(i + r, i + r + k2));
    match scope {
        Some(k) => {
            lemma_run_len_window(s, i, i + tot, i + 1, name_char_pred());
            assert(scope_at(t, 0) == Some(k));
        },
        None => {
            if s[i] == '@' {
                assert(!is_name_char(s[i]));
                assert(false);
            }
            assert(scope_at(t, 0) is None);
        },
    }
    assert(package_name_at(t, 0) == Some(p.pos()));
}

} // verus!
