//! Source/version descriptors: the constraint a dependency states, read the way
//! lockfiles write it.

use vstd::prelude::*;
use vstd::string::StrSliceExecFns;

use crate::error::{Error, SVDError};
use crate::name::{opt_str_view, package_name_at, package_name_at_exec, NamePos, PackageNamePositions};
use crate::semver::{parse_range, semver_range_parses};
use crate::svs::{npm_prefix_len, spec_github, spec_url, SvsPos};
use crate::text::chars_of;

verus! {

/// Where the recognized parts of a descriptor lie.
pub enum SvdPos {
    Npm { type_prefix_end: nat, alias: Option<NamePos> },
    TarballURL,
    Git { type_prefix_end: nat },
    GitHub { type_prefix_end: nat },
}

/// Where a package name attempt at the start of an npm descriptor ends.
pub open spec fn svd_name_end(s: Seq<char>) -> int {
    let tp = npm_prefix_len(s) as int;
    match package_name_at(s, tp) {
        Some(p) => tp + p.total_length,
        None => tp,
    }
}

/// The descriptor has `@` after its optional package name.
pub open spec fn svd_has_at_sign(s: Seq<char>) -> bool {
    svd_name_end(s) < s.len() && s[svd_name_end(s)] == '@'
}

/// The aliased name: present when a package name is followed by `@`.
pub open spec fn svd_alias(s: Seq<char>) -> Option<NamePos> {
    if svd_has_at_sign(s) {
        package_name_at(s, npm_prefix_len(s) as int)
    } else {
        None
    }
}

/// Where the version range begins: after the `@`, when there is one.
pub open spec fn svd_range_start(s: Seq<char>) -> int {
    if svd_has_at_sign(s) {
        svd_name_end(s) + 1
    } else {
        npm_prefix_len(s) as int
    }
}

/// The string handed to the range parser; an empty range means any version.
pub open spec fn svd_range_input(s: Seq<char>) -> Seq<char> {
    let t = s.subrange(svd_range_start(s), s.len() as int);
    if t.len() == 0 {
        "*"@
    } else {
        t
    }
}

/// Descriptor kinds are tried in order: npm range, URL, GitHub slug.
pub open spec fn classify_svd(s: Seq<char>, range_parses: bool) -> Option<SvdPos> {
    if range_parses {
        Some(SvdPos::Npm { type_prefix_end: npm_prefix_len(s), alias: svd_alias(s) })
    } else {
        match spec_url(s) {
            Some(SvsPos::Git { type_prefix_end, .. }) => Some(SvdPos::Git { type_prefix_end }),
            Some(_) => Some(SvdPos::TarballURL),
            None => match spec_github(s) {
                Some(SvsPos::GitHub { type_prefix_end }) => Some(SvdPos::GitHub { type_prefix_end }),
                _ => None,
            },
        }
    }
}

/// How the descriptor `s` is read, with the range parser's verdict on its range.
pub open spec fn parse_svd(s: Seq<char>) -> Option<SvdPos> {
    classify_svd(s, semver_range_parses(svd_range_input(s)))
}

pub open spec fn svd_wf(s: Seq<char>, pos: SvdPos) -> bool {
    match pos {
        SvdPos::Npm { type_prefix_end, alias } => type_prefix_end == npm_prefix_len(s) && alias
            == svd_alias(s),
        _ => true,
    }
}

/// The aliased package name of an npm descriptor.
pub open spec fn spec_svd_aliased_name(s: Seq<char>, pos: SvdPos) -> Option<Seq<char>> {
    match pos {
        SvdPos::Npm { type_prefix_end, alias: Some(p) } => Some(
            s.subrange(type_prefix_end as int, type_prefix_end + p.total_length as int),
        ),
        _ => None,
    }
}

#[derive(Debug, Clone, Copy)]
enum SourceVersionDescriptorPositions {
    Npm { type_prefix_end: usize, alias_package_name: Option<PackageNamePositions> },
    TarballURL,
    Git { type_prefix_end: usize },
    GitHub { type_prefix_end: usize },
}

impl SourceVersionDescriptorPositions {
    spec fn pos(self) -> SvdPos {
        match self {
            SourceVersionDescriptorPositions::Npm { type_prefix_end, alias_package_name } => {
                SvdPos::Npm {
                    type_prefix_end: type_prefix_end as nat,
                    alias: match alias_package_name {
                        Some(p) => Some(p.pos()),
                        None => None,
                    },
                }
            },
            SourceVersionDescriptorPositions::TarballURL => SvdPos::TarballURL,
            SourceVersionDescriptorPositions::Git { type_prefix_end } => SvdPos::Git {
                type_prefix_end: type_prefix_end as nat,
            },
            SourceVersionDescriptorPositions::GitHub { type_prefix_end } => SvdPos::GitHub {
                type_prefix_end: type_prefix_end as nat,
            },
        }
    }
}

/// The prefix length, the alias, and where the range starts.
fn svd_npm_parts(v: &Vec<char>) -> (r: (usize, Option<PackageNamePositions>, usize))
    ensures
        r.0 == npm_prefix_len(v@),
        match r.1 {
            Some(p) => svd_alias(v@) == Some(p.pos()),
            None => svd_alias(v@) is None,
        },
        r.2 == svd_range_start(v@),
        r.2 <= v.len(),
{
    let tp = crate::svs::npm_prefix_len_exec(v);
    let name = package_name_at_exec(v, tp);
    let end = match name {
        Some(p) => tp + p.total_length,
        None => tp,
    };
    if end < v.len() && v[end] == '@' {
        (tp, name, end + 1)
    } else {
        (tp, None, tp)
    }
}

/// Source/version descriptor. It is a constraint defined by a specific dependency
/// rather than by a package source.
#[derive(Debug)]
pub struct SourceVersionDescriptor {
    inner: String,
    positions: SourceVersionDescriptorPositions,
}

/// The kind of a [`SourceVersionDescriptor`].
#[non_exhaustive]
pub enum SourceVersionDescriptorType {
    /// Package from an npm registry.
    Npm,
    /// Arbitrary tarball URL.
    TarballURL,
    /// Git repository.
    Git,
    /// GitHub repository slug.
    GitHub,
}

impl View for SourceVersionDescriptor {
    type V = Seq<char>;

    closed spec fn view(&self) -> Seq<char> {
        self.inner@
    }
}

impl SourceVersionDescriptor {
    #[verifier::type_invariant]
    closed spec fn inv(self) -> bool {
        &&& svd_wf(self.inner@, self.positions.pos())
        &&& self.inner@.len() <= usize::MAX
    }

    /// How this descriptor was read.
    pub closed spec fn positions(self) -> SvdPos {
        self.positions.pos()
    }

    /// Reads `svd`, given whether its npm range (see [`svd_range_input`]) is accepted
    /// by the range parser.
    pub fn classify(svd: String, range_parses: bool) -> (r: Result<SourceVersionDescriptor, Error>)
        ensures
            match r {
                Ok(x) => x@ == svd@ && classify_svd(svd@, range_parses) == Some(x.positions()),
                Err(e) => e == Error::SVDError(SVDError::UnrecognizedType(svd))
                    && classify_svd(svd@, range_parses) is None,
            },
    {
        let v = chars_of(svd.as_str());
        let positions = if range_parses {
            let (tp, alias, _) = svd_npm_parts(&v);
            SourceVersionDescriptorPositions::Npm { type_prefix_end: tp, alias_package_name: alias }
        } else {
            match crate::svs::url_kind_exec(&v) {
                Some((true, tp)) => SourceVersionDescriptorPositions::Git { type_prefix_end: tp },
                Some((false, _)) => SourceVersionDescriptorPositions::TarballURL,
                None => match crate::svs::github_prefix_exec(&v) {
                    Some(tp) => SourceVersionDescriptorPositions::GitHub { type_prefix_end: tp },
                    None => {
                        return Err(Error::SVDError(SVDError::UnrecognizedType(svd)));
                    },
                },
            }
        };
        Ok(SourceVersionDescriptor { inner: svd, positions })
    }

    /// Reads a descriptor.
    pub fn new(svd: String) -> (r: Result<SourceVersionDescriptor, Error>)
        ensures
            match r {
                Ok(x) => x@ == svd@ && parse_svd(svd@) == Some(x.positions()),
                Err(e) => e == Error::SVDError(SVDError::UnrecognizedType(svd)) && parse_svd(svd@)
                    is None,
            },
    {
        let v = chars_of(svd.as_str());
        let (_, _, start) = svd_npm_parts(&v);
        let range_ok = if start == v.len() {
            parse_range("*").is_ok()
        } else {
            parse_range(svd.as_str().substring_char(start, v.len())).is_ok()
        };
        Self::classify(svd, range_ok)
    }

    pub fn as_str(&self) -> (r: &str)
        ensures
            r@ == self@,
    {
        self.inner.as_str()
    }

    /// Whether the descriptor chooses an npm version range.
    pub fn is_npm(&self) -> (b: bool)
        ensures
            b == (self.positions() is Npm),
    {
        matches!(self.positions, SourceVersionDescriptorPositions::Npm { .. })
    }

    /// Package name specified as aliased in the version descriptor.
    pub fn aliased_package_name(&self) -> (r: Option<&str>)
        ensures
            opt_str_view(r) == spec_svd_aliased_name(self@, self.positions()),
    {
        proof {
            use_type_invariant(self);
        }
        match self.positions {
            SourceVersionDescriptorPositions::Npm {
                type_prefix_end,
                alias_package_name: Some(p),
            } => {
                assert(type_prefix_end + p.total_length < self.inner@.len());
                Some(
                    self.inner.as_str().substring_char(
                        type_prefix_end,
                        type_prefix_end + p.total_length,
                    ),
                )
            },
            _ => None,
        }
    }
}

} // verus!
