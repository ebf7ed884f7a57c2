//! Errors raised while building the unified lockfile model.

use vstd::prelude::*;

use crate::modpath::{parse_module_path, MpErr};


verus! {

/// What went wrong while reading a lockfile into the unified model.
#[derive(Debug, PartialEq)]
pub enum Error {
    /// A [`crate::chastefile::Chastefile`] was built without a root package.
    MissingRootPackageID,
    /// The string is not an npm package name.
    InvalidPackageName(String),
    /// The string is not a module path (see [`crate::modpath::ModulePath`]).
    InvalidModulePath(String),
    /// The string is not a source/version specifier of any recognized kind.
    InvalidSVS(String),
    /// A version string was refused by the semver parser.
    SemverError(nodejs_semver::SemverError),
    /// A source/version descriptor could not be recognized.
    SVDError(SVDError),
}

/// Which error of the unified model a reader reports, as plain values.
pub enum ChasteFail {
    /// The text is not a package name.
    Name(Seq<char>),
    /// The version does not parse.
    Version,
    /// The text is not a module path.
    Path(Seq<char>),
    /// The first of these texts that is not a module path.
    FirstPath(Seq<Seq<char>>),
    /// The text is not a specifier.
    Svs(Seq<char>),
    /// No root package was set.
    Root,
}

/// `e` is the error reported for the module path `s` that is refused: the path, or
/// the part of it that is not a package name.
pub open spec fn modpath_refusal(s: Seq<char>, e: Error) -> bool {
    match parse_module_path(s) {
        Err(MpErr::Path) => e matches Error::InvalidModulePath(v) && v@ == s,
        Err(MpErr::Name(a, b)) => e matches Error::InvalidPackageName(t) && t@ == s.subrange(a, b),
        Ok(_) => false,
    }
}

/// `e` is the error reported for `f`.
pub open spec fn chaste_fail_is(e: Error, f: ChasteFail) -> bool {
    match f {
        ChasteFail::Name(s) => e matches Error::InvalidPackageName(t) && t@ == s,
        ChasteFail::Version => e is SemverError,
        ChasteFail::Path(s) => modpath_refusal(s, e),
        ChasteFail::FirstPath(ss) => exists|k: int|
            0 <= k < ss.len() && (forall|j: int| 0 <= j < k ==> parse_module_path(#[trigger] ss[j]) is Ok)
                && parse_module_path(ss[k]) is Err && modpath_refusal(ss[k], e),
        ChasteFail::Svs(s) => e matches Error::InvalidSVS(t) && t@ == s,
        ChasteFail::Root => e == Error::MissingRootPackageID,
    }
}

/// Errors specific to source/version descriptors.
#[derive(Debug, PartialEq)]
pub enum SVDError {
    /// None of the descriptor kinds matched the string.
    UnrecognizedType(String),
}

} // verus!
