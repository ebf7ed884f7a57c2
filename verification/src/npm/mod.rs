//! npm's `package-lock.json` (and `npm-shrinkwrap.json`), read into a chastefile.
//!
//! The JSON document is decoded elsewhere into [`PackageLock`]; this module
//! resolves packages, installations and dependencies from it.

pub mod parse;
pub mod paths;

use vstd::prelude::*;

use crate::meta::{LockfileVersion, ProviderMeta};

verus! {

/// The name of the lockfile that npm writes by default.
pub const LOCKFILE_NAME: &'static str = "package-lock.json";

/// The name of the lockfile that npm publishes along with a package.
pub const SHRINKWRAP_NAME: &'static str = "npm-shrinkwrap.json";

/// What went wrong while reading an npm lockfile.
#[derive(Debug)]
pub enum Error {
    /// No installation of the named dependency is visible from the dependent.
    DependencyNotFound(String),
    /// The lockfile declares a version this reader does not know.
    UnknownLockVersion(u8),
    /// A value was refused by the unified model.
    ChasteError(crate::error::Error),
    /// An integrity string was refused; the message of the integrity parser.
    SSRIError(String),
    /// A link entry points to no installed package.
    WorkspaceMemberNotFound(String),
    /// A path could not be split into tokens.
    LogosError(paths::PathLexingError),
}

/// Which lockfile version npm wrote.
#[derive(Debug, Clone)]
pub struct Meta {
    pub lockfile_version: u8,
}

impl ProviderMeta for Meta {
    fn provider_name(&self) -> (r: &'static str)
        ensures
            r@ == "npm"@,
    {
        "npm"
    }

    fn lockfile_version<'m>(&'m self) -> (r: Option<LockfileVersion<'m>>)
        ensures
            r == Some(LockfileVersion::U8(self.lockfile_version)),
    {
        Some(LockfileVersion::U8(self.lockfile_version))
    }
}

/// Peer dependency options of a package.
#[derive(Debug, Clone)]
pub struct PeerDependencyMeta {
    pub optional: Option<bool>,
}

/// One entry of the `packages` object, keyed by its installation path.
/// Each dependency map is a list of (name, specifier) pairs.
#[derive(Debug, Clone)]
pub struct DependencyTreePackage {
    pub name: Option<String>,
    pub version: Option<String>,
    pub resolved: Option<String>,
    pub link: Option<bool>,
    pub integrity: Option<String>,
    pub dependencies: Vec<(String, String)>,
    pub dev_dependencies: Vec<(String, String)>,
    pub peer_dependencies: Vec<(String, String)>,
    pub peer_dependencies_meta: Vec<(String, PeerDependencyMeta)>,
    pub optional_dependencies: Vec<(String, String)>,
}

/// The lockfile document: the project name, the format version, and the
/// packages by installation path (`""` is the project itself).
#[derive(Debug, Clone)]
pub struct PackageLock {
    pub name: String,
    pub lockfile_version: u8,
    pub packages: Vec<(String, DependencyTreePackage)>,
}

} // verus!
