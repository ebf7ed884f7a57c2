//! bun's text lockfile `bun.lock`, read into a chastefile.
//!
//! The JSONC document is decoded elsewhere into [`BunLock`]; this module resolves
//! packages, installations and dependencies from it.

pub mod keys;
pub mod parse;
pub mod resolve;


use vstd::prelude::*;

use crate::meta::{LockfileVersion, ProviderMeta};

verus! {

/// The name of bun's text lockfile.
pub const LOCKFILE_NAME: &'static str = "bun.lock";

/// What went wrong while reading a bun lockfile.
#[derive(Debug)]
#[non_exhaustive]
pub enum Error {
    /// The lockfile declares a version this reader does not know.
    UnknownLockfileVersion(u8),
    /// A key of `packages` could not be read.
    InvalidKey(String),
    /// A package descriptor could not be read.
    InvalidDescriptor(String),
    /// No package is found for the dependency (`name@specifier`).
    DependencyNotFound(String),
    /// The data of the package under this key has an unexpected shape.
    InvalidVariant(String),
    /// The data of the package under this key does not fit its specifier.
    VariantMarkerMismatch(String),
    /// A value was refused by the unified model.
    ChasteError(crate::error::Error),
    /// An integrity string was refused; the message of the integrity parser.
    SSRIError(String),
}

/// Which lockfile version bun wrote.
#[derive(Debug, Clone)]
#[non_exhaustive]
pub struct Meta {
    pub lockfile_version: u8,
}

impl ProviderMeta for Meta {
    fn provider_name(&self) -> (r: &'static str)
        ensures
            r@ == "bun"@,
    {
        "bun"
    }

    fn lockfile_version<'m>(&'m self) -> (r: Option<LockfileVersion<'m>>)
        ensures
            r == Some(LockfileVersion::U8(self.lockfile_version)),
    {
        Some(LockfileVersion::U8(self.lockfile_version))
    }
}

/// The dependencies of a package or workspace member, each map as a list of
/// (name, specifier) pairs, and the names of the optional peers.
#[derive(Debug, Clone)]
pub struct PackageRelations {
    pub dependencies: Vec<(String, String)>,
    pub dev_dependencies: Vec<(String, String)>,
    pub peer_dependencies: Vec<(String, String)>,
    pub optional_dependencies: Vec<(String, String)>,
    pub optional_peers: Vec<String>,
}

/// A workspace member: its name, version and dependencies.
#[derive(Debug, Clone)]
pub struct WorkspaceMember {
    pub name: Option<String>,
    pub version: Option<String>,
    pub relations: PackageRelations,
}

/// One element of a package's data array.
#[derive(Debug, Clone)]
pub enum LockPackageElement {
    Relations(PackageRelations),
    String(String),
}

/// The lockfile document: the format version, the workspace members by location
/// (`""` is the project itself), the packages by key, and the patches by package
/// descriptor.
#[derive(Debug, Clone)]
pub struct BunLock {
    pub lockfile_version: u8,
    pub workspaces: Vec<(String, WorkspaceMember)>,
    pub packages: Vec<(String, Vec<LockPackageElement>)>,
    pub patched_dependencies: Vec<(String, String)>,
}

} // verus!
