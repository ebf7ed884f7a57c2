//! pnpm's lockfile (`pnpm-lock.yaml`), version 9.0: its contents as plain values, and
//! reading them into a chastefile.

use vstd::prelude::*;

use crate::dependency::DependencyKind;
use crate::meta::{LockfileVersion, ProviderMeta};
use crate::yarn::classic_model::opt_view;
use crate::yarn::lockfile::{pairs_view, PairsView};

pub mod model;
pub mod resolve;

verus! {

/// The name of pnpm's lockfile.
pub const LOCKFILE_NAME: &'static str = "pnpm-lock.yaml";

/// What the lockfile says of itself.
#[derive(Debug, Clone)]
pub struct Meta {
    pub lockfile_version: String,
}

impl ProviderMeta for Meta {
    fn provider_name(&self) -> (r: &'static str)
        ensures
            r@ == "pnpm"@,
    {
        "pnpm"
    }

    fn lockfile_version<'m>(&'m self) -> (r: Option<LockfileVersion<'m>>)
        ensures
            r matches Some(LockfileVersion::Str(s)) && s@ == self.lockfile_version@,
    {
        Some(LockfileVersion::Str(self.lockfile_version.as_str()))
    }
}

/// What went wrong while reading a pnpm project.
#[derive(Debug, PartialEq)]
#[non_exhaustive]
pub enum Error {
    /// The lockfile declares a version other than 9.0.
    UnknownLockfileVersion(String),
    /// A dependency names no package that was read, as `name@version`.
    DependencyPackageNotFound(String),
    /// A key of `packages` is not a package name, `@` and a specifier.
    InvalidPackageDescriptor(String),
    /// A key of `snapshots` matches no package.
    InvalidSnapshotDescriptor(String),
    /// A key of `patchedDependencies` is not a package name, alone or before `@`.
    InvalidPatchedPackageSpecifier(String),
    /// A patch hash that is not 64 bytes long, or that no patch has.
    InvalidPatchHash(String),
    /// An importer has no `package.json` among those given.
    ManifestNotFound(String),
    /// An error of the unified model.
    ChasteError(crate::error::Error),
    /// An integrity string was refused; the message of the integrity parser.
    SSRIError(String),
}

/// A dependency of an importer: what `package.json` asks for and what was installed.
#[derive(Debug)]
pub struct ImporterDependency {
    pub specifier: String,
    pub version: String,
}

/// A workspace package of the lockfile and its dependencies of each kind.
#[derive(Debug)]
pub struct Importer {
    pub dependencies: Vec<(String, ImporterDependency)>,
    pub dev_dependencies: Vec<(String, ImporterDependency)>,
    pub peer_dependencies: Vec<(String, ImporterDependency)>,
    pub optional_dependencies: Vec<(String, ImporterDependency)>,
}

/// Where a package comes from.
#[derive(Debug)]
pub struct PackageResolution {
    pub integrity: Option<String>,
    pub tarball: Option<String>,
}

/// An entry of `packages`.
#[derive(Debug)]
pub struct PackageEntry {
    pub resolution: PackageResolution,
    pub version: Option<String>,
    pub peer_dependencies: Vec<(String, String)>,
}

/// An entry of `snapshots`: a package as installed, with its dependencies.
#[derive(Debug)]
pub struct Snapshot {
    pub dependencies: Vec<(String, String)>,
    pub optional_dependencies: Vec<(String, String)>,
}

/// An entry of `patchedDependencies`.
#[derive(Debug)]
pub struct PatchedDependency {
    pub path: String,
    pub hash: String,
}

/// The lockfile: its version, and its maps as lists of pairs, each key once.
#[derive(Debug)]
pub struct PnpmLockfile {
    pub lockfile_version: String,
    pub importers: Vec<(String, Importer)>,
    pub packages: Vec<(String, PackageEntry)>,
    pub snapshots: Vec<(String, Snapshot)>,
    pub patched_dependencies: Vec<(String, PatchedDependency)>,
}

/// What is read of a `package.json`: name and version.
#[derive(Debug)]
pub struct PackageJson {
    pub name: Option<String>,
    pub version: Option<String>,
}

/// A dependency of an importer as text: name, then specifier and version.
pub type ImpDepView = (Seq<char>, (Seq<char>, Seq<char>));

pub open spec fn imp_deps_view(v: Seq<(String, ImporterDependency)>) -> Seq<ImpDepView> {
    v.map_values(|d: (String, ImporterDependency)| (d.0@, (d.1.specifier@, d.1.version@)))
}

/// An entry of `packages` as text.
pub struct PkgView {
    pub integrity: Option<Seq<char>>,
    pub tarball: Option<Seq<char>>,
    pub version: Option<Seq<char>>,
    pub peers: PairsView,
}

/// The lockfile as text; an importer is its lists of dependencies with their kind,
/// in the order in which they are read.
pub struct LockView {
    pub version: Seq<char>,
    pub importers: Seq<(Seq<char>, Seq<(Seq<ImpDepView>, DependencyKind)>)>,
    pub packages: Seq<(Seq<char>, PkgView)>,
    pub snapshots: Seq<(Seq<char>, (PairsView, PairsView))>,
    pub patched: Seq<(Seq<char>, (Seq<char>, Seq<char>))>,
}

pub open spec fn importer_view(i: Importer) -> Seq<(Seq<ImpDepView>, DependencyKind)> {
    seq![
        (imp_deps_view(i.dependencies@), DependencyKind::Dependency),
        (imp_deps_view(i.dev_dependencies@), DependencyKind::DevDependency),
        (imp_deps_view(i.peer_dependencies@), DependencyKind::PeerDependency),
        (imp_deps_view(i.optional_dependencies@), DependencyKind::OptionalDependency),
    ]
}

pub open spec fn pkg_view(p: PackageEntry) -> PkgView {
    PkgView {
        integrity: opt_view(p.resolution.integrity),
        tarball: opt_view(p.resolution.tarball),
        version: opt_view(p.version),
        peers: pairs_view(p.peer_dependencies@),
    }
}

impl View for PnpmLockfile {
    type V = LockView;

    open spec fn view(&self) -> LockView {
        LockView {
            version: self.lockfile_version@,
            importers: self.importers@.map_values(|x: (String, Importer)| (x.0@, importer_view(x.1))),
            packages: self.packages@.map_values(|x: (String, PackageEntry)| (x.0@, pkg_view(x.1))),
            snapshots: self.snapshots@.map_values(
                |x: (String, Snapshot)| (x.0@, (pairs_view(x.1.dependencies@), pairs_view(x.1.optional_dependencies@))),
            ),
            patched: self.patched_dependencies@.map_values(
                |x: (String, PatchedDependency)| (x.0@, (x.1.path@, x.1.hash@)),
            ),
        }
    }
}

/// The `package.json` of each importer, by its path, as text.
pub open spec fn manifests_view(m: Seq<(String, PackageJson)>) -> Seq<(Seq<char>, (Option<Seq<char>>, Option<Seq<char>>))> {
    m.map_values(|x: (String, PackageJson)| (x.0@, (opt_view(x.1.name), opt_view(x.1.version))))
}

} // verus!
