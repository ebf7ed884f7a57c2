//! Where a package was fetched from.

use vstd::prelude::*;

verus! {

/// The type of a [`PackageSource`].
#[derive(Debug, PartialEq, Eq, Clone, Copy, Structural)]
#[non_exhaustive]
pub enum PackageSourceType {
    /// An npm registry (not necessarily registry.npmjs.com).
    Npm,
    /// Arbitrary URL to a .tar.gz file, no registry involved.
    TarballURL,
    /// Git repository.
    Git,
}

/// Where a package came from. GitHub slugs resolve to either a git or a tarball
/// source, depending on the package manager.
#[derive(Debug, PartialEq, Eq, Clone)]
#[non_exhaustive]
pub enum PackageSource {
    /// An npm registry.
    Npm,
    /// An arbitrary tarball URL.
    TarballURL { url: String },
    /// A git repository.
    Git { url: String },
}

/// A source as plain values: the URL of a tarball or git source.
pub enum SourceView {
    Npm,
    TarballURL(Seq<char>),
    Git(Seq<char>),
}

pub open spec fn source_view(s: PackageSource) -> SourceView {
    match s {
        PackageSource::Npm => SourceView::Npm,
        PackageSource::TarballURL { url } => SourceView::TarballURL(url@),
        PackageSource::Git { url } => SourceView::Git(url@),
    }
}

pub open spec fn opt_source_view(s: Option<PackageSource>) -> Option<SourceView> {
    match s {
        Some(x) => Some(source_view(x)),
        None => None,
    }
}

impl PackageSource {
    pub open spec fn spec_source_type(self) -> PackageSourceType {
        match self {
            PackageSource::Npm => PackageSourceType::Npm,
            PackageSource::TarballURL { .. } => PackageSourceType::TarballURL,
            PackageSource::Git { .. } => PackageSourceType::Git,
        }
    }

    pub fn source_type(&self) -> (t: PackageSourceType)
        ensures
            t == self.spec_source_type(),
    {
        match self {
            PackageSource::Npm => PackageSourceType::Npm,
            PackageSource::TarballURL { .. } => PackageSourceType::TarballURL,
            PackageSource::Git { .. } => PackageSourceType::Git,
        }
    }
}

impl PackageSource {
    /// A copy of the source.
    pub fn duplicate(&self) -> (r: PackageSource)
        ensures
            source_view(r) == source_view(*self),
    {
        match self {
            PackageSource::Npm => PackageSource::Npm,
            PackageSource::TarballURL { url } => PackageSource::TarballURL { url: url.clone() },
            PackageSource::Git { url } => PackageSource::Git { url: url.clone() },
        }
    }
}

} // verus!
