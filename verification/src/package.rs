//! Packages and the builder that checks them.

use vstd::prelude::*;

use crate::checksums::Checksums;
use crate::derivation::{PackageDerivation, PackageDerivationMeta};
use crate::error::Error;
use crate::name::PackageName;
use crate::semver::{parse_version, semver_display, semver_version_parses, version_display};
use crate::source::{PackageSource, PackageSourceType};

verus! {

/// Identifies a package within one chastefile.
#[derive(Debug, PartialEq, Eq, Hash, Clone, Copy, Structural)]
pub struct PackageID(pub(crate) usize);

impl PackageID {
    pub closed spec fn id(self) -> usize {
        self.0
    }

    pub(crate) fn from_index(i: usize) -> (r: PackageID)
        ensures
            r.id() == i,
            r == pid_at(i as nat),
    {
        PackageID(i)
    }

    /// The index behind this id.
    pub fn index(self) -> (r: usize)
        ensures
            r == self.id(),
    {
        self.0
    }
}

/// The id given to the package at index `i`.
pub closed spec fn pid_at(i: nat) -> PackageID {
    PackageID(i as usize)
}

/// Ids are their indices.
pub proof fn lemma_pid_at(i: nat)
    requires
        i <= usize::MAX,
    ensures
        pid_at(i).id() == i,
{
}

/// An id is determined by its index.
pub proof fn lemma_pid_eq(a: PackageID, b: PackageID)
    requires
        a.id() == b.id(),
    ensures
        a == b,
{
}

/// The version of a package: the text it was read from, which is a valid version.
#[derive(Debug, PartialEq, Eq)]
pub struct PackageVersion {
    text: String,
}

impl PackageVersion {
    #[verifier::type_invariant]
    closed spec fn inv(self) -> bool {
        semver_version_parses(self.text@)
    }

    /// The text of the version.
    pub closed spec fn spec_text(self) -> Seq<char> {
        self.text@
    }

    /// Checks that the text is a version, as `nodejs_semver` reads versions.
    pub fn new(text: String) -> (r: Result<PackageVersion, nodejs_semver::SemverError>)
        ensures
            r is Ok <==> semver_version_parses(text@),
            r matches Ok(v) ==> v.spec_text() == text@,
    {
        match parse_version(text.as_str()) {
            Ok(_) => Ok(PackageVersion { text }),
            Err(e) => Err(e),
        }
    }

    /// The text the version was read from.
    pub fn as_str(&self) -> (r: &str)
        ensures
            r@ == self.spec_text(),
    {
        self.text.as_str()
    }

    /// The version written out as `nodejs_semver` writes it (see [`semver_display`]).
    pub fn to_string(&self) -> (r: String)
        ensures
            r@ == semver_display(self.spec_text()),
    {
        proof {
            use_type_invariant(self);
        }
        version_display(self.text.as_str())
    }
}

/// A package as installed: its name, version, checksums, source, and what it was
/// derived from, each when known.
#[derive(Debug, PartialEq, Eq)]
pub struct Package {
    name: Option<PackageName>,
    version: Option<PackageVersion>,
    checksums: Option<Checksums>,
    source: Option<PackageSource>,
    derived: Option<PackageDerivationMeta>,
}

pub open spec fn opt_name_view(n: Option<PackageName>) -> Option<Seq<char>> {
    match n {
        Some(x) => Some(x@),
        None => None,
    }
}

impl Package {
    #[verifier::type_invariant]
    closed spec fn inv(self) -> bool {
        self.checksums matches Some(c) ==> c.spec_integrity()@.len() > 0
    }

    pub closed spec fn spec_name(self) -> Option<Seq<char>> {
        opt_name_view(self.name)
    }

    /// The text of the version, when there is one.
    pub closed spec fn spec_version(self) -> Option<Seq<char>> {
        match self.version {
            Some(v) => Some(v.spec_text()),
            None => None,
        }
    }

    pub open spec fn has_version(self) -> bool {
        self.spec_version() is Some
    }

    pub closed spec fn spec_checksums(self) -> Option<Checksums> {
        self.checksums
    }

    pub closed spec fn spec_source(self) -> Option<PackageSource> {
        self.source
    }

    pub closed spec fn spec_derived(self) -> Option<PackageDerivationMeta> {
        self.derived
    }

    pub fn name(&self) -> (r: Option<&PackageName>)
        ensures
            match r {
                Some(n) => self.spec_name() == Some(n@),
                None => self.spec_name() is None,
            },
    {
        self.name.as_ref()
    }

    pub fn version(&self) -> (r: Option<&PackageVersion>)
        ensures
            match r {
                Some(v) => self.spec_version() == Some(v.spec_text()),
                None => self.spec_version() is None,
            },
    {
        self.version.as_ref()
    }

    /// Checksums, which hold at least one hash when present.
    pub fn checksums(&self) -> (r: Option<&Checksums>)
        ensures
            r == match self.spec_checksums() {
                Some(c) => Some(&c),
                None => None,
            },
            r matches Some(c) ==> c.spec_integrity()@.len() > 0,
    {
        proof {
            use_type_invariant(self);
        }
        self.checksums.as_ref()
    }

    pub fn source(&self) -> (r: Option<&PackageSource>)
        ensures
            r == match self.spec_source() {
                Some(s) => Some(&s),
                None => None,
            },
    {
        self.source.as_ref()
    }

    pub fn source_type(&self) -> (r: Option<PackageSourceType>)
        ensures
            r == match self.spec_source() {
                Some(s) => Some(s.spec_source_type()),
                None => None,
            },
    {
        match &self.source {
            Some(s) => Some(s.source_type()),
            None => None,
        }
    }

    pub fn derivation(&self) -> (r: Option<&PackageDerivation>)
        ensures
            r == match self.spec_derived() {
                Some(d) => Some(&d.spec_derivation()),
                None => None,
            },
    {
        match &self.derived {
            Some(d) => Some(d.derivation()),
            None => None,
        }
    }

    pub fn derivation_meta(&self) -> (r: Option<&PackageDerivationMeta>)
        ensures
            r == match self.spec_derived() {
                Some(d) => Some(&d),
                None => None,
            },
    {
        self.derived.as_ref()
    }

    pub fn derived_from(&self) -> (r: Option<PackageID>)
        ensures
            r == match self.spec_derived() {
                Some(d) => Some(d.spec_from()),
                None => None,
            },
    {
        match &self.derived {
            Some(d) => Some(d.derived_from()),
            None => None,
        }
    }

    pub fn is_derived(&self) -> (b: bool)
        ensures
            b == self.spec_derived() is Some,
    {
        self.derived.is_some()
    }
}

/// Collects what is known of a package, then checks it.
pub struct PackageBuilder {
    name: Option<PackageName>,
    version: Option<String>,
    checksums: Option<Checksums>,
    source: Option<PackageSource>,
    derived: Option<PackageDerivationMeta>,
}

pub open spec fn opt_string_view(s: Option<String>) -> Option<Seq<char>> {
    match s {
        Some(x) => Some(x@),
        None => None,
    }
}

impl PackageBuilder {
    pub closed spec fn spec_name(self) -> Option<Seq<char>> {
        opt_name_view(self.name)
    }

    pub closed spec fn spec_version(self) -> Option<Seq<char>> {
        opt_string_view(self.version)
    }

    pub closed spec fn spec_checksums(self) -> Option<Checksums> {
        self.checksums
    }

    pub closed spec fn spec_source(self) -> Option<PackageSource> {
        self.source
    }

    pub closed spec fn spec_derived(self) -> Option<PackageDerivationMeta> {
        self.derived
    }

    pub fn new(name: Option<PackageName>, version: Option<String>) -> (r: PackageBuilder)
        ensures
            r.spec_name() == opt_name_view(name),
            r.spec_version() == opt_string_view(version),
            r.spec_checksums() is None,
            r.spec_source() is None,
            r.spec_derived() is None,
    {
        PackageBuilder { name, version, checksums: None, source: None, derived: None }
    }

    pub fn get_name(&self) -> (r: Option<&PackageName>)
        ensures
            match r {
                Some(n) => self.spec_name() == Some(n@),
                None => self.spec_name() is None,
            },
    {
        self.name.as_ref()
    }

    pub fn name(&mut self, new_name: Option<PackageName>)
        ensures
            final(self).spec_name() == opt_name_view(new_name),
            final(self).spec_version() == old(self).spec_version(),
            final(self).spec_checksums() == old(self).spec_checksums(),
            final(self).spec_source() == old(self).spec_source(),
            final(self).spec_derived() == old(self).spec_derived(),
    {
        self.name = new_name;
    }

    pub fn version(&mut self, new_version: Option<String>)
        ensures
            final(self).spec_name() == old(self).spec_name(),
            final(self).spec_version() == opt_string_view(new_version),
            final(self).spec_checksums() == old(self).spec_checksums(),
            final(self).spec_source() == old(self).spec_source(),
            final(self).spec_derived() == old(self).spec_derived(),
    {
        self.version = new_version;
    }

    pub fn checksums(&mut self, new_checksums: Checksums)
        ensures
            final(self).spec_name() == old(self).spec_name(),
            final(self).spec_version() == old(self).spec_version(),
            final(self).spec_checksums() == Some(new_checksums),
            final(self).spec_source() == old(self).spec_source(),
            final(self).spec_derived() == old(self).spec_derived(),
    {
        self.checksums = Some(new_checksums);
    }

    pub fn source(&mut self, new_source: PackageSource)
        ensures
            final(self).spec_name() == old(self).spec_name(),
            final(self).spec_version() == old(self).spec_version(),
            final(self).spec_checksums() == old(self).spec_checksums(),
            final(self).spec_source() == Some(new_source),
            final(self).spec_derived() == old(self).spec_derived(),
    {
        self.source = Some(new_source);
    }

    pub fn derived(&mut self, new_derived: PackageDerivationMeta)
        ensures
            final(self).spec_name() == old(self).spec_name(),
            final(self).spec_version() == old(self).spec_version(),
            final(self).spec_checksums() == old(self).spec_checksums(),
            final(self).spec_source() == old(self).spec_source(),
            final(self).spec_derived() == Some(new_derived),
    {
        self.derived = Some(new_derived);
    }

    /// Parses the version, and drops checksums that hold no hash.
    pub fn build(self) -> (r: Result<Package, Error>)
        ensures
            match r {
                Ok(p) => {
                    &&& (self.spec_version() matches Some(v) ==> semver_version_parses(v))
                    &&& p.spec_name() == self.spec_name()
                    &&& p.spec_version() == self.spec_version()
                    &&& p.spec_checksums() == match self.spec_checksums() {
                        Some(c) => if c.spec_integrity()@.len() > 0 {
                            Some(c)
                        } else {
                            None
                        },
                        None => None,
                    }
                    &&& p.spec_source() == self.spec_source()
                    &&& p.spec_derived() == self.spec_derived()
                },
                Err(Error::SemverError(_)) => self.spec_version() matches Some(v)
                    && !semver_version_parses(v),
                Err(_) => false,
            },
    {
        let version = match &self.version {
            Some(v) => match PackageVersion::new(v.clone()) {
                Ok(parsed) => Some(parsed),
                Err(e) => {
                    return Err(Error::SemverError(e));
                },
            },
            None => None,
        };
        let checksums = match self.checksums {
            Some(c) => if c.integrity().is_empty() {
                None
            } else {
                Some(c)
            },
            None => None,
        };
        Ok(
            Package {
                name: self.name,
                version,
                checksums,
                source: self.source,
                derived: self.derived,
            },
        )
    }
}

} // verus!
