//! Packages derived from other packages, such as patched ones.

use vstd::prelude::*;

use crate::checksums::Integrity;
use crate::error::Error;
use crate::package::PackageID;

verus! {

/// A patch applied over a package.
#[derive(Debug, Clone, PartialEq, Eq)]
#[non_exhaustive]
pub struct PackagePatch {
    path: String,
    integrity: Option<Integrity>,
}

impl PackagePatch {
    pub closed spec fn spec_path(self) -> Seq<char> {
        self.path@
    }

    pub closed spec fn spec_integrity(self) -> Option<Integrity> {
        self.integrity
    }

    /// Path of the patch file.
    pub fn path(&self) -> (r: &str)
        ensures
            r@ == self.spec_path(),
    {
        self.path.as_str()
    }

    /// Integrity of the patch file.
    pub fn integrity(&self) -> (r: Option<&Integrity>)
        ensures
            r == match self.spec_integrity() {
                Some(i) => Some(&i),
                None => None,
            },
    {
        self.integrity.as_ref()
    }
}

pub struct PackagePatchBuilder {
    path: String,
    integrity: Option<Integrity>,
}

impl PackagePatchBuilder {
    pub closed spec fn spec_path(self) -> Seq<char> {
        self.path@
    }

    pub closed spec fn spec_integrity(self) -> Option<Integrity> {
        self.integrity
    }

    pub fn new(path: String) -> (r: PackagePatchBuilder)
        ensures
            r.spec_path() == path@,
            r.spec_integrity() is None,
    {
        PackagePatchBuilder { path, integrity: None }
    }

    pub fn integrity(&mut self, new_integrity: Integrity)
        ensures
            final(self).spec_path() == old(self).spec_path(),
            final(self).spec_integrity() == Some(new_integrity),
    {
        self.integrity = Some(new_integrity);
    }

    pub fn build(self) -> (r: Result<PackagePatch, Error>)
        ensures
            r matches Ok(p) && p.spec_path() == self.spec_path() && p.spec_integrity()
                == self.spec_integrity(),
    {
        Ok(PackagePatch { path: self.path, integrity: self.integrity })
    }
}

/// How a package was derived.
#[derive(Debug, Clone, PartialEq, Eq)]
#[non_exhaustive]
pub enum PackageDerivation {
    Patch(PackagePatch),
}

/// A derivation and the package it was derived from.
#[derive(Debug, Clone, PartialEq, Eq)]
#[non_exhaustive]
pub struct PackageDerivationMeta {
    derivation: PackageDerivation,
    from: PackageID,
}

impl PackageDerivationMeta {
    pub closed spec fn spec_derivation(self) -> PackageDerivation {
        self.derivation
    }

    pub closed spec fn spec_from(self) -> PackageID {
        self.from
    }

    pub fn derivation(&self) -> (r: &PackageDerivation)
        ensures
            *r == self.spec_derivation(),
    {
        &self.derivation
    }

    pub fn derived_from(&self) -> (r: PackageID)
        ensures
            r == self.spec_from(),
    {
        self.from
    }

    pub fn patch(&self) -> (r: Option<&PackagePatch>)
        ensures
            r == match self.spec_derivation() {
                PackageDerivation::Patch(p) => Some(&p),
            },
    {
        match &self.derivation {
            PackageDerivation::Patch(p) => Some(p),
        }
    }
}

pub struct PackageDerivationMetaBuilder {
    derivation: PackageDerivation,
    from: PackageID,
}

impl PackageDerivationMetaBuilder {
    pub closed spec fn spec_derivation(self) -> PackageDerivation {
        self.derivation
    }

    pub closed spec fn spec_from(self) -> PackageID {
        self.from
    }

    pub fn new(derivation: PackageDerivation, from: PackageID) -> (r: PackageDerivationMetaBuilder)
        ensures
            r.spec_derivation() == derivation,
            r.spec_from() == from,
    {
        PackageDerivationMetaBuilder { derivation, from }
    }

    pub fn build(self) -> (r: Result<PackageDerivationMeta, Error>)
        ensures
            r matches Ok(m) && m.spec_derivation() == self.spec_derivation() && m.spec_from()
                == self.spec_from(),
    {
        Ok(PackageDerivationMeta { derivation: self.derivation, from: self.from })
    }
}

} // verus!
