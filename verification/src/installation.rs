//! Where a package is installed.

use vstd::prelude::*;

use crate::error::Error;
use crate::modpath::ModulePath;
use crate::package::PackageID;

verus! {

/// A package installed at a module path.
#[derive(Debug, Clone)]
pub struct Installation {
    package_id: PackageID,
    path: ModulePath,
}

impl Installation {
    pub closed spec fn spec_package_id(self) -> PackageID {
        self.package_id
    }

    pub closed spec fn spec_path(self) -> ModulePath {
        self.path
    }

    pub fn package_id(&self) -> (r: PackageID)
        ensures
            r == self.spec_package_id(),
    {
        self.package_id
    }

    pub fn path(&self) -> (r: &ModulePath)
        ensures
            *r == self.spec_path(),
    {
        &self.path
    }
}

/// Collects an [`Installation`].
#[derive(Debug)]
pub struct InstallationBuilder {
    package_id: PackageID,
    path: ModulePath,
}

impl InstallationBuilder {
    pub closed spec fn spec_package_id(self) -> PackageID {
        self.package_id
    }

    pub closed spec fn spec_path(self) -> ModulePath {
        self.path
    }

    pub fn new(package_id: PackageID, path: ModulePath) -> (r: InstallationBuilder)
        ensures
            r.spec_package_id() == package_id,
            r.spec_path() == path,
    {
        InstallationBuilder { package_id, path }
    }

    pub fn build(self) -> (r: Result<Installation, Error>)
        ensures
            r matches Ok(i) && i.spec_package_id() == self.spec_package_id() && i.spec_path()
                == self.spec_path(),
    {
        Ok(Installation { package_id: self.package_id, path: self.path })
    }
}

} // verus!
