//! The package managers whose lockfiles are read, and their metadata.

use vstd::prelude::*;
use vstd::string::StringExecFns;

use crate::meta::{LockfileVersion, ProviderMeta};
use crate::text::str_eq;

verus! {

/// Metadata of the package manager that wrote a lockfile.
#[derive(Debug, Clone)]
pub enum Meta {
    Bun(crate::bun::Meta),
    Npm(crate::npm::Meta),
    Pnpm(crate::pnpm::Meta),
    Yarn(crate::yarn::Meta),
}

impl ProviderMeta for Meta {
    fn provider_name(&self) -> (r: &'static str)
        ensures
            r@ == match self {
                Meta::Bun(_) => "bun"@,
                Meta::Npm(_) => "npm"@,
                Meta::Pnpm(_) => "pnpm"@,
                Meta::Yarn(_) => "yarn"@,
            },
    {
        match self {
            Meta::Bun(meta) => meta.provider_name(),
            Meta::Npm(meta) => meta.provider_name(),
            Meta::Pnpm(meta) => meta.provider_name(),
            Meta::Yarn(meta) => meta.provider_name(),
        }
    }

    fn lockfile_version<'m>(&'m self) -> (r: Option<LockfileVersion<'m>>)
        ensures
            match self {
                Meta::Bun(m) => r == Some(LockfileVersion::U8(m.lockfile_version)),
                Meta::Npm(m) => r == Some(LockfileVersion::U8(m.lockfile_version)),
                Meta::Pnpm(m) => r matches Some(LockfileVersion::Str(s)) && s@ == m.lockfile_version@,
                Meta::Yarn(m) => r == Some(LockfileVersion::U8(m.lockfile_version)),
            },
    {
        match self {
            Meta::Bun(meta) => meta.lockfile_version(),
            Meta::Npm(meta) => meta.lockfile_version(),
            Meta::Pnpm(meta) => meta.lockfile_version(),
            Meta::Yarn(meta) => meta.lockfile_version(),
        }
    }
}

/// A package manager whose lockfile can be asked for by name.
#[derive(Debug, Clone, Copy, PartialEq, Eq, Structural)]
pub enum Implementation {
    Bun,
    Npm,
    Pnpm,
    Yarn,
}

/// The implementation called `name`.
pub open spec fn spec_from_name(name: Seq<char>) -> Option<Implementation> {
    if name == "bun"@ {
        Some(Implementation::Bun)
    } else if name == "npm"@ {
        Some(Implementation::Npm)
    } else if name == "pnpm"@ {
        Some(Implementation::Pnpm)
    } else if name == "yarn"@ {
        Some(Implementation::Yarn)
    } else {
        None
    }
}

impl Implementation {
    /// The implementation called `name`: `bun`, `npm`, `pnpm` or `yarn`.
    pub fn from_name(name: &str) -> (r: Option<Implementation>)
        ensures
            r == spec_from_name(name@),
    {
        if str_eq(name, "bun") {
            Some(Implementation::Bun)
        } else if str_eq(name, "npm") {
            Some(Implementation::Npm)
        } else if str_eq(name, "pnpm") {
            Some(Implementation::Pnpm)
        } else if str_eq(name, "yarn") {
            Some(Implementation::Yarn)
        } else {
            None
        }
    }
}

/// The text that `Debug` formatting gives a string: quoted and escaped.
pub uninterp spec fn debug_text(s: Seq<char>) -> Seq<char>;

/// Formats a string with `{:?}`. Trusted: the result is [`debug_text`] of it.
#[verifier::external_body]
fn debug_str(s: &str) -> (r: String)
    ensures
        r@ == debug_text(s@),
{
    format!("{:?}", s)
}

/// Reads the implementation named on the command line, or says that it is unknown.
pub fn implem_from_name(name: &str) -> (r: Result<Implementation, String>)
    ensures
        match r {
            Ok(i) => spec_from_name(name@) == Some(i),
            Err(m) => spec_from_name(name@) is None && m@ == "Unknown implementation name: "@
                + debug_text(name@),
        },
{
    match Implementation::from_name(name) {
        Some(i) => Ok(i),
        None => {
            let mut m = String::from_str("Unknown implementation name: ");
            m.append(debug_str(name).as_str());
            Err(m)
        },
    }
}

} // verus!
