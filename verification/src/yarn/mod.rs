//! Logic shared by the yarn lockfile formats.

use vstd::prelude::*;

use crate::meta::{LockfileVersion, ProviderMeta};

pub mod berry;
pub mod berry_model;
pub mod berry_resolve;
pub mod candidates;
pub mod classic;
pub mod classic_model;
pub mod classic_resolve;
pub mod lockfile;
pub mod parse;
pub mod resolutions;
pub mod workspace_globs;
pub mod zpm;
pub mod zpm_model;
pub mod zpm_resolve;
pub mod zpm_types;

verus! {

/// The name of yarn's lockfile.
pub const LOCKFILE_NAME: &'static str = "yarn.lock";

/// Which lockfile version yarn wrote.
#[derive(Debug, Clone)]
#[non_exhaustive]
pub struct Meta {
    pub lockfile_version: u8,
}

impl ProviderMeta for Meta {
    fn provider_name(&self) -> (r: &'static str)
        ensures
            r@ == "yarn"@,
    {
        "yarn"
    }

    fn lockfile_version<'m>(&'m self) -> (r: Option<LockfileVersion<'m>>)
        ensures
            r == Some(LockfileVersion::U8(self.lockfile_version)),
    {
        Some(LockfileVersion::U8(self.lockfile_version))
    }
}

/// What went wrong while reading a yarn project.
#[derive(Debug, PartialEq)]
#[non_exhaustive]
pub enum Error {
    /// A dependency could not be found among the packages.
    DependencyNotFound(String),
    /// The lockfile declares a version that is not supported.
    UnknownLockfileVersion(u8),
    /// A key of `"resolutions"` could not be parsed.
    InvalidResolution(String),
    /// A package of `.yarn-state.yml` was not found.
    StatePackageNotFound(String),
    /// No resolution could be told apart to replace this descriptor.
    AmbiguousResolution(String),
    /// A `resolution` field could not be read.
    InvalidResolved(String),
    /// A `resolution` field matches more than one package.
    AmbiguousResolved(String),
    /// Two descriptors of one entry disagree.
    ConflictingDescriptors(String, String),
    /// A key of the lockfile could not be read.
    InvalidEntryKey(String),
    /// An error of the unified model.
    ChasteError(crate::error::Error),
    /// An integrity string was refused; the message of the integrity parser.
    SSRIError(String),
    /// Two entries claim the same descriptor.
    DuplicateSpecifiers(String),
    /// Percent-encoded text did not decode to UTF-8.
    Utf8Error(String),
    /// The lockfile could not be read; the message of its parser.
    YarnParserError(String),
    /// `.yarn-state.yml` could not be read.
    YarnStateError(crate::yarn_state::error::Error),
    /// The lockfile is in a format that is not read.
    UnknownFormat,
    /// An entry resolves to a workspace at a path where no member is.
    UnrecognizedWorkspaceMember(String),
    /// The `"workspaces"` patterns could not be read; the glob parser's message.
    GlobreeksError(String),
}

} // verus!
