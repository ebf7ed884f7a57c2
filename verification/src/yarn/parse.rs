//! Telling the formats of `yarn.lock` apart, and reading the indented one.

use vstd::prelude::*;

use crate::text::{chars_of, run_len, run_len_exec};
use crate::yarn::lockfile::{parse_lockfile, yarn_lock_parsed, Lockfile};
use crate::yarn::Error;

verus! {

/// How a lockfile is written.
#[derive(Debug, Clone, Copy, PartialEq, Eq, Structural)]
pub enum LockFormat {
    /// The indented format of yarn classic and berry, which starts with a comment.
    Indented,
    /// The JSON format of yarn zpm.
    Json,
}

/// A space or a tab.
pub open spec fn space_or_tab() -> spec_fn(char) -> bool {
    |c: char| c == ' ' || c == '\t'
}

fn space_or_tab_exec(c: char) -> (b: bool)
    ensures
        b == space_or_tab()(c),
{
    c == ' ' || c == '\t'
}

/// The format that the first character after leading spaces and tabs announces:
/// `{` for JSON, `#` for the indented format.
pub open spec fn spec_lockfile_format(s: Seq<char>) -> Option<LockFormat> {
    let i = run_len(s, 0, space_or_tab());
    if i < s.len() && s[i as int] == '{' {
        Some(LockFormat::Json)
    } else if i < s.len() && s[i as int] == '#' {
        Some(LockFormat::Indented)
    } else {
        None
    }
}

/// The format of a lockfile, from its first character after spaces and tabs.
pub fn lockfile_format(contents: &str) -> (r: Option<LockFormat>)
    ensures
        r == spec_lockfile_format(contents@),
{
    let v = chars_of(contents);
    let i = run_len_exec(&v, 0, space_or_tab_exec, Ghost(space_or_tab()));
    if i < v.len() && v[i] == '{' {
        Some(LockFormat::Json)
    } else if i < v.len() && v[i] == '#' {
        Some(LockFormat::Indented)
    } else {
        None
    }
}

/// A lockfile of the indented format, by the generation of yarn that wrote it.
#[derive(Debug)]
pub enum YarnLock {
    /// Version 1, written by yarn classic.
    Classic(Lockfile),
    /// Versions 2 to 8, written by yarn berry.
    Berry(Lockfile),
}

/// Reads the contents of `yarn.lock` in the indented format: versions 1 (yarn
/// classic) and 2 to 8 (yarn berry); other versions are refused. The JSON format
/// (see [`lockfile_format`]) is not read here: once parsed, it goes to
/// [`crate::yarn::zpm_resolve::resolve`].
pub fn read_lockfile(contents: &str) -> (r: Result<YarnLock, Error>)
    ensures
        match spec_lockfile_format(contents@) {
            Some(LockFormat::Indented) => match yarn_lock_parsed(contents@) {
                None => r matches Err(Error::YarnParserError(_)),
                Some((version, entries)) => if version == 1 {
                    r matches Ok(YarnLock::Classic(l)) && l@ == (version, entries) && forall|i: int|
                        0 <= i < l.entries@.len() ==> (#[trigger] l.entries@[i]).descriptors@.len() > 0
                } else if 2 <= version <= 8 {
                    r matches Ok(YarnLock::Berry(l)) && l@ == (version, entries)
                } else {
                    r == Err::<YarnLock, Error>(Error::UnknownLockfileVersion(version))
                },
            },
            _ => r == Err::<YarnLock, Error>(Error::UnknownFormat),
        },
{
    match lockfile_format(contents) {
        Some(LockFormat::Indented) => {
            let lock = match parse_lockfile(contents) {
                Ok(l) => l,
                Err(m) => return Err(Error::YarnParserError(m)),
            };
            if lock.version == 1 {
                Ok(YarnLock::Classic(lock))
            } else if 2 <= lock.version && lock.version <= 8 {
                Ok(YarnLock::Berry(lock))
            } else {
                Err(Error::UnknownLockfileVersion(lock.version))
            }
        },
        _ => Err(Error::UnknownFormat),
    }
}

} // verus!
