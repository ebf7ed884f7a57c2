//! Behavior that differs between package manager implementations.

use vstd::prelude::*;

verus! {

/// Sometimes behavior is a bit different between implementations.
/// This is a pleister type to stick on top of these problems.
#[derive(Debug, Clone, Copy, PartialEq, Eq, Structural)]
#[non_exhaustive]
pub enum QuirksMode {
    /// yarn, with its lockfile format version.
    Yarn(u8),
}

} // verus!
