//! What can go wrong while reading `.yarn-state.yml`.

use vstd::prelude::*;

verus! {

/// The state file does not follow the grammar of `.yarn-state.yml`.
#[derive(Debug, PartialEq, Eq, Structural)]
#[non_exhaustive]
pub enum Error {
    InvalidSyntax(),
}

} // verus!
