//! The errors that the library reports.

use vstd::prelude::*;

verus! {

/// What can go wrong when slots are assigned.
#[derive(Clone, Copy, Debug, PartialEq, Eq, Structural)]
pub enum ShuffleError {
    /// A group without items was asked for its spread.
    EmptyGroup,
    /// The jitter fraction does not lie strictly between zero and one.
    InvalidJitterConfig,
}

} // verus!
