//! Errors of configuration and construction.
use vstd::prelude::*;

verus! {

/// A rejected input: a location count that does not match, a path that is
/// not a permutation, inverted or negative temperature bounds, a horizon of
/// zero steps.
#[derive(Debug, Clone, Copy, PartialEq, Eq, Structural)]
pub enum SearchError {
    InvalidInput,
}

} // verus!
