//! The errors of the library.

use vstd::prelude::*;

verus! {

/// Why an input was refused.
#[derive(Clone, Copy, Debug, PartialEq, Eq, Structural)]
pub enum Error {
    /// A line of an edge file does not start with two decimal numbers.
    MalformedEdge,
    /// A ring file breaks its format.
    MalformedRing,
    /// Values that should agree do not: a closed set with more key images
    /// than public keys, a key image without a mate where every one must have
    /// one, arrays of different lengths that should run in parallel.
    Inconsistency,
}

} // verus!
