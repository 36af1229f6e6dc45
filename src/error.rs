//! The errors of the library.
use vstd::prelude::*;

verus! {

/// What can go wrong when using the generator.
#[derive(Debug, Clone, Copy, PartialEq, Eq, Structural)]
pub enum PcgError {
    /// A bounded draw was asked for with an upper bound of zero.
    InvalidBound,
    /// A seed was given with a number of bytes other than eight.
    SeedLengthMismatch,
}

} // verus!
