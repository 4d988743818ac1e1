//! The ways in which a request to this library can fail.

use vstd::prelude::*;

verus! {

/// Why a coefficient, a combination or a sample could not be produced.
#[derive(Clone, Copy, Debug, PartialEq, Eq, Structural)]
pub enum UnrankError {
    /// A coefficient was asked for with more items to choose than there are.
    InvalidArguments,
    /// The subset size is zero or larger than the base set.
    InvalidSubsetSize,
    /// The rank is not below the number of combinations.
    InvalidRank,
    /// The number of combinations does not fit the integer type that has to hold it.
    ArithmeticOverflow,
    /// More samples were asked for than there are combinations to draw them from.
    TooManyRequested,
}

} // verus!
