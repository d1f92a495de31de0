//! The ways in which an operation of this library can fail.

use vstd::prelude::*;

verus! {

/// Why an operation failed.
#[derive(Debug, Clone, Copy, PartialEq, Eq, Structural)]
pub enum RingError {
    /// The modulus is below two, or the defining polynomial has degree
    /// below one.
    InvalidRingConfiguration,
    /// A number that had to be inverted modulo `m` is no unit: the leading
    /// coefficient of a divisor in a polynomial division.
    NotInvertible,
    /// The Euclidean algorithm on the defining polynomial and the element
    /// ended with a polynomial that is no constant unit.
    ZeroDivisorInRing,
    /// More shares were asked for than there are evaluation points.
    TooManyParties,
    /// The threshold is zero or above the number of shares.
    ThresholdOutOfRange,
    /// Two shares have the same evaluation point.
    DuplicateEvaluationPoint,
    /// Fewer shares were given than the threshold asks for.
    InsufficientShares,
    /// The difference of two evaluation points could not be inverted.
    ReconstructionDenominatorNotInvertible,
}

} // verus!
