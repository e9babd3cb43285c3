//! The failures that the library reports.

use vstd::prelude::*;

verus! {

/// Why an operation refused its input.
#[derive(Clone, Copy, Debug, PartialEq, Eq, Structural)]
pub enum Error {
    /// The threshold is below one or above the number of shares, or a value
    /// does not fit the field.
    InvalidParameters,
    /// No share was offered for reconstruction.
    InsufficientShares,
    /// Two shares offered for reconstruction have the same abscissa.
    DuplicateXCoordinate,
    /// An argument is not a decimal integer.
    MalformedInput,
}

} // verus!
