//! The failures that the library reports.

use vstd::prelude::*;

verus! {

/// What can go wrong.
#[derive(Clone, Copy, Debug, PartialEq, Eq, Structural)]
pub enum Error {
    /// A constraint whose degree is above the degree that the constraints are
    /// lifted to: the power of `X` that lifts it would have a negative
    /// exponent.
    NegativeDegreeAdjustment,
    /// A denominator that vanishes at the point of evaluation.
    DivisionByZero,
    /// Two fractions to be multiplied share a factor of their denominators.
    NonDisjointDenominators,
    /// A trace cell raised to a power other than two, or a trace cell where
    /// a polynomial in the indeterminate alone is needed.
    UnsupportedOperation,
    /// More constraints were given than are combined; the rest was left out.
    ConstraintCap,
}

} // verus!
