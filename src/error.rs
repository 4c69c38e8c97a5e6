use vstd::prelude::*;

verus! {

/// The ways an algebraic operation can refuse its operands.
#[derive(Clone, Copy, Debug, PartialEq, Eq, Structural)]
pub enum AlgebraError {
    /// Matrix shapes that do not fit the operation (or a content length that
    /// does not match the declared shape).
    DimensionMismatch,
    /// Euclidean division by the zero polynomial.
    DivisionByZero,
    /// A declared degree that does not match the number of coefficients.
    InvalidDegree,
}

} // verus!
