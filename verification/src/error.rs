//! The error type for polynomial operations.

use crate::scalar::Scalar;
use vstd::prelude::*;

verus! {

/// The error type for polynomial operations.
#[derive(Clone, Debug)]
pub enum PolyError {
    /// A supplied coefficient is invalid or infinite.
    InvalidCoefficients,
    /// The supplied polynomial is trivial.
    Trivial,
    /// The supplied polynomial does not have the order the solver expects;
    /// the payload is the expected order.
    IncorrectOrder(usize),
    /// The supplied polynomial is constant, so there is no equation to
    /// solve.
    ConstantPoly,
    /// The supplied polynomial is not quadratic.
    NotQuadratic(String),
    /// The supplied polynomial has no real roots.
    NoRealRoots,
    /// A real-only solver was asked to work on complex coefficients.
    NotRealCoefficients,
    /// The discriminant cannot be classified against zero.
    NanDiscriminant,
    /// A scalar with a nonzero imaginary part, or without a finite value,
    /// was used where a real value was needed; the payload is the scalar.
    ComplexToRealConversion(Scalar),
}

} // verus!
