//! Checks shared by the solvers: coefficient count, realness, and the
//! conversion of a complex scalar into its real value.

use crate::scalar::{cx_is_finite, real_is_zero, Real, Scalar};
use crate::PolyError;
use vstd::prelude::*;

verus! {

/// The scalar stands for a real value: it is finite and its imaginary
/// part is zero.
pub open spec fn cx_convertible(s: Scalar) -> bool {
    cx_is_finite(s) && real_is_zero(s.im)
}

/// Every coefficient has a zero imaginary part.
pub open spec fn all_real(c: Seq<Scalar>) -> bool {
    forall|i: int| 0 <= i < c.len() ==> real_is_zero(#[trigger] c[i].im)
}

/// Checks that a coefficient sequence has exactly the expected order,
/// that is, one coefficient more than the order.
pub fn check_if_correct_order(coef: &[Scalar], expected_order: usize) -> (r: Result<
    (),
    PolyError,
>)
    requires
        expected_order < usize::MAX,
    ensures
        r is Ok <==> coef@.len() == expected_order + 1,
        r matches Err(e) ==> e == PolyError::IncorrectOrder(expected_order),
{
    if coef.len() != expected_order + 1 {
        return Err(PolyError::IncorrectOrder(expected_order));
    }
    Ok(())
}

/// Checks that every coefficient of the sequence is real, that is, has a
/// zero imaginary part.
pub fn check_if_real_coefficients(coef: &[Scalar]) -> (r: Result<(), PolyError>)
    ensures
        r is Ok <==> all_real(coef@),
        r matches Err(e) ==> e == PolyError::NotRealCoefficients,
{
    let n = coef.len();
    let mut i: usize = 0;
    while i < n
        invariant
            n == coef@.len(),
            0 <= i <= n,
            forall|j: int| 0 <= j < i ==> real_is_zero(#[trigger] coef@[j].im),
        decreases n - i,
    {
        if !coef[i].im().is_zero() {
            assert(!real_is_zero(coef@[i as int].im));
            return Err(PolyError::NotRealCoefficients);
        }
        i = i + 1;
    }
    Ok(())
}

/// Converts a complex scalar to its real value.  Fails when the scalar is
/// not finite or has a nonzero imaginary part.
pub fn convert_complex_to_real(number: Scalar) -> (r: Result<Real, PolyError>)
    ensures
        r is Ok <==> cx_convertible(number),
        r matches Ok(v) ==> v == number.re,
        r matches Err(e) ==> e == PolyError::ComplexToRealConversion(number),
{
    if !number.is_finite() || !number.im().is_zero() {
        return Err(PolyError::ComplexToRealConversion(number));
    }
    Ok(number.re())
}

} // verus!
