//! The linear solver.

use crate::scalar::{real_div_v, real_is_zero, real_neg_v, real_wf, Real};
use crate::PolyError;
use vstd::prelude::*;

verus! {

/// Solves the linear equation `a x + b = 0` with real coefficients.  A
/// zero `a` leaves a constant equation with no root to report; otherwise
/// the root is `-b / a`.  The zero test is exact, by design: a tiny
/// nonzero `a` gives a very large root rather than an error.
pub(crate) fn solve_real_linear(a: Real, b: Real) -> (r: Result<Real, PolyError>)
    requires
        real_wf(a),
        real_wf(b),
    ensures
        r is Err <==> real_is_zero(a),
        r matches Err(e) ==> e == PolyError::ConstantPoly,
        r matches Ok(x) ==> x == real_neg_v(real_div_v(b, a)) && real_wf(x),
{
    if a.is_zero() {
        return Err(PolyError::ConstantPoly);
    }
    Ok(b.div(a).neg())
}

} // verus!
