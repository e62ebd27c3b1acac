//! The quadratic solver.

use crate::solve::linear::solve_real_linear;
use crate::solve::radicals::{int_sqrt, is_square, sqrt_of};
use crate::scalar::{
    norm_rat_v, rat_lt, rat_zero, real_add_v, real_div_v, real_is_zero, real_mul_v, real_neg_v,
    real_sub_v, real_wf, rv, Real,
};
use crate::PolyError;
use vstd::prelude::*;

verus! {

/// The real roots of a quadratic equation, classified by the sign of the
/// discriminant.  A root that is rational is returned as a value; the two
/// roots of a positive discriminant whose square root is irrational are
/// returned as their exact invariants.
#[derive(Clone, Copy, Debug)]
pub enum QuadRoots {
    /// The leading coefficient was zero and the linear solver reported
    /// this single root.
    SingleRoot(Real),
    /// The discriminant is zero: the single repeated root `-b / (2a)`.
    DoubleRoot(Real),
    /// The discriminant is a positive square: the roots
    /// `(-b + sqrt(D)) / (2a)` and `(-b - sqrt(D)) / (2a)`, the plus
    /// branch first.
    TwoRoots { plus: Real, minus: Real },
    /// The discriminant is positive but its square root is irrational:
    /// the roots are `center - sqrt(offset_sq)` and
    /// `center + sqrt(offset_sq)`, with `center == -b / (2a)` and
    /// `offset_sq == d / (2a)^2`.
    TwoRootsIrrational { center: Real, offset_sq: Real },
}

impl QuadRoots {
    /// The roots as a vector, in the order the solver reports them: the
    /// single root alone, the repeated root once, or the plus branch
    /// before the minus branch.  The irrational classification holds no
    /// root values to return.
    pub fn roots(&self) -> (r: Option<Vec<Real>>)
        ensures
            *self matches QuadRoots::SingleRoot(x) ==> (r matches Some(v) && v@.len() == 1
                && v@[0] == x),
            *self matches QuadRoots::DoubleRoot(x) ==> (r matches Some(v) && v@.len() == 1
                && v@[0] == x),
            *self matches QuadRoots::TwoRoots { plus, minus } ==> (r matches Some(v) && v@.len()
                == 2 && v@[0] == plus && v@[1] == minus),
            *self matches QuadRoots::TwoRootsIrrational { .. } ==> r is None,
    {
        match self {
            QuadRoots::SingleRoot(x) => {
                let mut v: Vec<Real> = Vec::new();
                v.push(*x);
                Some(v)
            },
            QuadRoots::DoubleRoot(x) => {
                let mut v: Vec<Real> = Vec::new();
                v.push(*x);
                Some(v)
            },
            QuadRoots::TwoRoots { plus, minus } => {
                let mut v: Vec<Real> = Vec::new();
                v.push(*plus);
                v.push(*minus);
                Some(v)
            },
            QuadRoots::TwoRootsIrrational { .. } => None,
        }
    }
}

/// The scalar holding the small integer `n`.
pub open spec fn real_int(n: int) -> Real {
    Real::Rat { num: n as i64, den: 1 }
}

/// The quadratic discriminant `b^2 - 4ac`.
pub open spec fn quad_disc_v(a: Real, b: Real, c: Real) -> Real {
    real_sub_v(real_mul_v(b, b), real_mul_v(real_mul_v(real_int(4), a), c))
}

/// Twice the leading coefficient.
pub open spec fn two_a_v(a: Real) -> Real {
    real_mul_v(real_int(2), a)
}

/// The exact square root of the positive fraction held by `d`:
/// `sqrt(n / d) == sqrt(n * d) / d`.
pub open spec fn sqrt_rat_v(d: Real) -> Real {
    norm_rat_v(sqrt_of(rv(d).n * rv(d).d), rv(d).d)
}

/// What the quadratic solver returns for finite real coefficients: the
/// full decision tree over the zero test of `a` and the sign of the
/// discriminant.
pub open spec fn quad_outcome(a: Real, b: Real, c: Real, r: Result<QuadRoots, PolyError>) -> bool {
    if real_is_zero(a) {
        if real_is_zero(b) {
            r matches Err(e) && e == PolyError::ConstantPoly
        } else {
            r matches Ok(q) && q matches QuadRoots::SingleRoot(x) && x == real_neg_v(
                real_div_v(c, b),
            )
        }
    } else {
        let d = quad_disc_v(a, b, c);
        if d is Nan {
            r matches Err(e) && e == PolyError::NanDiscriminant
        } else if rat_lt(rv(d), rat_zero()) {
            r matches Err(e) && e == PolyError::NoRealRoots
        } else if real_is_zero(d) {
            r matches Ok(q) && q matches QuadRoots::DoubleRoot(x) && x == real_div_v(
                real_neg_v(b),
                two_a_v(a),
            )
        } else if is_square(rv(d).n * rv(d).d) {
            r matches Ok(q) && q matches QuadRoots::TwoRoots { plus, minus } && plus
                == real_div_v(real_add_v(real_neg_v(b), sqrt_rat_v(d)), two_a_v(a)) && minus
                == real_div_v(real_sub_v(real_neg_v(b), sqrt_rat_v(d)), two_a_v(a))
        } else {
            r matches Ok(q) && q matches QuadRoots::TwoRootsIrrational { center, offset_sq }
                && center == real_div_v(real_neg_v(b), two_a_v(a)) && offset_sq == real_div_v(
                d,
                real_mul_v(two_a_v(a), two_a_v(a)),
            )
        }
    }
}

/// Solves the quadratic equation `a x^2 + b x + c = 0` with finite real
/// coefficients.  A zero `a` hands the equation to the linear solver; a
/// negative discriminant reports no real roots; a zero discriminant gives
/// the repeated root; a positive discriminant gives the two roots, the
/// plus branch first, as values when the square root of the discriminant
/// is rational and as exact branch invariants otherwise.  A discriminant
/// that cannot be represented cannot be classified and is reported as
/// such.
pub(crate) fn solve_real_quadratic(a: Real, b: Real, c: Real) -> (r: Result<
    QuadRoots,
    PolyError,
>)
    requires
        real_wf(a),
        real_wf(b),
        real_wf(c),
        a is Rat,
        b is Rat,
        c is Rat,
    ensures
        quad_outcome(a, b, c, r),
{
    if a.is_zero() {
        return match solve_real_linear(b, c) {
            Ok(x) => Ok(QuadRoots::SingleRoot(x)),
            Err(e) => Err(e),
        };
    }
    let d = b.mul(b).sub(Real::from_int(4).mul(a).mul(c));
    assert(d is Rat || d is Nan);
    if d.is_nan() {
        return Err(PolyError::NanDiscriminant);
    }
    let two_a = Real::from_int(2).mul(a);
    let sign = d.signum();
    if sign < 0 {
        Err(PolyError::NoRealRoots)
    } else if sign == 0 {
        Ok(QuadRoots::DoubleRoot(b.neg().div(two_a)))
    } else {
        match d {
            Real::Rat { num, den } => {
                proof {
                    crate::scalar::lemma_mul_num_den(num as int, den as int);
                    assert(num as int * den as int > 0) by (nonlinear_arith)
                        requires
                            num as int > 0,
                            den as int >= 1,
                    ;
                }
                let k = (num as i128) * (den as i128);
                match int_sqrt(k) {
                    Some(s) => {
                        let sd = crate::scalar::make_rat(s, den as i128);
                        let plus = b.neg().add(sd).div(two_a);
                        let minus = b.neg().sub(sd).div(two_a);
                        Ok(QuadRoots::TwoRoots { plus, minus })
                    },
                    None => {
                        let center = b.neg().div(two_a);
                        let offset_sq = d.div(two_a.mul(two_a));
                        Ok(QuadRoots::TwoRootsIrrational { center, offset_sq })
                    },
                }
            },
            _ => {
                Err(PolyError::NanDiscriminant)
            },
        }
    }
}

} // verus!
