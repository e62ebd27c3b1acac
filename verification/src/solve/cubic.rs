//! The cubic solver.

use crate::solve::quadratic::{real_int, sqrt_rat_v};
use crate::solve::radicals::{cbrt_of, int_cbrt, int_sqrt, is_cube, is_square};
use crate::scalar::{
    norm_rat_v, rat_eq, rat_le, rat_lt, rat_zero, real_abs_v, real_add_v, real_div_v,
    real_is_zero, real_mul_v, real_neg_v, real_sub_v, real_wf, rv, Real,
};
use crate::PolyError;
use vstd::prelude::*;

verus! {

/// The real roots of the monic cubic `x^3 + a x^2 + b x + c`, classified
/// by the invariants `Q = a^2 - 3b` and `R = 2a^3 - 9ab + 27c` of its
/// depressed form.  Roots that are rational are returned as values; the
/// irrational branches return their exact invariants, from which a
/// numeric caller finishes with the trigonometric or Cardano formula.
#[derive(Clone, Copy, Debug)]
pub enum CubicRoots {
    /// `Q` and `R` are both zero: the three roots collapse to `-a / 3`.
    TripleRoot(Real),
    /// The boundary `729 R^2 == 2916 Q^3`: one double root and one simple
    /// root, both rational, with the double root at `s - a/3` or
    /// `-s - a/3` for `s = sqrt(Q/9)` depending on the sign of `R`.
    RepeatedPlusSimple { repeated: Real, simple: Real },
    /// Three distinct real roots, through the trigonometric branch: the
    /// roots are `-2 sqrt(q_cap) cos((theta + k 2 pi) / 3) + base` for
    /// `theta = arccos(r_cap / sqrt(q_cap^3))` and `k` in `{-1, 0, 1}`.
    ThreeDistinct { base: Real, q_cap: Real, r_cap: Real },
    /// One real root through the Cardano branch, whose radicals happened
    /// to be exact.
    OneReal(Real),
    /// One real root through the Cardano branch, with irrational
    /// radicals: the root is `acap + Q/acap + base` for
    /// `acap = -sgn(R) (|r_cap| + sqrt(r_cap^2 - q_cap^3))^(1/3)`.
    OneRealIrrational { base: Real, q_cap: Real, r_cap: Real },
}

/// Every root value held by the classification is well formed.
pub open spec fn cubic_roots_wf(k: CubicRoots) -> bool {
    match k {
        CubicRoots::TripleRoot(x) => real_wf(x),
        CubicRoots::RepeatedPlusSimple { repeated, simple } => real_wf(repeated) && real_wf(
            simple,
        ),
        CubicRoots::ThreeDistinct { base, q_cap, r_cap } => real_wf(base) && real_wf(q_cap)
            && real_wf(r_cap),
        CubicRoots::OneReal(x) => real_wf(x),
        CubicRoots::OneRealIrrational { base, q_cap, r_cap } => real_wf(base) && real_wf(q_cap)
            && real_wf(r_cap),
    }
}

impl CubicRoots {
    /// The three roots in ascending order, when the classification holds
    /// them as finite values: the triple root and the exact Cardano root
    /// repeated three times, and the boundary's double root beside its
    /// simple root.  The irrational classifications hold no root values
    /// to return.
    pub fn roots_sorted(&self) -> (r: Option<Vec<Real>>)
        requires
            cubic_roots_wf(*self),
        ensures
            *self matches CubicRoots::TripleRoot(x) ==> (r matches Some(v) && v@.len() == 3
                && v@[0] == x && v@[1] == x && v@[2] == x),
            *self matches CubicRoots::OneReal(x) ==> (r matches Some(v) && v@.len() == 3 && v@[0]
                == x && v@[1] == x && v@[2] == x),
            *self matches CubicRoots::RepeatedPlusSimple { repeated, simple } ==> (if repeated
                is Rat && simple is Rat {
                r matches Some(v) && v@.len() == 3 && (if rat_le(rv(repeated), rv(simple)) {
                    v@[0] == repeated && v@[1] == repeated && v@[2] == simple
                } else {
                    v@[0] == simple && v@[1] == repeated && v@[2] == repeated
                })
            } else {
                r is None
            }),
            *self matches CubicRoots::ThreeDistinct { .. } ==> r is None,
            *self matches CubicRoots::OneRealIrrational { .. } ==> r is None,
    {
        match self {
            CubicRoots::TripleRoot(x) => {
                let mut v: Vec<Real> = Vec::new();
                v.push(*x);
                v.push(*x);
                v.push(*x);
                Some(v)
            },
            CubicRoots::OneReal(x) => {
                let mut v: Vec<Real> = Vec::new();
                v.push(*x);
                v.push(*x);
                v.push(*x);
                Some(v)
            },
            CubicRoots::RepeatedPlusSimple { repeated, simple } => {
                if repeated.is_finite() && simple.is_finite() {
                    let mut v: Vec<Real> = Vec::new();
                    if repeated.le(*simple) {
                        v.push(*repeated);
                        v.push(*repeated);
                        v.push(*simple);
                    } else {
                        v.push(*simple);
                        v.push(*repeated);
                        v.push(*repeated);
                    }
                    Some(v)
                } else {
                    None
                }
            },
            CubicRoots::ThreeDistinct { .. } => None,
            CubicRoots::OneRealIrrational { .. } => None,
        }
    }
}

/// The invariant `Q = a^2 - 3b`.
pub open spec fn cubic_q_v(a: Real, b: Real) -> Real {
    real_sub_v(real_mul_v(a, a), real_mul_v(real_int(3), b))
}

/// The invariant `R = 2a^3 - 9ab + 27c`.
pub open spec fn cubic_r_v(a: Real, b: Real, c: Real) -> Real {
    real_add_v(
        real_sub_v(
            real_mul_v(real_int(2), real_mul_v(real_mul_v(a, a), a)),
            real_mul_v(real_mul_v(real_int(9), a), b),
        ),
        real_mul_v(real_int(27), c),
    )
}

/// The scaled invariant `Q / 9`.
pub open spec fn q_cap_v(a: Real, b: Real) -> Real {
    real_div_v(cubic_q_v(a, b), real_int(9))
}

/// The scaled invariant `R / 54`.
pub open spec fn r_cap_v(a: Real, b: Real, c: Real) -> Real {
    real_div_v(cubic_r_v(a, b, c), real_int(54))
}

/// The cube `(Q/9)^3`.
pub open spec fn q_cap3_v(a: Real, b: Real) -> Real {
    let qc = q_cap_v(a, b);
    real_mul_v(real_mul_v(qc, qc), qc)
}

/// The square `(R/54)^2`.
pub open spec fn r_cap2_v(a: Real, b: Real, c: Real) -> Real {
    let rc = r_cap_v(a, b, c);
    real_mul_v(rc, rc)
}

/// The integer-scaled comparand `2916 Q^3`.
pub open spec fn cq3_v(a: Real, b: Real) -> Real {
    let q = cubic_q_v(a, b);
    real_mul_v(real_int(2916), real_mul_v(real_mul_v(q, q), q))
}

/// The integer-scaled comparand `729 R^2`.
pub open spec fn cr2_v(a: Real, b: Real, c: Real) -> Real {
    let r = cubic_r_v(a, b, c);
    real_mul_v(real_int(729), real_mul_v(r, r))
}

/// One third of the quadratic coefficient, `a / 3`.
pub open spec fn adiv3_v(a: Real) -> Real {
    real_div_v(a, real_int(3))
}

/// The exact cube root of the positive fraction held by `u`, when its
/// numerator and denominator are both perfect cubes.
pub open spec fn cbrt_rat_v(u: Real) -> Real {
    norm_rat_v(cbrt_of(rv(u).n), cbrt_of(rv(u).d))
}

/// Every invariant of the classification holds a finite value.
pub open spec fn cubic_invariants_finite(a: Real, b: Real, c: Real) -> bool {
    &&& cubic_q_v(a, b) is Rat
    &&& cubic_r_v(a, b, c) is Rat
    &&& q_cap_v(a, b) is Rat
    &&& r_cap_v(a, b, c) is Rat
    &&& q_cap3_v(a, b) is Rat
    &&& r_cap2_v(a, b, c) is Rat
    &&& cq3_v(a, b) is Rat
    &&& cr2_v(a, b, c) is Rat
}

/// The Cardano branch's radicals are exact: the inner square root of
/// `r_cap^2 - q_cap^3` is rational, and the cube root of
/// `|r_cap| + sqrt(r_cap^2 - q_cap^3)` is exact, component by component.
pub open spec fn cardano_exact(a: Real, b: Real, c: Real) -> bool {
    let w = real_sub_v(r_cap2_v(a, b, c), q_cap3_v(a, b));
    &&& w is Rat
    &&& is_square(rv(w).n * rv(w).d)
    &&& real_add_v(real_abs_v(r_cap_v(a, b, c)), sqrt_rat_v(w)) is Rat
    &&& is_cube(rv(real_add_v(real_abs_v(r_cap_v(a, b, c)), sqrt_rat_v(w))).n)
    &&& is_cube(rv(real_add_v(real_abs_v(r_cap_v(a, b, c)), sqrt_rat_v(w))).d)
}

/// The exact Cardano root `acap + Q/acap - a/3`, with
/// `acap = -sgn(R) (|r_cap| + sqrt(r_cap^2 - q_cap^3))^(1/3)`.
pub open spec fn cardano_root_v(a: Real, b: Real, c: Real) -> Real {
    let w = real_sub_v(r_cap2_v(a, b, c), q_cap3_v(a, b));
    let u = real_add_v(real_abs_v(r_cap_v(a, b, c)), sqrt_rat_v(w));
    let cb = cbrt_rat_v(u);
    let acap = if rat_le(rat_zero(), rv(cubic_r_v(a, b, c))) {
        real_neg_v(cb)
    } else {
        cb
    };
    let bcap = real_div_v(cubic_q_v(a, b), acap);
    real_sub_v(real_add_v(acap, bcap), adiv3_v(a))
}

/// What the cubic solver returns for finite real coefficients of the
/// monic cubic: the full decision tree over the triple root test, the
/// double root boundary, and the sign of `r_cap^2 - q_cap^3`.
pub open spec fn cubic_outcome(a: Real, b: Real, c: Real, r: Result<CubicRoots, PolyError>) -> bool {
    if !cubic_invariants_finite(a, b, c) {
        r matches Err(e) && e == PolyError::NanDiscriminant
    } else {
        let rr = cubic_r_v(a, b, c);
        let qc = q_cap_v(a, b);
        let rc = r_cap_v(a, b, c);
        let t3 = adiv3_v(a);
        if real_is_zero(rc) && real_is_zero(qc) {
            r matches Ok(k) && k matches CubicRoots::TripleRoot(x) && x == real_div_v(
                real_neg_v(a),
                real_int(3),
            )
        } else if rat_eq(rv(cr2_v(a, b, c)), rv(cq3_v(a, b))) {
            let s = real_div_v(real_abs_v(rc), qc);
            if rat_lt(rat_zero(), rv(rr)) {
                r matches Ok(k) && k matches CubicRoots::RepeatedPlusSimple { repeated, simple }
                    && simple == real_sub_v(real_mul_v(real_int(-2), s), t3) && repeated
                    == real_sub_v(s, t3)
            } else {
                r matches Ok(k) && k matches CubicRoots::RepeatedPlusSimple { repeated, simple }
                    && repeated == real_sub_v(real_neg_v(s), t3) && simple == real_sub_v(
                    real_mul_v(real_int(2), s),
                    t3,
                )
            }
        } else if rat_lt(rv(r_cap2_v(a, b, c)), rv(q_cap3_v(a, b))) {
            r matches Ok(k) && k matches CubicRoots::ThreeDistinct { base, q_cap, r_cap } && base
                == real_neg_v(t3) && q_cap == qc && r_cap == rc
        } else if cardano_exact(a, b, c) {
            r matches Ok(k) && k matches CubicRoots::OneReal(x) && x == cardano_root_v(a, b, c)
        } else {
            r matches Ok(k) && k matches CubicRoots::OneRealIrrational { base, q_cap, r_cap }
                && base == real_neg_v(t3) && q_cap == qc && r_cap == rc
        }
    }
}

/// Solves the monic cubic equation `x^3 + a x^2 + b x + c = 0` with
/// finite real coefficients, by the classification of its depressed form:
/// both invariants zero give the triple root `-a/3`; the exact boundary
/// `729 R^2 == 2916 Q^3` gives a rational double root and simple root;
/// below the boundary the three distinct real roots belong to the
/// trigonometric branch and above it the single real root to the Cardano
/// branch, whose exact invariants are returned whenever their radicals
/// are irrational.  Invariants that cannot be represented cannot be
/// classified and are reported as such.
pub(crate) fn solve_real_cubic(a: Real, b: Real, c: Real) -> (res: Result<CubicRoots, PolyError>)
    requires
        real_wf(a),
        real_wf(b),
        real_wf(c),
        a is Rat,
        b is Rat,
        c is Rat,
    ensures
        cubic_outcome(a, b, c, res),
{
    let q = a.mul(a).sub(Real::from_int(3).mul(b));
    let rr = Real::from_int(2).mul(a.mul(a).mul(a)).sub(Real::from_int(9).mul(a).mul(b)).add(
        Real::from_int(27).mul(c),
    );
    let q_cap = q.div(Real::from_int(9));
    let r_cap = rr.div(Real::from_int(54));
    let q_cap3 = q_cap.mul(q_cap).mul(q_cap);
    let r_cap2 = r_cap.mul(r_cap);
    let cq3 = Real::from_int(2916).mul(q.mul(q).mul(q));
    let cr2 = Real::from_int(729).mul(rr.mul(rr));
    if !(q.is_finite() && rr.is_finite() && q_cap.is_finite() && r_cap.is_finite()
        && q_cap3.is_finite() && r_cap2.is_finite() && cq3.is_finite() && cr2.is_finite()) {
        return Err(PolyError::NanDiscriminant);
    }
    let adiv3 = a.div(Real::from_int(3));
    if r_cap.is_zero() && q_cap.is_zero() {
        return Ok(CubicRoots::TripleRoot(a.neg().div(Real::from_int(3))));
    }
    if cr2.eq_value(cq3) {
        let s = r_cap.abs().div(q_cap);
        if rr.signum() > 0 {
            let simple = Real::from_int(-2).mul(s).sub(adiv3);
            let repeated = s.sub(adiv3);
            return Ok(CubicRoots::RepeatedPlusSimple { repeated, simple });
        } else {
            let repeated = s.neg().sub(adiv3);
            let simple = Real::from_int(2).mul(s).sub(adiv3);
            return Ok(CubicRoots::RepeatedPlusSimple { repeated, simple });
        }
    }
    if r_cap2.lt(q_cap3) {
        return Ok(CubicRoots::ThreeDistinct { base: adiv3.neg(), q_cap, r_cap });
    }
    let irrational = CubicRoots::OneRealIrrational { base: adiv3.neg(), q_cap, r_cap };
    let w = r_cap2.sub(q_cap3);
    match w {
        Real::Rat { num: wn, den: wd } => {
            if wn < 0 {
                proof {
                    assert((wn as int * wd as int) < 0) by (nonlinear_arith)
                        requires
                            (wn as int) < 0,
                            wd as int >= 1,
                    ;
                    assert forall|s: int| !(0 <= s && #[trigger] (s * s) == rv(w).n * rv(w).d)
                        by {
                        if 0 <= s {
                            assert(s * s >= 0) by (nonlinear_arith)
                                requires
                                    0 <= s,
                            ;
                        }
                    }
                }
                return Ok(irrational);
            }
            proof {
                crate::scalar::lemma_mul_num_den(wn as int, wd as int);
                assert(wn as int * wd as int >= 0) by (nonlinear_arith)
                    requires
                        wn as int >= 0,
                        wd as int >= 1,
                ;
            }
            let k = (wn as i128) * (wd as i128);
            match int_sqrt(k) {
                Some(sw) => {
                    let sqw = crate::scalar::make_rat(sw, wd as i128);
                    let u = r_cap.abs().add(sqw);
                    match u {
                        Real::Rat { num: un, den: ud } => {
                            if un < 0 {
                                proof {
                                    assert forall|t: int|
                                        !(0 <= t && #[trigger] (t * t * t) == rv(u).n) by {
                                        if 0 <= t {
                                            assert(t * t * t >= 0) by (nonlinear_arith)
                                                requires
                                                    0 <= t,
                                            ;
                                        }
                                    }
                                }
                                return Ok(irrational);
                            }
                            match (int_cbrt_i64(un), int_cbrt_i64(ud)) {
                                (Some(pn), Some(pd)) => {
                                    proof {
                                        assert(pd >= 1) by (nonlinear_arith)
                                            requires
                                                pd as int >= 0,
                                                pd as int * pd as int * pd as int == ud as int,
                                                ud as int >= 1,
                                        ;
                                    }
                                    let cb = crate::scalar::make_rat(pn, pd);
                                    let acap = if rr.signum() >= 0 {
                                        cb.neg()
                                    } else {
                                        cb
                                    };
                                    let bcap = q.div(acap);
                                    let x = acap.add(bcap).sub(adiv3);
                                    Ok(CubicRoots::OneReal(x))
                                },
                                _ => Ok(irrational),
                            }
                        },
                        _ => Ok(irrational),
                    }
                },
                None => Ok(irrational),
            }
        },
        _ => Ok(irrational),
    }
}

/// The exact cube root of a nonnegative `i64` value, when it is a
/// perfect cube.
fn int_cbrt_i64(v: i64) -> (r: Option<i128>)
    requires
        v >= 0,
    ensures
        r matches Some(s) ==> 0 <= s && s as int * s as int * s as int == v as int && s as int
            == cbrt_of(v as int),
        r is None ==> !is_cube(v as int),
{
    int_cbrt(v as i128)
}

} // verus!
