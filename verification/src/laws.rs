//! The laws of the library, stated as public proof functions over the
//! same spec functions that the executable contracts use.

use crate::polynomial::{eval_v, poly_finite, poly_wf};
use crate::solve::cubic::{cubic_q_v, cubic_r_v, q_cap_v, r_cap_v};
use crate::solve::quadratic::{quad_disc_v, real_int, sqrt_rat_v, two_a_v};
use crate::scalar::{
    cx_add_v, cx_is_finite, cx_mul_v, cx_wf, lemma_norm_preserves, lemma_norm_zero, norm_rat_v,
    rat, rat_add, rat_div, rat_eq, rat_mul, rat_neg, rat_one, rat_sub, rat_zero, real_add_v,
    real_div_v, real_is_zero, real_mul_v, real_neg_v, real_sub_v, real_wf, real_zero_v, rv,
    Ratio, Real, Scalar,
};
use crate::utils::all_real;
use vstd::prelude::*;

verus! {

/// A fraction in the contracts always keeps a positive denominator.
pub open spec fn rat_wf(a: Ratio) -> bool {
    a.d >= 1
}

/// Every fraction of the sequence keeps a positive denominator.
pub open spec fn rats_wf(c: Seq<Ratio>) -> bool {
    forall|i: int| 0 <= i < c.len() ==> rat_wf(#[trigger] c[i])
}

/// The power `x^n`.
pub open spec fn rpow(x: Ratio, n: nat) -> Ratio
    decreases n,
{
    if n == 0 {
        rat_one()
    } else {
        rat_mul(x, rpow(x, (n - 1) as nat))
    }
}

/// The direct polynomial summation `sum c[i] * x^(i + k)`, term by term.
pub open spec fn power_sum(c: Seq<Ratio>, x: Ratio, k: nat) -> Ratio
    decreases c.len(),
{
    if c.len() == 0 {
        rat_zero()
    } else {
        rat_add(
            rat_mul(c[0], rpow(x, k)),
            power_sum(c.subrange(1, c.len() as int), x, (k + 1) as nat),
        )
    }
}

/// The values of the real parts of a coefficient sequence.
pub open spec fn re_vals(c: Seq<Scalar>) -> Seq<Ratio> {
    Seq::new(c.len(), |i: int| rv(c[i].re))
}

/// A product with a zero factor is zero.
proof fn lemma_zero_factor(x: int, y: int)
    by (nonlinear_arith)
    requires
        x == 0,
    ensures
        x * y == 0,
        y * x == 0,
{
}

/// A product with a unit factor is the other factor.
proof fn lemma_one_factor(x: int, y: int)
    by (nonlinear_arith)
    requires
        y == 1,
    ensures
        x * y == x,
        y * x == x,
{
}

/// The product of two positive denominators is positive.
proof fn lemma_den_pos(p: int, q: int)
    by (nonlinear_arith)
    requires
        p >= 1,
        q >= 1,
    ensures
        p * q >= 1,
{
}

/// Value equality is transitive over well-formed fractions.
proof fn lemma_rat_eq_trans(a: Ratio, b: Ratio, c: Ratio)
    requires
        b.d != 0,
        rat_eq(a, b),
        rat_eq(b, c),
    ensures
        rat_eq(a, c),
{
    assert(a.n * c.d == c.n * a.d) by (nonlinear_arith)
        requires
            a.n * b.d == b.n * a.d,
            b.n * c.d == c.n * b.d,
            b.d != 0,
    ;
}

/// Addition respects value equality.
proof fn lemma_rat_add_cong(a: Ratio, a2: Ratio, b: Ratio, b2: Ratio)
    requires
        rat_eq(a, a2),
        rat_eq(b, b2),
    ensures
        rat_eq(rat_add(a, b), rat_add(a2, b2)),
{
    assert((a.n * b.d + b.n * a.d) * (a2.d * b2.d) == a.n * b.d * (a2.d * b2.d) + b.n * a.d * (
    a2.d * b2.d)) by (nonlinear_arith);
    assert(a.n * b.d * (a2.d * b2.d) == (a.n * a2.d) * (b.d * b2.d)) by (nonlinear_arith);
    assert((a.n * a2.d) * (b.d * b2.d) == (a2.n * a.d) * (b.d * b2.d));
    assert((a2.n * a.d) * (b.d * b2.d) == (a2.n * b2.d) * (a.d * b.d)) by (nonlinear_arith);
    assert(b.n * a.d * (a2.d * b2.d) == (b.n * b2.d) * (a.d * a2.d)) by (nonlinear_arith);
    assert((b.n * b2.d) * (a.d * a2.d) == (b2.n * b.d) * (a.d * a2.d));
    assert((b2.n * b.d) * (a.d * a2.d) == (b2.n * a2.d) * (a.d * b.d)) by (nonlinear_arith);
    assert((a2.n * b2.d) * (a.d * b.d) + (b2.n * a2.d) * (a.d * b.d) == (a2.n * b2.d + b2.n
        * a2.d) * (a.d * b.d)) by (nonlinear_arith);
}

/// Multiplication respects value equality.
proof fn lemma_rat_mul_cong(a: Ratio, a2: Ratio, b: Ratio, b2: Ratio)
    requires
        rat_eq(a, a2),
        rat_eq(b, b2),
    ensures
        rat_eq(rat_mul(a, b), rat_mul(a2, b2)),
{
    assert((a.n * b.n) * (a2.d * b2.d) == (a.n * a2.d) * (b.n * b2.d)) by (nonlinear_arith);
    assert((a.n * a2.d) * (b.n * b2.d) == (a2.n * a.d) * (b2.n * b.d));
    assert((a2.n * a.d) * (b2.n * b.d) == (a2.n * b2.n) * (a.d * b.d)) by (nonlinear_arith);
}

/// Multiplication distributes over addition, up to value equality.
#[verifier::rlimit(50)]
proof fn lemma_rat_mul_dist(x: Ratio, a: Ratio, b: Ratio)
    ensures
        rat_eq(rat_mul(x, rat_add(a, b)), rat_add(rat_mul(x, a), rat_mul(x, b))),
{
    let l = rat_mul(x, rat_add(a, b));
    let r = rat_add(rat_mul(x, a), rat_mul(x, b));
    assert(l.n == x.n * (a.n * b.d + b.n * a.d));
    assert(l.d == x.d * (a.d * b.d));
    assert(r.n == (x.n * a.n) * (x.d * b.d) + (x.n * b.n) * (x.d * a.d));
    assert(r.d == (x.d * a.d) * (x.d * b.d));
    let p1 = x.n * (a.n * b.d);
    let p2 = x.n * (b.n * a.d);
    let q1 = (x.n * a.n) * (x.d * b.d);
    let q2 = (x.n * b.n) * (x.d * a.d);
    assert(l.n == p1 + p2) by (nonlinear_arith)
        requires
            l.n == x.n * (a.n * b.d + b.n * a.d),
            p1 == x.n * (a.n * b.d),
            p2 == x.n * (b.n * a.d),
    ;
    assert(l.n * r.d == p1 * r.d + p2 * r.d) by (nonlinear_arith)
        requires
            l.n == p1 + p2,
    ;
    assert(p1 * ((x.d * a.d) * (x.d * b.d)) == ((x.n * a.n) * (x.d * b.d)) * (x.d * (a.d * b.d)))
        by (nonlinear_arith)
        requires
            p1 == x.n * (a.n * b.d),
    ;
    assert(p2 * ((x.d * a.d) * (x.d * b.d)) == (x.n * (b.n * a.d)) * ((x.d * a.d) * (x.d
        * b.d)));
    assert((x.n * (b.n * a.d)) * ((x.d * a.d) * (x.d * b.d)) == ((x.n * b.n) * (x.d * a.d)) * (
    x.d * (a.d * b.d))) by (nonlinear_arith);
    assert(r.n * l.d == q1 * l.d + q2 * l.d) by (nonlinear_arith)
        requires
            r.n == q1 + q2,
    ;
    assert(q1 * (x.d * (a.d * b.d)) == ((x.n * a.n) * (x.d * b.d)) * (x.d * (a.d * b.d)));
    assert(q2 * (x.d * (a.d * b.d)) == ((x.n * b.n) * (x.d * a.d)) * (x.d * (a.d * b.d)));
}

/// Multiplication commutes and reassociates, up to value equality.
proof fn lemma_rat_mul_comm_assoc(x: Ratio, a: Ratio, b: Ratio)
    ensures
        rat_eq(rat_mul(a, rat_mul(x, b)), rat_mul(x, rat_mul(a, b))),
{
    let l = rat_mul(a, rat_mul(x, b));
    let r = rat_mul(x, rat_mul(a, b));
    assert(l.n * r.d == r.n * l.d) by (nonlinear_arith)
        requires
            l.n == a.n * (x.n * b.n),
            l.d == a.d * (x.d * b.d),
            r.n == x.n * (a.n * b.n),
            r.d == x.d * (a.d * b.d),
    ;
}

/// Powers keep positive denominators.
proof fn lemma_rpow_wf(x: Ratio, n: nat)
    requires
        rat_wf(x),
    ensures
        rat_wf(rpow(x, n)),
    decreases n,
{
    if n > 0 {
        lemma_rpow_wf(x, (n - 1) as nat);
        assert(x.d * rpow(x, (n - 1) as nat).d >= 1) by (nonlinear_arith)
            requires
                x.d >= 1,
                rpow(x, (n - 1) as nat).d >= 1,
        ;
    }
}

/// Power sums keep positive denominators.
proof fn lemma_power_sum_wf(c: Seq<Ratio>, x: Ratio, k: nat)
    requires
        rats_wf(c),
        rat_wf(x),
    ensures
        rat_wf(power_sum(c, x, k)),
    decreases c.len(),
{
    if c.len() > 0 {
        let tail = c.subrange(1, c.len() as int);
        lemma_power_sum_wf(tail, x, (k + 1) as nat);
        lemma_rpow_wf(x, k);
        let h = rat_mul(c[0], rpow(x, k));
        assert(rat_wf(h)) by (nonlinear_arith)
            requires
                c[0].d >= 1,
                rpow(x, k).d >= 1,
                h.d == c[0].d * rpow(x, k).d,
        ;
        assert(rat_wf(rat_add(h, power_sum(tail, x, (k + 1) as nat)))) by (nonlinear_arith)
            requires
                h.d >= 1,
                power_sum(tail, x, (k + 1) as nat).d >= 1,
                rat_add(h, power_sum(tail, x, (k + 1) as nat)).d == h.d * power_sum(
                    tail,
                    x,
                    (k + 1) as nat,
                ).d,
        ;
    }
}

/// Raising every term's power by one multiplies the sum by `x`.
proof fn lemma_power_sum_shift(c: Seq<Ratio>, x: Ratio, k: nat)
    requires
        rats_wf(c),
        rat_wf(x),
    ensures
        rat_eq(power_sum(c, x, (k + 1) as nat), rat_mul(x, power_sum(c, x, k))),
    decreases c.len(),
{
    if c.len() == 0 {
        assert(rat_eq(rat_zero(), rat_mul(x, rat_zero()))) by (nonlinear_arith)
            requires
                rat_mul(x, rat_zero()).n == x.n * 0,
                rat_mul(x, rat_zero()).d == x.d * 1,
        ;
    } else {
        let tail = c.subrange(1, c.len() as int);
        let h1 = rat_mul(c[0], rpow(x, (k + 1) as nat));
        let t1 = power_sum(tail, x, (k + 2) as nat);
        let h0 = rat_mul(c[0], rpow(x, k));
        let t0 = power_sum(tail, x, (k + 1) as nat);
        // The sum at offset k + 1 is add(h1, t1); the goal relates it to
        // mul(x, add(h0, t0)).
        lemma_power_sum_shift(tail, x, (k + 1) as nat);
        // t1 == mul(x, t0) up to value
        lemma_rat_mul_comm_assoc(x, c[0], rpow(x, k));
        // h1 == mul(c0, mul(x, rpow k)) == mul(x, h0) up to value
        assert(rpow(x, (k + 1) as nat) == rat_mul(x, rpow(x, k)));
        lemma_rat_add_cong(h1, rat_mul(x, h0), t1, rat_mul(x, t0));
        lemma_rat_mul_dist(x, h0, t0);
        // add(mul(x,h0), mul(x,t0)) == mul(x, add(h0,t0)) up to value
        lemma_power_sum_wf(c, x, (k + 1) as nat);
        lemma_power_sum_wf(c, x, k);
        lemma_power_sum_wf(tail, x, (k + 1) as nat);
        lemma_power_sum_wf(tail, x, (k + 2) as nat);
        lemma_rpow_wf(x, k);
        lemma_rpow_wf(x, (k + 1) as nat);
        let mid = rat_add(rat_mul(x, h0), rat_mul(x, t0));
        assert(rat_wf(rat_add(h1, t1)));
        assert(rat_wf(c[0]));
        assert(rat_wf(h0)) by (nonlinear_arith)
            requires
                c[0].d >= 1,
                rpow(x, k).d >= 1,
                h0.d == c[0].d * rpow(x, k).d,
        ;
        assert(rat_wf(mid)) by (nonlinear_arith)
            requires
                x.d >= 1,
                h0.d >= 1,
                t0.d >= 1,
                mid.d == (x.d * h0.d) * (x.d * t0.d),
        ;
        assert(rat_wf(rat_mul(x, power_sum(c, x, k)))) by (nonlinear_arith)
            requires
                x.d >= 1,
                power_sum(c, x, k).d >= 1,
                rat_mul(x, power_sum(c, x, k)).d == x.d * power_sum(c, x, k).d,
        ;
        lemma_rat_eq_trans(
            rat_add(h1, t1),
            mid,
            rat_mul(x, rat_add(h0, t0)),
        );
    }
}

/// A finite sum of finite values has the sum of their values.
proof fn lemma_add_value(a: Real, b: Real)
    requires
        real_wf(a),
        real_wf(b),
        a is Rat,
        b is Rat,
        real_add_v(a, b) is Rat,
    ensures
        real_wf(real_add_v(a, b)),
        rat_eq(rv(real_add_v(a, b)), rat_add(rv(a), rv(b))),
{
    let q = rat_add(rv(a), rv(b));
    lemma_den_pos(rv(a).d, rv(b).d);
    lemma_norm_preserves(q.n, q.d);
}

/// A finite product of finite values has the product of their values.
proof fn lemma_mul_value(a: Real, b: Real)
    requires
        real_wf(a),
        real_wf(b),
        a is Rat,
        b is Rat,
        real_mul_v(a, b) is Rat,
    ensures
        real_wf(real_mul_v(a, b)),
        rat_eq(rv(real_mul_v(a, b)), rat_mul(rv(a), rv(b))),
{
    let q = rat_mul(rv(a), rv(b));
    lemma_den_pos(rv(a).d, rv(b).d);
    lemma_norm_preserves(q.n, q.d);
}

/// A finite negation of a finite value has the negated value.
proof fn lemma_neg_value(a: Real)
    requires
        real_wf(a),
        a is Rat,
        real_neg_v(a) is Rat,
    ensures
        real_wf(real_neg_v(a)),
        rat_eq(rv(real_neg_v(a)), rat_neg(rv(a))),
{
    lemma_norm_preserves(-rv(a).n, rv(a).d);
}

/// A finite difference of finite values has the difference of their
/// values.
proof fn lemma_sub_value(a: Real, b: Real)
    requires
        real_wf(a),
        real_wf(b),
        a is Rat,
        b is Rat,
        real_sub_v(a, b) is Rat,
    ensures
        real_wf(real_sub_v(a, b)),
        rat_eq(rv(real_sub_v(a, b)), rat_sub(rv(a), rv(b))),
{
    let nb = real_neg_v(b);
    assert(nb is Rat);
    lemma_neg_value(b);
    lemma_add_value(a, nb);
    lemma_den_pos(rv(a).d, rv(nb).d);
    lemma_rat_add_cong(rv(a), rv(a), rv(nb), rat_neg(rv(b)));
    lemma_rat_eq_trans(
        rv(real_sub_v(a, b)),
        rat_add(rv(a), rv(nb)),
        rat_add(rv(a), rat_neg(rv(b))),
    );
}

/// A finite quotient of finite values has the quotient of their values.
proof fn lemma_div_value(a: Real, b: Real)
    requires
        real_wf(a),
        real_wf(b),
        a is Rat,
        b is Rat,
        !real_is_zero(b),
        real_div_v(a, b) is Rat,
    ensures
        real_wf(real_div_v(a, b)),
        rat_eq(rv(real_div_v(a, b)), rat_div(rv(a), rv(b))),
{
    let q = rat_div(rv(a), rv(b));
    if q.d < 0 {
        lemma_norm_preserves(-q.n, -q.d);
        assert(rat_eq(rat(-q.n, -q.d), q)) by (nonlinear_arith);
        lemma_rat_eq_trans(rv(real_div_v(a, b)), rat(-q.n, -q.d), q);
    } else {
        assert(q.d != 0) by (nonlinear_arith)
            requires
                rv(a).d >= 1,
                rv(b).n != 0,
                q.d == rv(a).d * rv(b).n,
        ;
        lemma_norm_preserves(q.n, q.d);
    }
}

/// Negation respects value equality.
proof fn lemma_rat_neg_cong(a: Ratio, b: Ratio)
    requires
        rat_eq(a, b),
    ensures
        rat_eq(rat_neg(a), rat_neg(b)),
{
    assert((-a.n) * b.d == (-b.n) * a.d) by (nonlinear_arith)
        requires
            a.n * b.d == b.n * a.d,
    ;
}

/// The difference of two equal values is zero.
proof fn lemma_sub_eq_zero(u: Ratio, v: Ratio)
    requires
        rat_eq(u, v),
    ensures
        rat_eq(rat_sub(u, v), rat_zero()),
{
    assert((u.n * v.d + (-v.n) * u.d) * 1 == 0 * (u.d * v.d)) by (nonlinear_arith)
        requires
            u.n * v.d == v.n * u.d,
    ;
}

/// The sum of a value and its opposite is zero.
proof fn lemma_add_opposite(u: Ratio, v: Ratio)
    requires
        rat_eq(u, rat_neg(v)),
    ensures
        rat_eq(rat_add(u, v), rat_zero()),
{
    assert((u.n * v.d + v.n * u.d) * 1 == 0 * (u.d * v.d)) by (nonlinear_arith)
        requires
            u.n * v.d == (-v.n) * u.d,
    ;
}

/// The arithmetic on reals preserves well-formedness.
proof fn lemma_add_wf(a: Real, b: Real)
    requires
        real_wf(a),
        real_wf(b),
    ensures
        real_wf(real_add_v(a, b)),
{
    if a is Rat && b is Rat {
        let q = rat_add(rv(a), rv(b));
        lemma_den_pos(rv(a).d, rv(b).d);
        crate::scalar::lemma_norm_wf(q.n, q.d);
    }
}

proof fn lemma_mul_wf(a: Real, b: Real)
    requires
        real_wf(a),
        real_wf(b),
    ensures
        real_wf(real_mul_v(a, b)),
{
    if a is Rat && b is Rat {
        let q = rat_mul(rv(a), rv(b));
        lemma_den_pos(rv(a).d, rv(b).d);
        crate::scalar::lemma_norm_wf(q.n, q.d);
    }
}

proof fn lemma_neg_wf(a: Real)
    requires
        real_wf(a),
    ensures
        real_wf(real_neg_v(a)),
{
    if a is Rat {
        crate::scalar::lemma_norm_wf(-rv(a).n, rv(a).d);
    }
}

proof fn lemma_sub_wf(a: Real, b: Real)
    requires
        real_wf(a),
        real_wf(b),
    ensures
        real_wf(real_sub_v(a, b)),
{
    lemma_neg_wf(b);
    lemma_add_wf(a, real_neg_v(b));
}

/// Subtraction respects value equality.
proof fn lemma_rat_sub_cong(a: Ratio, a2: Ratio, b: Ratio, b2: Ratio)
    requires
        rat_eq(a, a2),
        rat_eq(b, b2),
    ensures
        rat_eq(rat_sub(a, b), rat_sub(a2, b2)),
{
    lemma_rat_neg_cong(b, b2);
    lemma_rat_add_cong(a, a2, rat_neg(b), rat_neg(b2));
}

/// Division respects value equality.
proof fn lemma_rat_div_cong(a: Ratio, a2: Ratio, b: Ratio, b2: Ratio)
    requires
        rat_eq(a, a2),
        rat_eq(b, b2),
    ensures
        rat_eq(rat_div(a, b), rat_div(a2, b2)),
{
    assert((a.n * b.d) * (a2.d * b2.n) == (a.n * a2.d) * (b2.n * b.d)) by (nonlinear_arith);
    assert((a.n * a2.d) * (b2.n * b.d) == (a2.n * a.d) * (b2.n * b.d));
    assert((a2.n * a.d) * (b2.n * b.d) == (a2.n * a.d) * (b.n * b2.d));
    assert((a2.n * a.d) * (b.n * b2.d) == (a2.n * b2.d) * (a.d * b.n)) by (nonlinear_arith);
}

/// The root reported by the linear solver satisfies its equation: for
/// finite `a` and `b` with `a` not zero, whenever the root `-b / a` is
/// representable, `a * (-b / a) + b` is exactly zero.
pub proof fn lemma_linear_root_solves(a: Real, b: Real)
    requires
        real_wf(a),
        real_wf(b),
        a is Rat,
        b is Rat,
        !real_is_zero(a),
        real_neg_v(real_div_v(b, a)) is Rat,
    ensures
        rat_eq(rat_add(rat_mul(rv(a), rv(real_neg_v(real_div_v(b, a)))), rv(b)), rat_zero()),
{
    let d0 = real_div_v(b, a);
    let x = real_neg_v(d0);
    assert(d0 is Rat);
    lemma_div_value(b, a);
    lemma_neg_value(d0);
    lemma_rat_neg_cong(rv(d0), rat_div(rv(b), rv(a)));
    lemma_rat_eq_trans(rv(x), rat_neg(rv(d0)), rat_neg(rat_div(rv(b), rv(a))));
    let xn = rv(x).n;
    let xd = rv(x).d;
    assert((rv(a).n * xn) * rv(b).d + rv(b).n * (rv(a).d * xd) == 0) by (nonlinear_arith)
        requires
            xn * (rv(b).d * rv(a).n) == (-(rv(b).n * rv(a).d)) * xd,
            rv(a).n == rv(a).n,
    ;
    assert(((rv(a).n * xn) * rv(b).d + rv(b).n * (rv(a).d * xd)) * 1 == 0 * ((rv(a).d * xd)
        * rv(b).d)) by (nonlinear_arith)
        requires
            (rv(a).n * xn) * rv(b).d + rv(b).n * (rv(a).d * xd) == 0,
    ;
}

/// Horner evaluation computes the direct polynomial summation: for a
/// polynomial with finite real coefficients evaluated at a finite real
/// point, whenever the evaluation is representable its value is exactly
/// `sum c[i] * x^i`, and its imaginary part is exactly zero.
pub proof fn lemma_eval_matches_power_sum(c: Seq<Scalar>, x: Scalar)
    requires
        poly_wf(c),
        cx_wf(x),
        poly_finite(c),
        all_real(c),
        cx_is_finite(x),
        real_is_zero(x.im),
        cx_is_finite(eval_v(c, x)),
    ensures
        cx_wf(eval_v(c, x)),
        real_is_zero(eval_v(c, x).im),
        rat_eq(rv(eval_v(c, x).re), power_sum(re_vals(c), rv(x.re), 0)),
    decreases c.len(),
{
    let v = re_vals(c);
    let xr = rv(x.re);
    assert forall|i: int| 0 <= i < v.len() implies rat_wf(#[trigger] v[i]) by {
        assert(cx_wf(c[i]));
        assert(cx_is_finite(c[i]));
    }
    if c.len() == 0 {
        assert(rat_eq(rv(eval_v(c, x).re), power_sum(v, xr, 0)));
    } else if c.len() == 1 {
        assert(eval_v(c, x) == c[0]);
        assert(cx_wf(c[0]));
        assert(real_is_zero(c[0].im));
        let tail = v.subrange(1, 1);
        assert(power_sum(v, xr, 0) == rat_add(rat_mul(v[0], rpow(xr, 0)), power_sum(tail, xr, 1)));
        assert(power_sum(tail, xr, 1) == rat_zero());
        assert(rat_eq(rv(c[0].re), power_sum(v, xr, 0))) by (nonlinear_arith)
            requires
                power_sum(v, xr, 0).n == (rv(c[0].re).n * 1) * 1 + 0 * (rv(c[0].re).d * 1),
                power_sum(v, xr, 0).d == (rv(c[0].re).d * 1) * 1,
        ;
    } else {
        let tail = c.subrange(1, c.len() as int);
        let e = eval_v(tail, x);
        let m = cx_mul_v(x, e);
        assert(eval_v(c, x) == cx_add_v(c[0], m));
        // A finite sum has finite summands, and a finite product has
        // finite factors.
        assert(m.re is Rat && m.im is Rat);
        assert(real_mul_v(x.re, e.re) is Rat && real_mul_v(x.im, e.im) is Rat
            && real_mul_v(x.re, e.im) is Rat && real_mul_v(x.im, e.re) is Rat);
        assert(e.re is Rat && e.im is Rat);
        assert(poly_wf(tail) && poly_finite(tail) && all_real(tail)) by {
            assert(forall|i: int|
                0 <= i < tail.len() ==> #[trigger] tail[i] == c[i + 1]);
        }
        lemma_eval_matches_power_sum(tail, x);
        // The imaginary parts are exactly zero throughout.
        assert(x.im->num == 0 && e.im->num == 0);
        let m1 = real_mul_v(x.re, e.im);
        let m2 = real_mul_v(x.im, e.re);
        lemma_zero_factor(rv(e.im).n, rv(x.re).n);
        lemma_zero_factor(rv(x.im).n, rv(e.re).n);
        lemma_den_pos(rv(x.re).d, rv(e.im).d);
        lemma_den_pos(rv(x.im).d, rv(e.re).d);
        lemma_norm_zero(rv(x.re).d * rv(e.im).d);
        lemma_norm_zero(rv(x.im).d * rv(e.re).d);
        assert(m1 == real_zero_v() && m2 == real_zero_v());
        lemma_zero_factor(rv(m1).n, rv(m2).d);
        lemma_zero_factor(rv(m2).n, rv(m1).d);
        lemma_one_factor(rv(m1).d, rv(m2).d);
        lemma_norm_zero(1);
        assert(m.im == real_zero_v());
        assert(cx_wf(c[0]));
        assert(real_is_zero(c[0].im));
        lemma_zero_factor(rv(m.im).n, rv(c[0].im).d);
        lemma_one_factor(rv(c[0].im).n, rv(m.im).d);
        lemma_one_factor(rv(c[0].im).d, rv(m.im).d);
        lemma_norm_zero(rv(c[0].im).d);
        assert(real_is_zero(eval_v(c, x).im));
        // The value of the product's real part is the product of the
        // values: the imaginary correction term is exactly zero.
        let p = real_mul_v(x.re, e.re);
        let z = real_mul_v(x.im, e.im);
        lemma_zero_factor(rv(x.im).n, rv(e.im).n);
        lemma_den_pos(rv(x.im).d, rv(e.im).d);
        lemma_norm_zero(rv(x.im).d * rv(e.im).d);
        assert(z == real_zero_v());
        let nz = real_neg_v(z);
        assert(nz == real_zero_v());
        lemma_den_pos(rv(x.re).d, rv(e.re).d);
        let qm = rat_mul(rv(x.re), rv(e.re));
        lemma_norm_preserves(qm.n, qm.d);
        lemma_zero_factor(rv(nz).n, rv(p).d);
        lemma_one_factor(rv(p).n, rv(nz).d);
        lemma_one_factor(rv(p).d, rv(nz).d);
        assert(m.re == norm_rat_v(rv(p).n, rv(p).d));
        lemma_norm_preserves(rv(p).n, rv(p).d);
        let vt = re_vals(tail);
        assert(vt =~= v.subrange(1, v.len() as int)) by {
            assert(forall|i: int|
                0 <= i < tail.len() ==> #[trigger] tail[i] == c[i + 1]);
        }
        assert forall|i: int| 0 <= i < vt.len() implies rat_wf(#[trigger] vt[i]) by {
            assert(cx_wf(tail[i]));
        }
        lemma_power_sum_wf(vt, xr, 0);
        lemma_power_sum_wf(vt, xr, 1);
        lemma_rat_mul_cong(xr, xr, rv(e.re), power_sum(vt, xr, 0));
        lemma_power_sum_shift(vt, xr, 0);
        assert(rat_wf(rat_mul(xr, rv(e.re)))) by (nonlinear_arith)
            requires
                xr.d >= 1,
                rv(e.re).d >= 1,
                rat_mul(xr, rv(e.re)).d == xr.d * rv(e.re).d,
        ;
        assert(rat_wf(rat_mul(xr, power_sum(vt, xr, 0)))) by (nonlinear_arith)
            requires
                xr.d >= 1,
                power_sum(vt, xr, 0).d >= 1,
                rat_mul(xr, power_sum(vt, xr, 0)).d == xr.d * power_sum(vt, xr, 0).d,
        ;
        lemma_rat_eq_trans(rv(m.re), rv(p), rat_mul(xr, rv(e.re)));
        lemma_rat_eq_trans(rv(m.re), rat_mul(xr, rv(e.re)), rat_mul(xr, power_sum(vt, xr, 0)));
        lemma_rat_eq_trans(rv(m.re), rat_mul(xr, power_sum(vt, xr, 0)), power_sum(vt, xr, 1));
        // Fold in the constant coefficient.
        let s = eval_v(c, x);
        let qs = rat_add(rv(c[0].re), rv(m.re));
        assert(s.re == norm_rat_v(qs.n, qs.d));
        lemma_den_pos(rv(c[0].re).d, rv(m.re).d);
        lemma_norm_preserves(qs.n, qs.d);
        lemma_rat_add_cong(rv(c[0].re), rv(c[0].re), rv(m.re), power_sum(vt, xr, 1));
        assert(power_sum(v, xr, 0) == rat_add(rat_mul(v[0], rpow(xr, 0)), power_sum(vt, xr, 1)));
        assert(rat_mul(v[0], rpow(xr, 0)) == rv(c[0].re));
        lemma_power_sum_wf(v, xr, 0);
        lemma_rat_eq_trans(rv(s.re), qs, power_sum(v, xr, 0));
        assert(cx_wf(s));
    }
}

/// Vieta's sum for the quadratic solver's rational pair: the two roots
/// `(-b + sqrt(d)) / (2a)` and `(-b - sqrt(d)) / (2a)` it reports add up
/// to exactly `-b / a`, whenever both are representable.
pub proof fn lemma_quadratic_vieta_sum(a: Real, b: Real, c: Real)
    requires
        real_wf(a),
        real_wf(b),
        real_wf(c),
        a is Rat,
        b is Rat,
        c is Rat,
        !real_is_zero(a),
        quad_disc_v(a, b, c) is Rat,
        sqrt_rat_v(quad_disc_v(a, b, c)) is Rat,
        real_div_v(
            real_add_v(real_neg_v(b), sqrt_rat_v(quad_disc_v(a, b, c))),
            two_a_v(a),
        ) is Rat,
        real_div_v(
            real_sub_v(real_neg_v(b), sqrt_rat_v(quad_disc_v(a, b, c))),
            two_a_v(a),
        ) is Rat,
        two_a_v(a) is Rat,
    ensures
        rat_eq(
            rat_add(
                rv(
                    real_div_v(
                        real_add_v(real_neg_v(b), sqrt_rat_v(quad_disc_v(a, b, c))),
                        two_a_v(a),
                    ),
                ),
                rv(
                    real_div_v(
                        real_sub_v(real_neg_v(b), sqrt_rat_v(quad_disc_v(a, b, c))),
                        two_a_v(a),
                    ),
                ),
            ),
            rat_neg(rat_div(rv(b), rv(a))),
        ),
{
    let av = rv(a);
    let bv = rv(b);
    let d = quad_disc_v(a, b, c);
    let sq = sqrt_rat_v(d);
    let ta = two_a_v(a);
    let nb = real_neg_v(b);
    let top_p = real_add_v(nb, sq);
    let top_m = real_sub_v(nb, sq);
    let plus = real_div_v(top_p, ta);
    let minus = real_div_v(top_m, ta);
    assert(nb is Rat && top_p is Rat && top_m is Rat);
    lemma_mul_wf(b, b);
    lemma_mul_wf(real_int(4), a);
    lemma_mul_wf(real_mul_v(real_int(4), a), c);
    lemma_sub_wf(real_mul_v(b, b), real_mul_v(real_mul_v(real_int(4), a), c));
    assert(real_wf(d));
    crate::scalar::lemma_norm_wf(
        crate::solve::radicals::sqrt_of(rv(d).n * rv(d).d),
        rv(d).d,
    );
    assert(real_wf(sq));
    // The value of twice the leading coefficient, and that it is not
    // zero.
    lemma_mul_value(real_int(2), a);
    assert(!real_is_zero(ta)) by {
        if rv(ta).n == 0 {
            assert(rv(ta).n * (1 * av.d) == (2 * av.n) * rv(ta).d);
            assert((2 * av.n) * rv(ta).d != 0) by (nonlinear_arith)
                requires
                    av.n != 0,
                    rv(ta).d >= 1,
            ;
            assert(rv(ta).n * (1 * av.d) == 0) by (nonlinear_arith)
                requires
                    rv(ta).n == 0,
            ;
        }
    }
    // Values of the two roots.
    lemma_neg_value(b);
    lemma_add_value(nb, sq);
    lemma_sub_value(nb, sq);
    lemma_div_value(top_p, ta);
    lemma_div_value(top_m, ta);
    let nbv = rat_neg(bv);
    let sv = rv(sq);
    let tv = rat_mul(rat(2, 1), av);
    // Carry each root's value down to a quotient of plain fractions.
    lemma_rat_add_cong(rv(nb), nbv, sv, sv);
    lemma_rat_sub_cong(rv(nb), nbv, sv, sv);
    lemma_den_pos(rv(nb).d, sv.d);
    lemma_rat_eq_trans(rv(top_p), rat_add(rv(nb), sv), rat_add(nbv, sv));
    lemma_rat_eq_trans(rv(top_m), rat_sub(rv(nb), sv), rat_sub(nbv, sv));
    lemma_rat_div_cong(rv(top_p), rat_add(nbv, sv), rv(ta), tv);
    lemma_rat_div_cong(rv(top_m), rat_sub(nbv, sv), rv(ta), tv);
    lemma_den_pos(rv(top_p).d, rv(ta).d);
    lemma_den_pos(rv(top_m).d, rv(ta).d);
    let pq = rat_div(rat_add(nbv, sv), tv);
    let mq = rat_div(rat_sub(nbv, sv), tv);
    assert(rv(top_p).d * rv(ta).n != 0) by (nonlinear_arith)
        requires
            rv(top_p).d >= 1,
            rv(ta).n != 0,
    ;
    assert(rv(top_m).d * rv(ta).n != 0) by (nonlinear_arith)
        requires
            rv(top_m).d >= 1,
            rv(ta).n != 0,
    ;
    lemma_rat_eq_trans(rv(plus), rat_div(rv(top_p), rv(ta)), pq);
    lemma_rat_eq_trans(rv(minus), rat_div(rv(top_m), rv(ta)), mq);
    lemma_rat_add_cong(rv(plus), pq, rv(minus), mq);
    // The radical cancels out of the sum.
    let bn = bv.n;
    let bd = bv.d;
    let sn = sv.n;
    let sd = sv.d;
    let an = av.n;
    let ad = av.d;
    assert(pq.d == mq.d);
    assert(pq.n + mq.n == ((-2) * (bn * sd)) * ad) by (nonlinear_arith)
        requires
            pq.n == ((-bn) * sd + sn * bd) * (1 * ad),
            mq.n == ((-bn) * sd + (-sn) * bd) * (1 * ad),
    ;
    let w = pq.d;
    assert(w == (bd * sd) * (2 * an));
    assert(rat_add(pq, mq).n == (pq.n + mq.n) * w) by (nonlinear_arith)
        requires
            rat_add(pq, mq).n == pq.n * mq.d + mq.n * pq.d,
            pq.d == w,
            mq.d == w,
    ;
    let k = ((-2) * (bn * sd)) * ad;
    assert(rat_add(pq, mq).n == k * w);
    assert(k * (bd * an) == (-(bn * ad)) * w) by (nonlinear_arith)
        requires
            k == ((-2) * (bn * sd)) * ad,
            w == (bd * sd) * (2 * an),
    ;
    assert((k * w) * (bd * an) == (k * (bd * an)) * w) by (nonlinear_arith);
    assert((k * (bd * an)) * w == ((-(bn * ad)) * w) * w);
    assert(((-(bn * ad)) * w) * w == (-(bn * ad)) * (w * w)) by (nonlinear_arith);
    assert(rat_add(pq, mq).n * (bd * an) == (-(bn * ad)) * (w * w));
    assert(rat_add(pq, mq).d == w * w);
    assert(rat_eq(rat_add(pq, mq), rat_neg(rat_div(bv, av))));
    let mid = rat_add(pq, mq);
    assert(mid.d != 0) by (nonlinear_arith)
        requires
            mid.d == w * w,
            w == (bd * sd) * (2 * an),
            bd >= 1,
            sd >= 1,
            an != 0,
    ;
    lemma_rat_eq_trans(
        rat_add(rv(plus), rv(minus)),
        mid,
        rat_neg(rat_div(bv, av)),
    );
}

/// The quadratic solver's repeated root satisfies its equation: when
/// the discriminant is exactly zero, the reported root `-b / (2a)`
/// satisfies `a x^2 + b x + c == 0` exactly, whenever it is
/// representable.
#[verifier::rlimit(100)]
pub proof fn lemma_double_root_solves(a: Real, b: Real, c: Real)
    requires
        real_wf(a),
        real_wf(b),
        real_wf(c),
        a is Rat,
        b is Rat,
        c is Rat,
        !real_is_zero(a),
        quad_disc_v(a, b, c) is Rat,
        real_is_zero(quad_disc_v(a, b, c)),
        two_a_v(a) is Rat,
        real_div_v(real_neg_v(b), two_a_v(a)) is Rat,
    ensures
        ({
            let x = rv(real_div_v(real_neg_v(b), two_a_v(a)));
            rat_eq(
                rat_add(rat_add(rat_mul(rv(a), rat_mul(x, x)), rat_mul(rv(b), x)), rv(c)),
                rat_zero(),
            )
        }),
{
    let av = rv(a);
    let bv = rv(b);
    let cv = rv(c);
    let d = quad_disc_v(a, b, c);
    let ta = two_a_v(a);
    let nb = real_neg_v(b);
    let x = real_div_v(nb, ta);
    assert(nb is Rat);
    // The discriminant's value, written over the coefficients' values.
    let bb = real_mul_v(b, b);
    let f4a = real_mul_v(real_int(4), a);
    let f4ac = real_mul_v(f4a, c);
    assert(bb is Rat && f4a is Rat && f4ac is Rat);
    lemma_mul_value(b, b);
    lemma_mul_value(real_int(4), a);
    lemma_mul_value(f4a, c);
    lemma_sub_value(bb, f4ac);
    lemma_mul_wf(b, b);
    lemma_mul_wf(real_int(4), a);
    lemma_mul_wf(f4a, c);
    lemma_sub_wf(bb, f4ac);
    lemma_rat_mul_cong(rv(f4a), rat_mul(rat(4, 1), av), cv, cv);
    lemma_den_pos(1, av.d);
    lemma_den_pos(rv(f4a).d, cv.d);
    lemma_rat_eq_trans(rv(f4ac), rat_mul(rv(f4a), cv), rat_mul(rat_mul(rat(4, 1), av), cv));
    lemma_rat_sub_cong(rv(bb), rat_mul(bv, bv), rv(f4ac), rat_mul(rat_mul(rat(4, 1), av), cv));
    let dq = rat_sub(rat_mul(bv, bv), rat_mul(rat_mul(rat(4, 1), av), cv));
    lemma_den_pos(rv(bb).d, rv(f4ac).d);
    lemma_rat_eq_trans(rv(d), rat_sub(rv(bb), rv(f4ac)), dq);
    assert(rat_eq(rv(d), rat_zero()));
    assert(rat_eq(dq, rv(d))) by (nonlinear_arith)
        requires
            rv(d).n * dq.d == dq.n * rv(d).d,
    ;
    lemma_rat_eq_trans(dq, rv(d), rat_zero());
    // The root's value, written over the coefficients' values.
    lemma_mul_value(real_int(2), a);
    assert(!real_is_zero(ta)) by {
        if rv(ta).n == 0 {
            assert(rv(ta).n * (1 * av.d) == (2 * av.n) * rv(ta).d);
            assert((2 * av.n) * rv(ta).d != 0) by (nonlinear_arith)
                requires
                    av.n != 0,
                    rv(ta).d >= 1,
            ;
            assert(rv(ta).n * (1 * av.d) == 0) by (nonlinear_arith)
                requires
                    rv(ta).n == 0,
            ;
        }
    }
    lemma_neg_value(b);
    lemma_div_value(nb, ta);
    let tv = rat_mul(rat(2, 1), av);
    lemma_rat_div_cong(rv(nb), rat_neg(bv), rv(ta), tv);
    assert(rv(nb).d * rv(ta).n != 0) by (nonlinear_arith)
        requires
            rv(nb).d >= 1,
            rv(ta).n != 0,
    ;
    let xq = rat_div(rat_neg(bv), tv);
    lemma_rat_eq_trans(rv(x), rat_div(rv(nb), rv(ta)), xq);
    // The cross multiplied facts about the root and the discriminant.
    let xn = rv(x).n;
    let xd = rv(x).d;
    let an = av.n;
    let ad = av.d;
    let bn = bv.n;
    let bd = bv.d;
    let cn = cv.n;
    let cd = cv.d;
    assert(xn * (bd * (2 * an)) == ((-bn) * (1 * ad)) * xd);
    let e1l = xn * (bd * (2 * an));
    let e1r = ((-bn) * (1 * ad)) * xd;
    assert(e1l * e1l == e1r * e1r);
    assert(e1l * e1l == (4 * (an * an)) * ((bd * bd) * (xn * xn))) by (nonlinear_arith)
        requires
            e1l == xn * (bd * (2 * an)),
    ;
    assert(e1r * e1r == ((bn * bn) * (ad * ad)) * (xd * xd)) by (nonlinear_arith)
        requires
            e1r == ((-bn) * (1 * ad)) * xd,
    ;
    assert((bn * bn) * ((1 * ad) * cd) + (-((4 * an) * cn)) * (bd * bd) == 0) by (nonlinear_arith)
        requires
            dq.n * 1 == 0 * dq.d,
            dq.n == (bn * bn) * ((1 * ad) * cd) + (-((4 * an) * cn)) * (bd * bd),
    ;
    // The equation's numerator, multiplied through by 4 a bd, vanishes.
    let t1 = (an * (xn * xn)) * (bd * xd) * cd;
    let t2 = ((bn * xn) * (ad * (xd * xd))) * cd;
    let t3 = cn * ((ad * (xd * xd)) * (bd * xd));
    assert(((4 * an) * bd) * t1 == ((4 * (an * an)) * ((bd * bd) * (xn * xn))) * (xd * cd))
        by (nonlinear_arith)
        requires
            t1 == (an * (xn * xn)) * (bd * xd) * cd,
    ;
    assert(((4 * (an * an)) * ((bd * bd) * (xn * xn))) * (xd * cd) == (((bn * bn) * (ad * ad)) * (
    xd * xd)) * (xd * cd));
    let q2 = (ad * (xd * xd)) * cd;
    assert(t2 == (bn * xn) * q2) by (nonlinear_arith)
        requires
            t2 == ((bn * xn) * (ad * (xd * xd))) * cd,
            q2 == (ad * (xd * xd)) * cd,
    ;
    assert(((4 * an) * bd) * ((bn * xn) * q2) == ((2 * an) * (bd * xn)) * ((2 * bn) * q2))
        by (nonlinear_arith);
    assert(((2 * an) * (bd * xn)) == e1l) by (nonlinear_arith)
        requires
            e1l == xn * (bd * (2 * an)),
    ;
    assert(e1l * ((2 * bn) * q2) == e1r * ((2 * bn) * q2));
    assert(e1r * ((2 * bn) * q2) == ((-bn) * (ad * xd)) * ((2 * bn) * q2)) by (nonlinear_arith)
        requires
            e1r == ((-bn) * (1 * ad)) * xd,
    ;
    assert(((-bn) * (ad * xd)) * ((2 * bn) * q2) == (-2) * (((bn * bn) * (ad * ad)) * ((xd * xd)
        * (xd * cd)))) by (nonlinear_arith)
        requires
            q2 == (ad * (xd * xd)) * cd,
    ;
    assert(((4 * an) * bd) * t2 == (-2) * (((bn * bn) * (ad * ad)) * ((xd * xd) * (xd * cd))));
    assert(((4 * an) * bd) * t3 == ((4 * an) * cn) * (bd * bd) * ((ad * (xd * xd)) * xd))
        by (nonlinear_arith)
        requires
            t3 == cn * ((ad * (xd * xd)) * (bd * xd)),
    ;
    assert(((4 * an) * cn) * (bd * bd) == (bn * bn) * ((1 * ad) * cd)) by (nonlinear_arith)
        requires
            (bn * bn) * ((1 * ad) * cd) + (-((4 * an) * cn)) * (bd * bd) == 0,
    ;
    assert(((4 * an) * cn) * (bd * bd) * ((ad * (xd * xd)) * xd) == ((bn * bn) * ((1 * ad) * cd))
        * ((ad * (xd * xd)) * xd));
    assert(((bn * bn) * ((1 * ad) * cd)) * ((ad * (xd * xd)) * xd) == (((bn * bn) * (ad * ad)) * (
    xd * xd)) * (xd * cd)) by (nonlinear_arith);
    assert((-2) * (((bn * bn) * (ad * ad)) * ((xd * xd) * (xd * cd))) == (-2) * ((((bn * bn) * (ad
        * ad)) * (xd * xd)) * (xd * cd))) by (nonlinear_arith);
    let big = (((bn * bn) * (ad * ad)) * (xd * xd)) * (xd * cd);
    assert(((4 * an) * bd) * t1 == big);
    assert(((4 * an) * bd) * t2 == (-2) * big);
    assert(((4 * an) * bd) * t3 == big);
    assert(((4 * an) * bd) * (t1 + t2 + t3) == ((4 * an) * bd) * t1 + ((4 * an) * bd) * t2 + ((4
        * an) * bd) * t3) by (nonlinear_arith);
    assert(big + (-2) * big + big == 0) by (nonlinear_arith);
    assert(((4 * an) * bd) * (t1 + t2 + t3) == 0);
    assert((4 * an) * bd != 0) by (nonlinear_arith)
        requires
            an != 0,
            bd >= 1,
    ;
    assert(t1 + t2 + t3 == 0) by (nonlinear_arith)
        requires
            ((4 * an) * bd) * (t1 + t2 + t3) == 0,
            (4 * an) * bd != 0,
    ;
    // Hence the equation's value at the root is exactly zero.
    let g = rat_add(rat_add(rat_mul(av, rat_mul(rv(x), rv(x))), rat_mul(bv, rv(x))), cv);
    assert(g.n == ((an * (xn * xn)) * (bd * xd) + (bn * xn) * (ad * (xd * xd))) * cd + cn * ((ad
        * (xd * xd)) * (bd * xd)));
    assert(g.n == t1 + t2 + t3) by (nonlinear_arith)
        requires
            g.n == ((an * (xn * xn)) * (bd * xd) + (bn * xn) * (ad * (xd * xd))) * cd + cn * ((ad
                * (xd * xd)) * (bd * xd)),
            t1 == (an * (xn * xn)) * (bd * xd) * cd,
            t2 == ((bn * xn) * (ad * (xd * xd))) * cd,
            t3 == cn * ((ad * (xd * xd)) * (bd * xd)),
    ;
    assert(g.n * 1 == 0 * g.d) by (nonlinear_arith)
        requires
            g.n == 0,
    ;
}

/// Round trip through the triple root: expanding `(x - r)^3` into the
/// monic cubic `x^3 - 3r x^2 + 3r^2 x - r^3` drives the cubic solver's
/// classification to the triple root branch, whose reported root
/// `-a / 3` has the value `r` again.
pub proof fn lemma_triple_root_round_trip(a: Real, b: Real, c: Real, r: Ratio)
    requires
        real_wf(a),
        real_wf(b),
        real_wf(c),
        a is Rat,
        b is Rat,
        c is Rat,
        r.d >= 1,
        rat_eq(rv(a), rat_mul(rat(-3, 1), r)),
        rat_eq(rv(b), rat_mul(rat(3, 1), rat_mul(r, r))),
        rat_eq(rv(c), rat_neg(rat_mul(r, rat_mul(r, r)))),
        cubic_q_v(a, b) is Rat,
        cubic_r_v(a, b, c) is Rat,
        q_cap_v(a, b) is Rat,
        r_cap_v(a, b, c) is Rat,
    ensures
        real_is_zero(q_cap_v(a, b)),
        real_is_zero(r_cap_v(a, b, c)),
        real_div_v(real_neg_v(a), real_int(3)) is Rat ==> rat_eq(
            rv(real_div_v(real_neg_v(a), real_int(3))),
            r,
        ),
{
    let av = rv(a);
    let bv = rv(b);
    let cv = rv(c);
    let ar = rat_mul(rat(-3, 1), r);
    let br = rat_mul(rat(3, 1), rat_mul(r, r));
    let cr = rat_neg(rat_mul(r, rat_mul(r, r)));
    lemma_den_pos(r.d, r.d);
    lemma_den_pos(r.d, r.d * r.d);
    lemma_one_factor(r.d, 1);
    // The invariant Q has the value a^2 - 3b == 9r^2 - 9r^2 == 0.
    let maa = real_mul_v(a, a);
    let m3b = real_mul_v(real_int(3), b);
    assert(maa is Rat && m3b is Rat);
    lemma_mul_value(a, a);
    lemma_mul_value(real_int(3), b);
    lemma_sub_value(maa, m3b);
    lemma_rat_mul_cong(av, ar, av, ar);
    lemma_rat_mul_cong(rat(3, 1), rat(3, 1), bv, br);
    let nine_r2 = rat(9 * (r.n * r.n), r.d * r.d);
    assert(rat_eq(rat_mul(ar, ar), nine_r2)) by (nonlinear_arith)
        requires
            rat_mul(ar, ar).n == ((-3) * r.n) * ((-3) * r.n),
            rat_mul(ar, ar).d == (1 * r.d) * (1 * r.d),
            nine_r2.n == 9 * (r.n * r.n),
            nine_r2.d == r.d * r.d,
    ;
    assert(rat_eq(rat_mul(rat(3, 1), br), nine_r2)) by (nonlinear_arith)
        requires
            rat_mul(rat(3, 1), br).n == 3 * (3 * (r.n * r.n)),
            rat_mul(rat(3, 1), br).d == 1 * (1 * (r.d * r.d)),
            nine_r2.n == 9 * (r.n * r.n),
            nine_r2.d == r.d * r.d,
    ;
    lemma_den_pos(av.d, av.d);
    lemma_den_pos(1, bv.d);
    lemma_rat_eq_trans(rv(maa), rat_mul(av, av), rat_mul(ar, ar));
    lemma_rat_eq_trans(rv(maa), rat_mul(ar, ar), nine_r2);
    lemma_rat_eq_trans(rv(m3b), rat_mul(rat(3, 1), bv), rat_mul(rat(3, 1), br));
    lemma_rat_eq_trans(rv(m3b), rat_mul(rat(3, 1), br), nine_r2);
    lemma_rat_eq_trans(rv(maa), nine_r2, rv(m3b));
    lemma_sub_eq_zero(rv(maa), rv(m3b));
    lemma_rat_sub_cong(rv(maa), rv(maa), rv(m3b), rv(m3b));
    lemma_den_pos(rv(maa).d, rv(m3b).d);
    let q = cubic_q_v(a, b);
    lemma_rat_eq_trans(rv(q), rat_sub(rv(maa), rv(m3b)), rat_zero());
    assert(rv(q).n == 0);
    // Q / 9 keeps a zero numerator.
    let qc = q_cap_v(a, b);
    lemma_den_pos(rv(q).d, 9);
    lemma_one_factor(rv(q).n, 1);
    lemma_norm_zero(rv(q).d * 9);
    assert(qc == real_zero_v());
    // The invariant R has the value 2a^3 - 9ab + 27c
    // == -54r^3 + 81r^3 - 27r^3 == 0.
    let taaa = real_mul_v(real_mul_v(a, a), a);
    let t2a3 = real_mul_v(real_int(2), taaa);
    let t9a = real_mul_v(real_int(9), a);
    let t9ab = real_mul_v(t9a, b);
    let tsub = real_sub_v(t2a3, t9ab);
    let t27c = real_mul_v(real_int(27), c);
    let rr = cubic_r_v(a, b, c);
    assert(tsub is Rat && t27c is Rat);
    assert(t2a3 is Rat && t9ab is Rat);
    assert(taaa is Rat && t9a is Rat);
    lemma_mul_value(maa, a);
    lemma_mul_value(real_int(2), taaa);
    lemma_mul_value(real_int(9), a);
    lemma_mul_value(t9a, b);
    lemma_sub_value(t2a3, t9ab);
    lemma_mul_value(real_int(27), c);
    lemma_add_value(tsub, t27c);
    // The value of a^3 in terms of r.
    let a3r = rat_mul(rat_mul(ar, ar), ar);
    lemma_rat_mul_cong(rv(maa), rat_mul(ar, ar), av, ar);
    lemma_den_pos(rv(maa).d, av.d);
    lemma_den_pos(av.d * av.d, av.d);
    lemma_rat_eq_trans(rv(taaa), rat_mul(rv(maa), av), rat_mul(rat_mul(ar, ar), ar));
    // 2 a^3 has the value -54 r^3.
    let d3 = r.d * (r.d * r.d);
    let v2 = rat((-54) * (r.n * (r.n * r.n)), d3);
    lemma_den_pos(r.d, r.d * r.d);
    lemma_rat_mul_cong(rat(2, 1), rat(2, 1), rv(taaa), a3r);
    assert(rat_eq(rat_mul(rat(2, 1), a3r), v2)) by (nonlinear_arith)
        requires
            rat_mul(rat(2, 1), a3r).n == 2 * ((((-3) * r.n) * ((-3) * r.n)) * ((-3) * r.n)),
            rat_mul(rat(2, 1), a3r).d == 1 * (((1 * r.d) * (1 * r.d)) * (1 * r.d)),
            v2.n == (-54) * (r.n * (r.n * r.n)),
            v2.d == r.d * (r.d * r.d),
    ;
    lemma_den_pos(rv(taaa).d, 1);
    lemma_one_factor(rv(taaa).n, 1);
    lemma_den_pos(1, rv(taaa).d);
    lemma_den_pos(r.d * r.d, r.d);
    assert(a3r.d == (r.d * r.d) * r.d);
    lemma_den_pos(1, a3r.d);
    lemma_rat_eq_trans(rv(t2a3), rat_mul(rat(2, 1), rv(taaa)), rat_mul(rat(2, 1), a3r));
    lemma_rat_eq_trans(rv(t2a3), rat_mul(rat(2, 1), a3r), v2);
    // 9 a b has the value -81 r^3.
    let v9 = rat((-81) * (r.n * (r.n * r.n)), d3);
    lemma_rat_mul_cong(rat(9, 1), rat(9, 1), av, ar);
    lemma_den_pos(1, av.d);
    lemma_den_pos(rv(t9a).d, bv.d);
    lemma_rat_eq_trans(rv(t9a), rat_mul(rat(9, 1), av), rat_mul(rat(9, 1), ar));
    lemma_rat_mul_cong(rv(t9a), rat_mul(rat(9, 1), ar), rv(b), br);
    lemma_rat_eq_trans(rv(t9ab), rat_mul(rv(t9a), bv), rat_mul(rat_mul(rat(9, 1), ar), br));
    assert(rat_eq(rat_mul(rat_mul(rat(9, 1), ar), br), v9)) by (nonlinear_arith)
        requires
            rat_mul(rat_mul(rat(9, 1), ar), br).n == (9 * ((-3) * r.n)) * (3 * (r.n * r.n)),
            rat_mul(rat_mul(rat(9, 1), ar), br).d == (1 * (1 * r.d)) * (1 * (r.d * r.d)),
            v9.n == (-81) * (r.n * (r.n * r.n)),
            v9.d == r.d * (r.d * r.d),
    ;
    lemma_den_pos(1 * (1 * r.d), 1 * (r.d * r.d));
    lemma_rat_eq_trans(rv(t9ab), rat_mul(rat_mul(rat(9, 1), ar), br), v9);
    // Their difference has the value 27 r^3.
    let v27 = rat(27 * (r.n * (r.n * r.n)), d3);
    lemma_rat_sub_cong(rv(t2a3), v2, rv(t9ab), v9);
    assert(rat_eq(rat_sub(v2, v9), v27)) by (nonlinear_arith)
        requires
            rat_sub(v2, v9).n == v2.n * v9.d + (-v9.n) * v2.d,
            rat_sub(v2, v9).d == v2.d * v9.d,
            v2.n == (-54) * (r.n * (r.n * r.n)),
            v9.n == (-81) * (r.n * (r.n * r.n)),
            v2.d == d3,
            v9.d == d3,
            v27.n == 27 * (r.n * (r.n * r.n)),
            v27.d == d3,
            d3 >= 1,
    ;
    lemma_den_pos(rv(t2a3).d, rv(t9ab).d);
    lemma_den_pos(d3, d3);
    lemma_rat_eq_trans(rv(tsub), rat_sub(rv(t2a3), rv(t9ab)), rat_sub(v2, v9));
    lemma_rat_eq_trans(rv(tsub), rat_sub(v2, v9), v27);
    // 27 c has the value -27 r^3, the exact opposite.
    lemma_rat_mul_cong(rat(27, 1), rat(27, 1), cv, cr);
    assert(rat_eq(rat_mul(rat(27, 1), cr), rat_neg(v27))) by (nonlinear_arith)
        requires
            rat_mul(rat(27, 1), cr).n == 27 * (-(r.n * (r.n * r.n))),
            rat_mul(rat(27, 1), cr).d == 1 * (r.d * (r.d * r.d)),
            rat_neg(v27).n == -(27 * (r.n * (r.n * r.n))),
            rat_neg(v27).d == d3,
            d3 == r.d * (r.d * r.d),
    ;
    lemma_den_pos(1, cv.d);
    lemma_rat_eq_trans(rv(t27c), rat_mul(rat(27, 1), cv), rat_mul(rat(27, 1), cr));
    lemma_rat_eq_trans(rv(t27c), rat_mul(rat(27, 1), cr), rat_neg(v27));
    // The whole invariant R is zero.
    lemma_rat_neg_cong(rv(t27c), rat_neg(v27));
    assert(rat_eq(rv(tsub), rat_neg(rv(t27c)))) by {
        lemma_rat_neg_cong(v27, v27);
        assert(rat_eq(rat_neg(rat_neg(v27)), v27)) by (nonlinear_arith);
        lemma_rat_eq_trans(rat_neg(rv(t27c)), rat_neg(rat_neg(v27)), v27);
        lemma_rat_eq_trans(rv(tsub), v27, rat_neg(rv(t27c)));
    }
    lemma_add_opposite(rv(tsub), rv(t27c));
    lemma_rat_add_cong(rv(tsub), rv(tsub), rv(t27c), rv(t27c));
    lemma_den_pos(rv(tsub).d, rv(t27c).d);
    lemma_rat_eq_trans(rv(rr), rat_add(rv(tsub), rv(t27c)), rat_zero());
    assert(rv(rr).n == 0);
    // R / 54 keeps a zero numerator.
    let rc = r_cap_v(a, b, c);
    lemma_den_pos(rv(rr).d, 54);
    lemma_one_factor(rv(rr).n, 1);
    lemma_norm_zero(rv(rr).d * 54);
    assert(rc == real_zero_v());
    // The reported root -a / 3 has the value r.
    let na = real_neg_v(a);
    let x = real_div_v(na, real_int(3));
    if x is Rat {
        assert(na is Rat);
        lemma_neg_value(a);
        lemma_div_value(na, real_int(3));
        lemma_rat_neg_cong(av, ar);
        lemma_rat_eq_trans(rv(na), rat_neg(av), rat_neg(ar));
        lemma_rat_div_cong(rv(na), rat_neg(ar), rat(3, 1), rat(3, 1));
        assert(rat_eq(rat_div(rat_neg(ar), rat(3, 1)), r)) by (nonlinear_arith)
            requires
                rat_div(rat_neg(ar), rat(3, 1)).n == (-((-3) * r.n)) * 1,
                rat_div(rat_neg(ar), rat(3, 1)).d == (1 * r.d) * 3,
        ;
        lemma_den_pos(rv(na).d, 1);
        lemma_den_pos(1 * r.d, 3);
        lemma_rat_eq_trans(rv(x), rat_div(rv(na), rat(3, 1)), rat_div(rat_neg(ar), rat(3, 1)));
        lemma_rat_eq_trans(rv(x), rat_div(rat_neg(ar), rat(3, 1)), r);
    }
}

} // verus!
