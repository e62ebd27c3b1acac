//! Exact scalar arithmetic.
//!
//! [`Real`] is a real scalar: either an exact fraction of two `i64` values,
//! or a marker for an infinite or invalid quantity.  [`Scalar`] is a complex
//! number built from two such parts.  Arithmetic is exact: a result whose
//! reduced fraction no longer fits the machine integers becomes the invalid
//! marker rather than a rounded value.  The mathematical value of a finite
//! scalar is described by [`Ratio`], an unbounded fraction used throughout
//! the crate's contracts.

use vstd::prelude::*;

verus! {

/// The mathematical value of a finite scalar component: the fraction `n / d`.
pub struct Ratio {
    pub n: int,
    pub d: int,
}

pub open spec fn rat(n: int, d: int) -> Ratio {
    Ratio { n, d }
}

/// Value equality of two fractions, by cross multiplication.
pub open spec fn rat_eq(a: Ratio, b: Ratio) -> bool {
    a.n * b.d == b.n * a.d
}

pub open spec fn rat_add(a: Ratio, b: Ratio) -> Ratio {
    Ratio { n: a.n * b.d + b.n * a.d, d: a.d * b.d }
}

pub open spec fn rat_neg(a: Ratio) -> Ratio {
    Ratio { n: -a.n, d: a.d }
}

pub open spec fn rat_sub(a: Ratio, b: Ratio) -> Ratio {
    rat_add(a, rat_neg(b))
}

pub open spec fn rat_mul(a: Ratio, b: Ratio) -> Ratio {
    Ratio { n: a.n * b.n, d: a.d * b.d }
}

/// The quotient `a / b`, meaningful when `b` is not the zero fraction.
pub open spec fn rat_div(a: Ratio, b: Ratio) -> Ratio {
    Ratio { n: a.n * b.d, d: a.d * b.n }
}

/// `a <= b`, for fractions with positive denominators.
pub open spec fn rat_le(a: Ratio, b: Ratio) -> bool {
    a.n * b.d <= b.n * a.d
}

/// `a < b`, for fractions with positive denominators.
pub open spec fn rat_lt(a: Ratio, b: Ratio) -> bool {
    a.n * b.d < b.n * a.d
}

pub open spec fn rat_zero() -> Ratio {
    Ratio { n: 0, d: 1 }
}

pub open spec fn rat_one() -> Ratio {
    Ratio { n: 1, d: 1 }
}

/// Whether an unbounded integer fits in an `i64`.
pub open spec fn fits(x: int) -> bool {
    i64::MIN <= x <= i64::MAX
}

/// A real scalar: an exact fraction, a signed infinity, or the marker for
/// an invalid (not-a-number) quantity.
#[derive(Clone, Copy, Debug)]
pub enum Real {
    Rat { num: i64, den: i64 },
    Inf { neg: bool },
    Nan,
}

/// Well-formedness: a finite value keeps a positive denominator.
pub open spec fn real_wf(a: Real) -> bool {
    a matches Real::Rat { num, den } ==> den >= 1
}

/// The fraction held by a finite value.
pub open spec fn rv(a: Real) -> Ratio
    recommends
        a is Rat,
{
    Ratio { n: a->num as int, d: a->den as int }
}

pub open spec fn real_is_zero(a: Real) -> bool {
    a is Rat && a->num == 0
}

/// The absolute value of an unbounded integer.
pub open spec fn int_abs(n: int) -> int {
    if n < 0 {
        -n
    } else {
        n
    }
}

/// The greatest common divisor, by Euclid's recursion.
pub open spec fn gcd_nat(a: nat, b: nat) -> nat
    decreases b,
{
    if b == 0 {
        a
    } else {
        gcd_nat(b, a % b)
    }
}

/// `g` divides `a` exactly.
pub open spec fn divides(g: int, a: int) -> bool {
    exists|k: int| a == #[trigger] (g * k)
}

/// The greatest common divisor divides both its arguments, and is
/// positive when the second one is.
pub(crate) proof fn lemma_gcd_divides(a: nat, b: nat)
    ensures
        divides(gcd_nat(a, b) as int, a as int),
        divides(gcd_nat(a, b) as int, b as int),
        b >= 1 ==> gcd_nat(a, b) >= 1,
    decreases b,
{
    let g = gcd_nat(a, b) as int;
    if b == 0 {
        assert(a as int == g * 1) by (nonlinear_arith)
            requires
                g == a as int,
        ;
        assert(b as int == g * 0) by (nonlinear_arith)
            requires
                b == 0,
        ;
    } else {
        lemma_gcd_divides(b, a % b);
        let q = (a as int) / (b as int);
        let k1 = choose|k: int| b as int == #[trigger] (g * k);
        let k2 = choose|k: int| (a % b) as int == #[trigger] (g * k);
        vstd::arithmetic::div_mod::lemma_fundamental_div_mod(a as int, b as int);
        assert(a as int == g * (k1 * q + k2)) by (nonlinear_arith)
            requires
                a as int == (b as int) * q + ((a % b) as int),
                b as int == g * k1,
                (a % b) as int == g * k2,
        ;
        assert(divides(g, a as int));
        if a % b == 0 {
            assert(gcd_nat(b, 0) == b);
        }
    }
}

/// The finite value formed from an exact fraction with positive
/// denominator, reduced to lowest terms, or the invalid marker when the
/// reduced fraction does not fit the machine integers.
pub open spec fn norm_rat_v(n: int, d: int) -> Real
    recommends
        d >= 1,
{
    let g = gcd_nat(int_abs(n) as nat, d as nat) as int;
    let nn = int_abs(n) / g;
    let dd = d / g;
    if fits(nn) && fits(dd) {
        Real::Rat {
            num: (if n < 0 {
                -nn
            } else {
                nn
            }) as i64,
            den: dd as i64,
        }
    } else {
        Real::Nan
    }
}

/// Reduction preserves the value: a finite normalized fraction equals
/// the fraction it was formed from, and keeps a positive denominator.
pub proof fn lemma_norm_preserves(n: int, d: int)
    requires
        d >= 1,
        norm_rat_v(n, d) is Rat,
    ensures
        real_wf(norm_rat_v(n, d)),
        rat_eq(rv(norm_rat_v(n, d)), rat(n, d)),
{
    let na = int_abs(n);
    lemma_gcd_divides(na as nat, d as nat);
    let g = gcd_nat(na as nat, d as nat) as int;
    let ka = choose|k: int| na == #[trigger] (g * k);
    let kd = choose|k: int| d == #[trigger] (g * k);
    vstd::arithmetic::div_mod::lemma_div_multiples_vanish(ka, g);
    vstd::arithmetic::div_mod::lemma_div_multiples_vanish(kd, g);
    assert(na / g == ka && d / g == kd);
    assert(ka >= 0 && kd >= 1) by (nonlinear_arith)
        requires
            g >= 1,
            na == g * ka,
            d == g * kd,
            na >= 0,
            d >= 1,
    ;
    let r = norm_rat_v(n, d);
    if n < 0 {
        assert(rv(r).n == -ka && rv(r).d == kd);
        assert((-ka) * d == n * kd) by (nonlinear_arith)
            requires
                na == g * ka,
                d == g * kd,
                n == -na,
        ;
    } else {
        assert(rv(r).n == ka && rv(r).d == kd);
        assert(ka * d == n * kd) by (nonlinear_arith)
            requires
                na == g * ka,
                d == g * kd,
                n == na,
        ;
    }
}

pub open spec fn real_zero_v() -> Real {
    Real::Rat { num: 0, den: 1 }
}

/// A normalized fraction with positive denominator is well formed.
pub proof fn lemma_norm_wf(n: int, d: int)
    requires
        d >= 1,
    ensures
        real_wf(norm_rat_v(n, d)),
{
    if norm_rat_v(n, d) is Rat {
        lemma_norm_preserves(n, d);
    }
}

/// A zero numerator normalizes to the canonical zero value.
pub proof fn lemma_norm_zero(d: int)
    requires
        d >= 1,
    ensures
        norm_rat_v(0, d) == real_zero_v(),
{
    vstd::arithmetic::div_mod::lemma_small_mod(0, d as nat);
    assert(gcd_nat(0, d as nat) == gcd_nat(d as nat, 0));
    assert(gcd_nat(0, d as nat) == d as nat);
    vstd::arithmetic::div_mod::lemma_div_of0(d);
    vstd::arithmetic::div_mod::lemma_div_by_self(d);
}

pub open spec fn real_one_v() -> Real {
    Real::Rat { num: 1, den: 1 }
}

/// Exact addition: invalid values propagate, opposite infinities are
/// invalid, and a sum that no longer fits the machine integers is invalid.
pub open spec fn real_add_v(a: Real, b: Real) -> Real {
    if a is Nan || b is Nan {
        Real::Nan
    } else if a is Inf && b is Inf {
        if a->neg == b->neg {
            a
        } else {
            Real::Nan
        }
    } else if a is Inf {
        a
    } else if b is Inf {
        b
    } else {
        let q = rat_add(rv(a), rv(b));
        norm_rat_v(q.n, q.d)
    }
}

/// Exact negation.
pub open spec fn real_neg_v(a: Real) -> Real {
    match a {
        Real::Rat { num, den } => norm_rat_v(-(num as int), den as int),
        Real::Inf { neg } => Real::Inf { neg: !neg },
        Real::Nan => Real::Nan,
    }
}

pub open spec fn real_sub_v(a: Real, b: Real) -> Real {
    real_add_v(a, real_neg_v(b))
}

/// Exact multiplication: invalid values propagate, an infinity times zero
/// is invalid, and signs of infinities combine.
pub open spec fn real_mul_v(a: Real, b: Real) -> Real {
    if a is Nan || b is Nan {
        Real::Nan
    } else if a is Inf && b is Inf {
        Real::Inf { neg: a->neg != b->neg }
    } else if a is Inf {
        if real_is_zero(b) {
            Real::Nan
        } else {
            Real::Inf { neg: a->neg != (b->num < 0) }
        }
    } else if b is Inf {
        if real_is_zero(a) {
            Real::Nan
        } else {
            Real::Inf { neg: b->neg != (a->num < 0) }
        }
    } else {
        let q = rat_mul(rv(a), rv(b));
        norm_rat_v(q.n, q.d)
    }
}

/// Exact absolute value.
pub open spec fn real_abs_v(a: Real) -> Real {
    match a {
        Real::Rat { num, den } => {
            if num < 0 {
                norm_rat_v(-(num as int), den as int)
            } else {
                a
            }
        },
        Real::Inf { .. } => Real::Inf { neg: false },
        Real::Nan => Real::Nan,
    }
}

/// Exact division: invalid values propagate, an infinity over an infinity
/// is invalid, a finite value over an infinity is zero, a nonzero finite
/// value over zero is a signed infinity, and zero over zero is invalid.
pub open spec fn real_div_v(a: Real, b: Real) -> Real {
    if a is Nan || b is Nan {
        Real::Nan
    } else if a is Inf {
        if b is Inf {
            Real::Nan
        } else if real_is_zero(b) {
            Real::Inf { neg: a->neg }
        } else {
            Real::Inf { neg: a->neg != (b->num < 0) }
        }
    } else if b is Inf {
        real_zero_v()
    } else if real_is_zero(b) {
        if real_is_zero(a) {
            Real::Nan
        } else {
            Real::Inf { neg: a->num < 0 }
        }
    } else {
        let q = rat_div(rv(a), rv(b));
        if q.d < 0 {
            norm_rat_v(-q.n, -q.d)
        } else {
            norm_rat_v(q.n, q.d)
        }
    }
}

/// Bound on the product of an `i64` value and a positive `i64` value.
pub(crate) proof fn lemma_mul_num_den(x: int, y: int)
    by (nonlinear_arith)
    requires
        -0x8000_0000_0000_0000 <= x <= 0x7fff_ffff_ffff_ffff,
        1 <= y <= 0x7fff_ffff_ffff_ffff,
    ensures
        -0x3fff_ffff_ffff_ffff_8000_0000_0000_0000 <= x * y
            <= 0x3fff_ffff_ffff_ffff_8000_0000_0000_0000,
{
}

/// Bound on the product of two `i64` values.
proof fn lemma_mul_i64(x: int, y: int)
    by (nonlinear_arith)
    requires
        -0x8000_0000_0000_0000 <= x <= 0x7fff_ffff_ffff_ffff,
        -0x8000_0000_0000_0000 <= y <= 0x7fff_ffff_ffff_ffff,
    ensures
        -0x4000_0000_0000_0000_0000_0000_0000_0000 <= x * y
            <= 0x4000_0000_0000_0000_0000_0000_0000_0000,
{
}

/// The product of two positive `i64` denominators is a positive, bounded
/// denominator.
proof fn lemma_den_mul(x: int, y: int)
    by (nonlinear_arith)
    requires
        1 <= x <= 0x7fff_ffff_ffff_ffff,
        1 <= y <= 0x7fff_ffff_ffff_ffff,
    ensures
        1 <= x * y <= 0x3fff_ffff_ffff_ffff_8000_0000_0000_0000,
{
}

/// The greatest common divisor of two machine integers.
fn gcd_u128(a: u128, b: u128) -> (g: u128)
    ensures
        g as nat == gcd_nat(a as nat, b as nat),
    decreases b,
{
    if b == 0 {
        a
    } else {
        gcd_u128(b, a % b)
    }
}

/// Narrows an exact fraction with positive denominator into a `Real`,
/// reducing it to lowest terms.
pub(crate) fn make_rat(n: i128, d: i128) -> (r: Real)
    requires
        1 <= d,
        n >= -0x7fff_ffff_ffff_ffff_ffff_ffff_ffff_ffff,
    ensures
        r == norm_rat_v(n as int, d as int),
        real_wf(r),
{
    let neg = n < 0;
    let na: u128 = if neg {
        (-n) as u128
    } else {
        n as u128
    };
    let dd: u128 = d as u128;
    let g = gcd_u128(na, dd);
    proof {
        lemma_gcd_divides(na as nat, dd as nat);
        vstd::arithmetic::div_mod::lemma_div_pos_is_pos(na as int, g as int);
        vstd::arithmetic::div_mod::lemma_div_pos_is_pos(dd as int, g as int);
        vstd::arithmetic::div_mod::lemma_div_nonincreasing(na as int, g as int);
        vstd::arithmetic::div_mod::lemma_div_nonincreasing(dd as int, g as int);
        let kd = choose|k: int| dd as int == #[trigger] ((g as int) * k);
        vstd::arithmetic::div_mod::lemma_div_multiples_vanish(kd, g as int);
        assert(kd >= 1) by (nonlinear_arith)
            requires
                g as int >= 1,
                dd as int == (g as int) * kd,
                dd as int >= 1,
        ;
    }
    let nn = na / g;
    let dr = dd / g;
    if nn <= i64::MAX as u128 && dr <= i64::MAX as u128 {
        if neg {
            Real::Rat { num: -(nn as i64), den: dr as i64 }
        } else {
            Real::Rat { num: nn as i64, den: dr as i64 }
        }
    } else {
        Real::Nan
    }
}

impl Real {
    pub fn from_int(n: i64) -> (r: Real)
        ensures
            r == (Real::Rat { num: n, den: 1i64 }),
            real_wf(r),
    {
        Real::Rat { num: n, den: 1 }
    }

    /// The value `num / den`; a zero denominator gives the invalid marker.
    pub fn from_ratio(num: i64, den: i64) -> (r: Real)
        ensures
            real_wf(r),
            den == 0 ==> r is Nan,
            den >= 1 ==> r == norm_rat_v(num as int, den as int),
            den <= -1 ==> r == norm_rat_v(-(num as int), -(den as int)),
    {
        if den == 0 {
            Real::Nan
        } else if den < 0 {
            make_rat(-(num as i128), -(den as i128))
        } else {
            make_rat(num as i128, den as i128)
        }
    }

    pub fn zero() -> (r: Real)
        ensures
            r == real_zero_v(),
            real_wf(r),
    {
        Real::Rat { num: 0, den: 1 }
    }

    pub fn one() -> (r: Real)
        ensures
            r == real_one_v(),
            real_wf(r),
    {
        Real::Rat { num: 1, den: 1 }
    }

    pub fn nan() -> (r: Real)
        ensures
            r == Real::Nan,
    {
        Real::Nan
    }

    pub fn infinity() -> (r: Real)
        ensures
            r == (Real::Inf { neg: false }),
    {
        Real::Inf { neg: false }
    }

    pub fn neg_infinity() -> (r: Real)
        ensures
            r == (Real::Inf { neg: true }),
    {
        Real::Inf { neg: true }
    }

    pub fn is_finite(self) -> (r: bool)
        ensures
            r == (self is Rat),
    {
        matches!(self, Real::Rat { .. })
    }

    pub fn is_nan(self) -> (r: bool)
        ensures
            r == (self is Nan),
    {
        matches!(self, Real::Nan)
    }

    pub fn is_infinite(self) -> (r: bool)
        ensures
            r == (self is Inf),
    {
        matches!(self, Real::Inf { .. })
    }

    pub fn is_zero(self) -> (r: bool)
        ensures
            r == real_is_zero(self),
    {
        match self {
            Real::Rat { num, .. } => num == 0,
            _ => false,
        }
    }

    pub fn add(self, other: Real) -> (r: Real)
        requires
            real_wf(self),
            real_wf(other),
        ensures
            r == real_add_v(self, other),
            real_wf(r),
    {
        match (self, other) {
            (Real::Nan, _) => Real::Nan,
            (_, Real::Nan) => Real::Nan,
            (Real::Inf { neg: n1 }, Real::Inf { neg: n2 }) => {
                if n1 == n2 {
                    Real::Inf { neg: n1 }
                } else {
                    Real::Nan
                }
            },
            (Real::Inf { neg }, _) => Real::Inf { neg },
            (_, Real::Inf { neg }) => Real::Inf { neg },
            (Real::Rat { num: n1, den: d1 }, Real::Rat { num: n2, den: d2 }) => {
                proof {
                    lemma_mul_num_den(n1 as int, d2 as int);
                    lemma_mul_num_den(n2 as int, d1 as int);
                    lemma_den_mul(d1 as int, d2 as int);
                }
                let n = (n1 as i128) * (d2 as i128) + (n2 as i128) * (d1 as i128);
                let d = (d1 as i128) * (d2 as i128);
                make_rat(n, d)
            },
        }
    }

    pub fn neg(self) -> (r: Real)
        requires
            real_wf(self),
        ensures
            r == real_neg_v(self),
            real_wf(r),
    {
        match self {
            Real::Rat { num, den } => make_rat(-(num as i128), den as i128),
            Real::Inf { neg } => Real::Inf { neg: !neg },
            Real::Nan => Real::Nan,
        }
    }

    pub fn sub(self, other: Real) -> (r: Real)
        requires
            real_wf(self),
            real_wf(other),
        ensures
            r == real_sub_v(self, other),
            real_wf(r),
    {
        self.add(other.neg())
    }

    pub fn abs(self) -> (r: Real)
        requires
            real_wf(self),
        ensures
            r == real_abs_v(self),
            real_wf(r),
    {
        match self {
            Real::Rat { num, den } => {
                if num < 0 {
                    make_rat(-(num as i128), den as i128)
                } else {
                    self
                }
            },
            Real::Inf { .. } => Real::Inf { neg: false },
            Real::Nan => Real::Nan,
        }
    }

    pub fn mul(self, other: Real) -> (r: Real)
        requires
            real_wf(self),
            real_wf(other),
        ensures
            r == real_mul_v(self, other),
            real_wf(r),
    {
        match (self, other) {
            (Real::Nan, _) => Real::Nan,
            (_, Real::Nan) => Real::Nan,
            (Real::Inf { neg: n1 }, Real::Inf { neg: n2 }) => Real::Inf { neg: n1 != n2 },
            (Real::Inf { neg }, Real::Rat { num, .. }) => {
                if num == 0 {
                    Real::Nan
                } else {
                    Real::Inf { neg: neg != (num < 0) }
                }
            },
            (Real::Rat { num, .. }, Real::Inf { neg }) => {
                if num == 0 {
                    Real::Nan
                } else {
                    Real::Inf { neg: neg != (num < 0) }
                }
            },
            (Real::Rat { num: n1, den: d1 }, Real::Rat { num: n2, den: d2 }) => {
                proof {
                    lemma_mul_i64(n1 as int, n2 as int);
                    lemma_den_mul(d1 as int, d2 as int);
                }
                let n = (n1 as i128) * (n2 as i128);
                let d = (d1 as i128) * (d2 as i128);
                make_rat(n, d)
            },
        }
    }

    pub fn div(self, other: Real) -> (r: Real)
        requires
            real_wf(self),
            real_wf(other),
        ensures
            r == real_div_v(self, other),
            real_wf(r),
    {
        match (self, other) {
            (Real::Nan, _) => Real::Nan,
            (_, Real::Nan) => Real::Nan,
            (Real::Inf { .. }, Real::Inf { .. }) => Real::Nan,
            (Real::Inf { neg }, Real::Rat { num, .. }) => {
                if num == 0 {
                    Real::Inf { neg }
                } else {
                    Real::Inf { neg: neg != (num < 0) }
                }
            },
            (Real::Rat { .. }, Real::Inf { .. }) => Real::Rat { num: 0, den: 1 },
            (Real::Rat { num: n1, den: d1 }, Real::Rat { num: n2, den: d2 }) => {
                if n2 == 0 {
                    if n1 == 0 {
                        Real::Nan
                    } else {
                        Real::Inf { neg: n1 < 0 }
                    }
                } else {
                    proof {
                        lemma_mul_num_den(n1 as int, d2 as int);
                        lemma_mul_i64(d1 as int, n2 as int);
                    }
                    let n = (n1 as i128) * (d2 as i128);
                    let d = (d1 as i128) * (n2 as i128);
                    if d < 0 {
                        make_rat(-n, -d)
                    } else {
                        proof {
                            assert(d1 as int * n2 as int != 0) by (nonlinear_arith)
                                requires
                                    d1 as int >= 1,
                                    n2 as int != 0,
                            ;
                        }
                        make_rat(n, d)
                    }
                }
            },
        }
    }

    /// `self <= other`, by exact cross multiplication.
    pub fn le(self, other: Real) -> (r: bool)
        requires
            real_wf(self),
            real_wf(other),
            self is Rat,
            other is Rat,
        ensures
            r == rat_le(rv(self), rv(other)),
    {
        match (self, other) {
            (Real::Rat { num: n1, den: d1 }, Real::Rat { num: n2, den: d2 }) => {
                proof {
                    lemma_mul_num_den(n1 as int, d2 as int);
                    lemma_mul_num_den(n2 as int, d1 as int);
                }
                (n1 as i128) * (d2 as i128) <= (n2 as i128) * (d1 as i128)
            },
            _ => false,
        }
    }

    /// `self < other`, by exact cross multiplication.
    pub fn lt(self, other: Real) -> (r: bool)
        requires
            real_wf(self),
            real_wf(other),
            self is Rat,
            other is Rat,
        ensures
            r == rat_lt(rv(self), rv(other)),
    {
        match (self, other) {
            (Real::Rat { num: n1, den: d1 }, Real::Rat { num: n2, den: d2 }) => {
                proof {
                    lemma_mul_num_den(n1 as int, d2 as int);
                    lemma_mul_num_den(n2 as int, d1 as int);
                }
                (n1 as i128) * (d2 as i128) < (n2 as i128) * (d1 as i128)
            },
            _ => false,
        }
    }

    /// The sign of a finite value: `-1`, `0` or `1`.
    pub fn signum(self) -> (s: i8)
        requires
            real_wf(self),
            self is Rat,
        ensures
            (s == 1i8) == (self->num > 0),
            (s == 0i8) == (self->num == 0),
            (s == -1i8) == (self->num < 0),
    {
        match self {
            Real::Rat { num, .. } => {
                if num > 0 {
                    1
                } else if num < 0 {
                    -1
                } else {
                    0
                }
            },
            _ => 0,
        }
    }

    /// Exact value equality; the invalid marker equals nothing, itself
    /// included.
    pub fn eq_value(self, other: Real) -> (r: bool)
        requires
            real_wf(self),
            real_wf(other),
        ensures
            r == real_val_eq(self, other),
    {
        match (self, other) {
            (Real::Rat { num: n1, den: d1 }, Real::Rat { num: n2, den: d2 }) => {
                proof {
                    lemma_mul_num_den(n1 as int, d2 as int);
                    lemma_mul_num_den(n2 as int, d1 as int);
                }
                (n1 as i128) * (d2 as i128) == (n2 as i128) * (d1 as i128)
            },
            (Real::Inf { neg: n1 }, Real::Inf { neg: n2 }) => n1 == n2,
            _ => false,
        }
    }
}

/// Value equality on reals: finite values compare as fractions, infinities
/// by sign, and the invalid marker equals nothing.
pub open spec fn real_val_eq(a: Real, b: Real) -> bool {
    if a is Rat && b is Rat {
        rat_eq(rv(a), rv(b))
    } else if a is Inf && b is Inf {
        a->neg == b->neg
    } else {
        false
    }
}

/// A complex scalar: an exact real part and an exact imaginary part.
#[derive(Clone, Copy, Debug)]
pub struct Scalar {
    pub re: Real,
    pub im: Real,
}

pub open spec fn cx_wf(s: Scalar) -> bool {
    real_wf(s.re) && real_wf(s.im)
}

pub open spec fn cx_is_finite(s: Scalar) -> bool {
    s.re is Rat && s.im is Rat
}

pub open spec fn cx_is_nan(s: Scalar) -> bool {
    s.re is Nan || s.im is Nan
}

pub open spec fn cx_is_zero(s: Scalar) -> bool {
    real_is_zero(s.re) && real_is_zero(s.im)
}

pub open spec fn cx_zero_v() -> Scalar {
    Scalar { re: real_zero_v(), im: real_zero_v() }
}

pub open spec fn cx_one_v() -> Scalar {
    Scalar { re: real_one_v(), im: real_zero_v() }
}

pub open spec fn cx_add_v(a: Scalar, b: Scalar) -> Scalar {
    Scalar { re: real_add_v(a.re, b.re), im: real_add_v(a.im, b.im) }
}

pub open spec fn cx_neg_v(a: Scalar) -> Scalar {
    Scalar { re: real_neg_v(a.re), im: real_neg_v(a.im) }
}

pub open spec fn cx_sub_v(a: Scalar, b: Scalar) -> Scalar {
    Scalar { re: real_sub_v(a.re, b.re), im: real_sub_v(a.im, b.im) }
}

/// Complex multiplication: `(a + bi)(c + di) = (ac - bd) + (ad + bc)i`.
pub open spec fn cx_mul_v(a: Scalar, b: Scalar) -> Scalar {
    Scalar {
        re: real_sub_v(real_mul_v(a.re, b.re), real_mul_v(a.im, b.im)),
        im: real_add_v(real_mul_v(a.re, b.im), real_mul_v(a.im, b.re)),
    }
}

/// Complex division, through the squared modulus of the divisor.
pub open spec fn cx_div_v(a: Scalar, b: Scalar) -> Scalar {
    let m = real_add_v(real_mul_v(b.re, b.re), real_mul_v(b.im, b.im));
    Scalar {
        re: real_div_v(real_add_v(real_mul_v(a.re, b.re), real_mul_v(a.im, b.im)), m),
        im: real_div_v(real_sub_v(real_mul_v(a.im, b.re), real_mul_v(a.re, b.im)), m),
    }
}

/// Value equality on complex scalars, part by part.
pub open spec fn cx_val_eq(a: Scalar, b: Scalar) -> bool {
    real_val_eq(a.re, b.re) && real_val_eq(a.im, b.im)
}

impl Scalar {
    pub fn new(re: Real, im: Real) -> (s: Scalar)
        ensures
            s == (Scalar { re, im }),
    {
        Scalar { re, im }
    }

    /// The real scalar with the given real part.
    pub fn from_real(re: Real) -> (s: Scalar)
        ensures
            s == (Scalar { re, im: real_zero_v() }),
    {
        Scalar { re, im: Real::Rat { num: 0, den: 1 } }
    }

    pub fn from_int(n: i64) -> (s: Scalar)
        ensures
            s == (Scalar { re: Real::Rat { num: n, den: 1i64 }, im: real_zero_v() }),
            cx_wf(s),
    {
        Scalar { re: Real::from_int(n), im: Real::Rat { num: 0, den: 1 } }
    }

    /// The real scalar `num / den`; a zero denominator gives the invalid
    /// marker.
    pub fn from_ratio(num: i64, den: i64) -> (s: Scalar)
        ensures
            s.im == real_zero_v(),
            cx_wf(s),
            den == 0 ==> s.re is Nan,
            den >= 1 ==> s.re == norm_rat_v(num as int, den as int),
            den <= -1 ==> s.re == norm_rat_v(-(num as int), -(den as int)),
    {
        Scalar { re: Real::from_ratio(num, den), im: Real::Rat { num: 0, den: 1 } }
    }

    pub fn zero() -> (s: Scalar)
        ensures
            s == cx_zero_v(),
            cx_wf(s),
    {
        Scalar { re: Real::Rat { num: 0, den: 1 }, im: Real::Rat { num: 0, den: 1 } }
    }

    pub fn one() -> (s: Scalar)
        ensures
            s == cx_one_v(),
            cx_wf(s),
    {
        Scalar { re: Real::Rat { num: 1, den: 1 }, im: Real::Rat { num: 0, den: 1 } }
    }

    pub fn nan() -> (s: Scalar)
        ensures
            s == (Scalar { re: Real::Nan, im: real_zero_v() }),
            cx_wf(s),
    {
        Scalar { re: Real::Nan, im: Real::Rat { num: 0, den: 1 } }
    }

    pub fn infinity() -> (s: Scalar)
        ensures
            s == (Scalar { re: Real::Inf { neg: false }, im: real_zero_v() }),
            cx_wf(s),
    {
        Scalar { re: Real::Inf { neg: false }, im: Real::Rat { num: 0, den: 1 } }
    }

    pub fn neg_infinity() -> (s: Scalar)
        ensures
            s == (Scalar { re: Real::Inf { neg: true }, im: real_zero_v() }),
            cx_wf(s),
    {
        Scalar { re: Real::Inf { neg: true }, im: Real::Rat { num: 0, den: 1 } }
    }

    /// The real part.
    pub fn re(self) -> (r: Real)
        ensures
            r == self.re,
    {
        self.re
    }

    /// The imaginary part.
    pub fn im(self) -> (r: Real)
        ensures
            r == self.im,
    {
        self.im
    }

    pub fn is_finite(self) -> (r: bool)
        ensures
            r == cx_is_finite(self),
    {
        self.re.is_finite() && self.im.is_finite()
    }

    pub fn is_nan(self) -> (r: bool)
        ensures
            r == cx_is_nan(self),
    {
        self.re.is_nan() || self.im.is_nan()
    }

    pub fn is_infinite(self) -> (r: bool)
        ensures
            r == (self.re is Inf || self.im is Inf),
    {
        self.re.is_infinite() || self.im.is_infinite()
    }

    pub fn is_zero(self) -> (r: bool)
        ensures
            r == cx_is_zero(self),
    {
        self.re.is_zero() && self.im.is_zero()
    }

    pub fn add(self, other: Scalar) -> (r: Scalar)
        requires
            cx_wf(self),
            cx_wf(other),
        ensures
            r == cx_add_v(self, other),
            cx_wf(r),
    {
        Scalar { re: self.re.add(other.re), im: self.im.add(other.im) }
    }

    pub fn neg(self) -> (r: Scalar)
        requires
            cx_wf(self),
        ensures
            r == cx_neg_v(self),
            cx_wf(r),
    {
        Scalar { re: self.re.neg(), im: self.im.neg() }
    }

    pub fn sub(self, other: Scalar) -> (r: Scalar)
        requires
            cx_wf(self),
            cx_wf(other),
        ensures
            r == cx_sub_v(self, other),
            cx_wf(r),
    {
        Scalar { re: self.re.sub(other.re), im: self.im.sub(other.im) }
    }

    pub fn mul(self, other: Scalar) -> (r: Scalar)
        requires
            cx_wf(self),
            cx_wf(other),
        ensures
            r == cx_mul_v(self, other),
            cx_wf(r),
    {
        Scalar {
            re: self.re.mul(other.re).sub(self.im.mul(other.im)),
            im: self.re.mul(other.im).add(self.im.mul(other.re)),
        }
    }

    pub fn div(self, other: Scalar) -> (r: Scalar)
        requires
            cx_wf(self),
            cx_wf(other),
        ensures
            r == cx_div_v(self, other),
            cx_wf(r),
    {
        let m = other.re.mul(other.re).add(other.im.mul(other.im));
        Scalar {
            re: self.re.mul(other.re).add(self.im.mul(other.im)).div(m),
            im: self.im.mul(other.re).sub(self.re.mul(other.im)).div(m),
        }
    }

    /// Exact value equality, part by part; an invalid part equals nothing.
    pub fn eq_value(self, other: Scalar) -> (r: bool)
        requires
            cx_wf(self),
            cx_wf(other),
        ensures
            r == cx_val_eq(self, other),
    {
        self.re.eq_value(other.re) && self.im.eq_value(other.im)
    }
}

} // verus!
