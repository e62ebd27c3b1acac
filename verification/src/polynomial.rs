//! A polynomial over exact complex scalars, with exact evaluation of the
//! polynomial and of its derivatives at a point.

use crate::scalar::{
    cx_add_v, cx_div_v, cx_is_finite, cx_is_zero, cx_mul_v, cx_one_v, cx_wf, cx_zero_v,
    real_zero_v, Real, Scalar,
};
use crate::solve::cubic::{cubic_outcome, CubicRoots};
use crate::solve::quadratic::{quad_outcome, QuadRoots};
use crate::utils::{
    all_real, check_if_correct_order, check_if_real_coefficients, convert_complex_to_real,
    cx_convertible,
};
use crate::PolyError;
use vstd::prelude::*;

verus! {

/// Every coefficient of the sequence is a well-formed scalar.
pub open spec fn poly_wf(c: Seq<Scalar>) -> bool {
    forall|i: int| 0 <= i < c.len() ==> cx_wf(#[trigger] c[i])
}

/// Every coefficient of the sequence holds a finite value.
pub open spec fn poly_finite(c: Seq<Scalar>) -> bool {
    forall|i: int| 0 <= i < c.len() ==> cx_is_finite(#[trigger] c[i])
}

/// The length of the sequence once every trailing zero coefficient is
/// dropped: the number of coefficients up to and including the highest
/// order one with a nonzero value.
pub open spec fn trimmed_len(c: Seq<Scalar>) -> int
    decreases c.len(),
{
    if c.len() == 0 {
        0
    } else if !cx_is_zero(c.last()) {
        c.len() as int
    } else {
        trimmed_len(c.drop_last())
    }
}

/// The trimmed length never exceeds the full length.
pub proof fn lemma_trimmed_len_bounds(c: Seq<Scalar>)
    ensures
        0 <= trimmed_len(c) <= c.len(),
    decreases c.len(),
{
    if c.len() > 0 && cx_is_zero(c.last()) {
        lemma_trimmed_len_bounds(c.drop_last());
    }
}

/// The value of the polynomial at `x`, by the Horner recursion
/// `c[0] + x * (c[1] + x * (... + x * c[n]))`; a single coefficient is
/// returned as it stands, and the empty polynomial evaluates to zero.
pub open spec fn eval_v(c: Seq<Scalar>, x: Scalar) -> Scalar
    decreases c.len(),
{
    if c.len() == 0 {
        cx_zero_v()
    } else if c.len() == 1 {
        c[0]
    } else {
        cx_add_v(c[0], cx_mul_v(x, eval_v(c.subrange(1, c.len() as int), x)))
    }
}

/// The number of derivative rows that the coefficients can fill when `n`
/// rows are requested, less one: rows above this index are exactly zero.
pub open spec fn derivs_nmax(len: int, n: int) -> int {
    if len < n {
        len - 1
    } else {
        n - 1
    }
}

/// One entry of a synthetic division round: row `0` folds the next lower
/// coefficient `cm` into the running value, and each higher row folds in
/// the row below it, as updated in the same round.
pub open spec fn round_row(prev: Seq<Scalar>, cm: Scalar, x: Scalar, j: int) -> Scalar
    decreases j,
{
    if j <= 0 {
        cx_add_v(cm, cx_mul_v(x, prev[0]))
    } else {
        cx_add_v(round_row(prev, cm, x, j - 1), cx_mul_v(x, prev[j]))
    }
}

/// One synthetic division round over all rows: rows up to `jmax` are
/// updated, rows above it are kept.
pub open spec fn round_rows(prev: Seq<Scalar>, cm: Scalar, x: Scalar, jmax: int) -> Seq<Scalar> {
    Seq::new(prev.len(), |j: int| if j <= jmax { round_row(prev, cm, x, j) } else { prev[j] })
}

/// The derivative rows after the rounds that consume the coefficients
/// above index `m`: every row starts at the leading coefficient, and the
/// round that consumes `c[m]` updates rows up to `min(nmax, m)`.
pub open spec fn derivs_rows_from(c: Seq<Scalar>, x: Scalar, nmax: int, m: int) -> Seq<Scalar>
    recommends
        0 <= m < c.len(),
    decreases c.len() - m,
{
    if m >= c.len() - 1 {
        Seq::new((nmax + 1) as nat, |j: int| c.last())
    } else {
        round_rows(
            derivs_rows_from(c, x, nmax, m + 1),
            c[m],
            x,
            if nmax < m { nmax } else { m },
        )
    }
}

/// The derivative rows after every round, before factorial scaling.
pub open spec fn derivs_rows(c: Seq<Scalar>, x: Scalar, nmax: int) -> Seq<Scalar> {
    derivs_rows_from(c, x, nmax, 0)
}

/// The scalar holding the small integer `j`.
pub open spec fn int_sc(j: int) -> Scalar {
    Scalar { re: Real::Rat { num: j as i64, den: 1 }, im: real_zero_v() }
}

/// The factorial `j!` accumulated as a scalar product `2 * 3 * ... * j`.
pub open spec fn fact_sc(j: int) -> Scalar
    decreases j,
{
    if j <= 1 {
        cx_one_v()
    } else {
        cx_mul_v(fact_sc(j - 1), int_sc(j))
    }
}

/// The synthetic division state always holds `nmax + 1` rows.
proof fn lemma_rows_len(c: Seq<Scalar>, x: Scalar, nmax: int, m: int)
    requires
        0 <= m < c.len(),
        0 <= nmax,
    ensures
        derivs_rows_from(c, x, nmax, m).len() == nmax + 1,
    decreases c.len() - m,
{
    if m < c.len() - 1 {
        lemma_rows_len(c, x, nmax, m + 1);
    }
}

/// Row `0` of the synthetic division state is the Horner evaluation of the
/// coefficients from index `m` upward.
proof fn lemma_rows_zero_is_eval(c: Seq<Scalar>, x: Scalar, nmax: int, m: int)
    requires
        0 <= m < c.len(),
        0 <= nmax,
    ensures
        derivs_rows_from(c, x, nmax, m)[0] == eval_v(c.subrange(m, c.len() as int), x),
    decreases c.len() - m,
{
    let tail = c.subrange(m, c.len() as int);
    if m >= c.len() - 1 {
        assert(tail.len() == 1);
        assert(tail[0] == c.last());
    } else {
        lemma_rows_zero_is_eval(c, x, nmax, m + 1);
        lemma_rows_len(c, x, nmax, m + 1);
        assert(tail.subrange(1, tail.len() as int) =~= c.subrange(m + 1, c.len() as int));
        assert(tail[0] == c[m]);
    }
}

/// A polynomial of degree `n`, represented by a coefficient vector of
/// length `n + 1` in ascending order of powers:
///
/// `P(x) = c[0] + c[1] x + c[2] x^2 + ... + c[n] x^n`
#[derive(Clone, Debug)]
pub struct Polynomial {
    /// The polynomial's coefficients.
    pub coef: Vec<Scalar>,
}

impl Polynomial {
    /// Every coefficient is a well-formed scalar.
    pub open spec fn wf(self) -> bool {
        poly_wf(self.coef@)
    }

    /// Creates a new polynomial with no terms (the zero polynomial).
    pub fn new() -> (p: Polynomial)
        ensures
            p.coef@.len() == 1,
            p.coef@[0] == cx_zero_v(),
            p.wf(),
    {
        let mut coef: Vec<Scalar> = Vec::new();
        coef.push(Scalar::zero());
        Polynomial { coef }
    }

    /// Creates a polynomial from the given coefficients.  An empty slice
    /// gives the zero polynomial; a coefficient without a finite value is
    /// rejected.
    pub fn build(coef: &[Scalar]) -> (r: Result<Polynomial, PolyError>)
        requires
            poly_wf(coef@),
        ensures
            coef@.len() == 0 ==> (r matches Ok(p) && p.coef@.len() == 1 && p.coef@[0]
                == cx_zero_v()),
            coef@.len() > 0 && poly_finite(coef@) ==> (r matches Ok(p) && p.coef@ == coef@),
            coef@.len() > 0 && !poly_finite(coef@) ==> (r matches Err(e) && e
                == PolyError::InvalidCoefficients),
            r matches Ok(p) ==> p.wf(),
    {
        if coef.len() == 0 {
            return Ok(Polynomial::new());
        }
        let n = coef.len();
        let mut i: usize = 0;
        while i < n
            invariant
                n == coef@.len(),
                0 <= i <= n,
                forall|j: int| 0 <= j < i ==> cx_is_finite(#[trigger] coef@[j]),
            decreases n - i,
        {
            let c = coef[i];
            if c.is_nan() || c.is_infinite() {
                assert(!cx_is_finite(coef@[i as int]));
                return Err(PolyError::InvalidCoefficients);
            }
            i = i + 1;
        }
        Ok(Polynomial { coef: vstd::slice::slice_to_vec(coef) })
    }

    /// Drops the higher order terms with zero coefficients.  The canonical
    /// zero polynomial (a single coefficient) is left as it is.
    pub fn to_trimmed(&self) -> (p: Polynomial)
        requires
            self.wf(),
        ensures
            self.coef@.len() == 1 ==> p.coef@ == self.coef@,
            self.coef@.len() != 1 ==> p.coef@ == self.coef@.subrange(
                0,
                trimmed_len(self.coef@),
            ),
            p.wf(),
    {
        if self.coef.len() == 1 {
            return Polynomial { coef: self.coef.clone() };
        }
        let ghost full = self.coef@;
        proof {
            assert(full.subrange(0, full.len() as int) =~= full);
        }
        let mut l: usize = self.coef.len();
        while l > 0 && self.coef[l - 1].is_zero()
            invariant
                self.coef@ == full,
                0 <= l <= full.len(),
                trimmed_len(full.subrange(0, l as int)) == trimmed_len(full),
            decreases l,
        {
            proof {
                assert(full.subrange(0, l as int).drop_last() =~= full.subrange(0, l - 1));
            }
            l = l - 1;
        }
        proof {
            assert(trimmed_len(full.subrange(0, l as int)) == l as int);
        }
        let mut coef = self.coef.clone();
        coef.truncate(l);
        Polynomial { coef }
    }

    /// Normalizes to a monic polynomial: the trailing zero terms are
    /// dropped and every remaining coefficient is divided by the leading
    /// one, so `a x^3 + b x^2 + c x + d` becomes
    /// `x^3 + (b/a) x^2 + (c/a) x + (d/a)`.  The canonical zero polynomial
    /// is left as it is; a longer polynomial whose coefficients are all
    /// zero has no leading term to divide by and is not accepted.
    pub fn to_monic(&self) -> (p: Polynomial)
        requires
            self.wf(),
            self.coef@.len() != 1 ==> trimmed_len(self.coef@) > 0,
        ensures
            self.coef@.len() == 1 ==> p.coef@ == self.coef@,
            self.coef@.len() != 1 ==> {
                let t = self.coef@.subrange(0, trimmed_len(self.coef@));
                &&& p.coef@.len() == t.len()
                &&& forall|i: int|
                    0 <= i < t.len() ==> p.coef@[i] == cx_div_v(#[trigger] t[i], t.last())
            },
            p.wf(),
    {
        if self.coef.len() == 1 {
            return Polynomial { coef: self.coef.clone() };
        }
        proof {
            lemma_trimmed_len_bounds(self.coef@);
        }
        let trimmed = self.to_trimmed();
        let ghost t = trimmed.coef@;
        let n = trimmed.coef.len();
        let a = trimmed.coef[n - 1];
        let mut coef: Vec<Scalar> = Vec::new();
        let mut i: usize = 0;
        while i < n
            invariant
                trimmed.coef@ == t,
                poly_wf(t),
                n == t.len(),
                0 < n,
                a == t.last(),
                cx_wf(a),
                0 <= i <= n,
                coef@.len() == i,
                poly_wf(coef@),
                forall|j: int| 0 <= j < i ==> coef@[j] == cx_div_v(#[trigger] t[j], t.last()),
            decreases n - i,
        {
            coef.push(trimmed.coef[i].div(a));
            i = i + 1;
        }
        Polynomial { coef }
    }

    /// Evaluates the polynomial at `x`, by Horner's scheme: starting from
    /// the highest order coefficient, multiply the running value by `x`
    /// and add the next lower coefficient.
    pub fn eval(&self, x: Scalar) -> (y: Scalar)
        requires
            self.wf(),
            cx_wf(x),
        ensures
            y == eval_v(self.coef@, x),
            cx_wf(y),
    {
        let n = self.coef.len();
        if n == 0 {
            return Scalar::zero();
        }
        let mut acc = self.coef[n - 1];
        let mut k = n - 1;
        while k > 0
            invariant
                self.wf(),
                cx_wf(x),
                n == self.coef@.len(),
                0 <= k < n,
                acc == eval_v(self.coef@.subrange(k as int, n as int), x),
                cx_wf(acc),
            decreases k,
    {
            k = k - 1;
            acc = self.coef[k].add(x.mul(acc));
            proof {
                assert(self.coef@.subrange(k as int, n as int).subrange(
                    1,
                    n - k,
                ) =~= self.coef@.subrange(k + 1, n as int));
            }
        }
        proof {
            assert(self.coef@.subrange(0, n as int) =~= self.coef@);
        }
        acc
    }
    /// Evaluates the polynomial's first `n` derivatives at `x`, the
    /// polynomial's own value included as the `0`-th entry:
    ///
    /// `[P(x), P'(x), P''(x), ..., P^(n-1)(x)]`
    ///
    /// One pass of nested synthetic division fills every derivative order
    /// at once; a final pass multiplies row `j` by `j!`.  Rows beyond the
    /// polynomial's degree are exactly zero, and row `0` equals the Horner
    /// evaluation of the polynomial itself.
    #[verifier::rlimit(50)]
    pub fn eval_derivs(&self, x: Scalar, n: usize) -> (res: Vec<Scalar>)
        requires
            self.wf(),
            cx_wf(x),
            self.coef@.len() >= 1,
            self.coef@.len() <= 0x7fff_ffff_ffff_ffff,
        ensures
            res@.len() == n,
            ({
                let nmax = derivs_nmax(self.coef@.len() as int, n as int);
                let rows = derivs_rows(self.coef@, x, nmax);
                &&& forall|j: int|
                    0 <= j <= nmax ==> #[trigger] res@[j] == (if j < 2 {
                        rows[j]
                    } else {
                        cx_mul_v(rows[j], fact_sc(j))
                    })
                &&& forall|j: int| nmax < j < n ==> #[trigger] res@[j] == cx_zero_v()
            }),
            n > 0 ==> res@[0] == eval_v(self.coef@, x),
            poly_wf(res@),
    {
        let ghost c = self.coef@;
        let len = self.coef.len();
        let mut res: Vec<Scalar> = Vec::new();
        let mut i: usize = 0;
        while i < n
            invariant
                0 <= i <= n,
                res@.len() == i,
                forall|j: int| 0 <= j < i ==> #[trigger] res@[j] == cx_zero_v(),
            decreases n - i,
        {
            res.push(Scalar::zero());
            i = i + 1;
        }
        if n == 0 {
            return res;
        }
        let nmax = if len < n {
            len - 1
        } else {
            n - 1
        };
        let last = self.coef[len - 1];
        let mut i: usize = 0;
        while i <= nmax
            invariant
                self.wf(),
                c == self.coef@,
                res@.len() == n,
                0 < len == c.len(),
                nmax == derivs_nmax(len as int, n as int),
                0 <= nmax < n,
                nmax < len,
                last == c.last(),
                0 <= i <= nmax + 1,
                forall|j: int| 0 <= j < i ==> #[trigger] res@[j] == c.last(),
                forall|j: int| i <= j < n ==> #[trigger] res@[j] == cx_zero_v(),
            decreases nmax + 1 - i,
        {
            res.set(i, last);
            i = i + 1;
        }
        let mut m: usize = len - 1;
        while m > 0
            invariant
                self.wf(),
                cx_wf(x),
                c == self.coef@,
                res@.len() == n,
                0 < len == c.len(),
                len <= 0x7fff_ffff_ffff_ffff,
                nmax == derivs_nmax(len as int, n as int),
                0 <= nmax < n,
                nmax < len,
                0 <= m < len,
                poly_wf(res@),
                forall|j: int|
                    0 <= j <= nmax ==> #[trigger] res@[j] == derivs_rows_from(
                        c,
                        x,
                        nmax as int,
                        m as int,
                    )[j],
                forall|j: int| nmax < j < n ==> #[trigger] res@[j] == cx_zero_v(),
            decreases m,
        {
            m = m - 1;
            let ghost prev = derivs_rows_from(c, x, nmax as int, m as int + 1);
            proof {
                lemma_rows_len(c, x, nmax as int, m as int + 1);
            }
            let cm = self.coef[m];
            let r0 = res[0];
            res.set(0, cm.add(x.mul(r0)));
            let jmax = if nmax < m {
                nmax
            } else {
                m
            };
            let mut j: usize = 1;
            while j <= jmax
                invariant
                    self.wf(),
                    cx_wf(x),
                    c == self.coef@,
                    res@.len() == n,
                    0 < len == c.len(),
                    0 <= m < len - 1,
                    cm == c[m as int],
                    cx_wf(cm),
                    0 <= nmax < n,
                    jmax == (if nmax < m {
                        nmax
                    } else {
                        m
                    }),
                    prev == derivs_rows_from(c, x, nmax as int, m as int + 1),
                    prev.len() == nmax + 1,
                    1 <= j <= jmax + 1,
                    poly_wf(res@),
                    forall|jj: int|
                        0 <= jj < j ==> #[trigger] res@[jj] == round_row(prev, cm, x, jj),
                    forall|jj: int| j <= jj <= nmax ==> #[trigger] res@[jj] == prev[jj],
                    forall|jj: int| nmax < jj < n ==> #[trigger] res@[jj] == cx_zero_v(),
                decreases jmax + 1 - j,
            {
                let rlo = res[j - 1];
                let rj = res[j];
                res.set(j, rlo.add(x.mul(rj)));
                j = j + 1;
            }
            proof {
                let now = derivs_rows_from(c, x, nmax as int, m as int);
                assert(now == round_rows(prev, cm, x, jmax as int));
                assert forall|jj: int| 0 <= jj <= nmax implies #[trigger] res@[jj] == now[jj] by {
                    assert(now[jj] == (if jj <= jmax {
                        round_row(prev, cm, x, jj)
                    } else {
                        prev[jj]
                    }));
                }
            }
        }
        proof {
            lemma_rows_zero_is_eval(c, x, nmax as int, 0);
            assert(c.subrange(0, c.len() as int) =~= c);
        }
        let mut f = Scalar::one();
        let ghost rows = derivs_rows(c, x, nmax as int);
        let mut i2: usize = 2;
        while i2 <= nmax
            invariant
                res@.len() == n,
                0 <= nmax < n,
                nmax < len <= 0x7fff_ffff_ffff_ffff,
                cx_wf(x),
                cx_wf(f),
                2 <= i2 <= nmax + 1 || (nmax < 2 && i2 == 2),
                f == fact_sc(i2 - 1),
                rows == derivs_rows(c, x, nmax as int),
                poly_wf(res@),
                forall|j: int| 0 <= j < 2 && j <= nmax ==> #[trigger] res@[j] == rows[j],
                forall|j: int|
                    2 <= j < i2 && j <= nmax ==> #[trigger] res@[j] == cx_mul_v(
                        rows[j],
                        fact_sc(j),
                    ),
                forall|j: int| i2 <= j <= nmax ==> #[trigger] res@[j] == rows[j],
                forall|j: int| nmax < j < n ==> #[trigger] res@[j] == cx_zero_v(),
            decreases nmax + 2 - i2,
        {
            f = f.mul(Scalar::from_int(i2 as i64));
            let rj = res[i2];
            res.set(i2, rj.mul(f));
            i2 = i2 + 1;
        }
        res
    }

    /// Calculates the real roots of the quadratic equation
    /// `c[2] x^2 + c[1] x + c[0] = 0`.  The polynomial must be of order
    /// two with real coefficients; a zero leading coefficient hands the
    /// equation to the linear solver.
    pub fn solve_real_quadratic(&self) -> (r: Result<QuadRoots, PolyError>)
        requires
            self.wf(),
        ensures
            self.coef@.len() != 3 ==> (r matches Err(e) && e == PolyError::IncorrectOrder(2)),
            self.coef@.len() == 3 && !all_real(self.coef@) ==> (r matches Err(e) && e
                == PolyError::NotRealCoefficients),
            self.coef@.len() == 3 && all_real(self.coef@) ==> {
                let c0 = self.coef@[0];
                let c1 = self.coef@[1];
                let c2 = self.coef@[2];
                &&& !cx_convertible(c0) ==> (r matches Err(e) && e
                    == PolyError::ComplexToRealConversion(c0))
                &&& cx_convertible(c0) && !cx_convertible(c1) ==> (r matches Err(e) && e
                    == PolyError::ComplexToRealConversion(c1))
                &&& cx_convertible(c0) && cx_convertible(c1) && !cx_convertible(c2) ==> (
                r matches Err(e) && e == PolyError::ComplexToRealConversion(c2))
                &&& cx_convertible(c0) && cx_convertible(c1) && cx_convertible(c2)
                    ==> quad_outcome(c2.re, c1.re, c0.re, r)
            },
    {
        match check_if_correct_order(self.coef.as_slice(), 2) {
            Err(e) => {
                return Err(e);
            },
            Ok(()) => {},
        }
        match check_if_real_coefficients(self.coef.as_slice()) {
            Err(e) => {
                return Err(e);
            },
            Ok(()) => {},
        }
        let r0 = match convert_complex_to_real(self.coef[0]) {
            Ok(v) => v,
            Err(e) => {
                return Err(e);
            },
        };
        let r1 = match convert_complex_to_real(self.coef[1]) {
            Ok(v) => v,
            Err(e) => {
                return Err(e);
            },
        };
        let r2 = match convert_complex_to_real(self.coef[2]) {
            Ok(v) => v,
            Err(e) => {
                return Err(e);
            },
        };
        crate::solve::quadratic::solve_real_quadratic(r2, r1, r0)
    }

    /// Calculates the real roots of the cubic equation
    /// `c[3] x^3 + c[2] x^2 + c[1] x + c[0] = 0`.  The polynomial must be
    /// of order three with real coefficients and a nonzero leading
    /// coefficient; it is normalized to monic form before the classifying
    /// solver runs.
    pub fn solve_real_cubic(&self) -> (r: Result<CubicRoots, PolyError>)
        requires
            self.wf(),
            !(self.coef@.len() == 4 && all_real(self.coef@) && cx_is_zero(self.coef@[3])),
        ensures
            self.coef@.len() != 4 ==> (r matches Err(e) && e == PolyError::IncorrectOrder(3)),
            self.coef@.len() == 4 && !all_real(self.coef@) ==> (r matches Err(e) && e
                == PolyError::NotRealCoefficients),
            self.coef@.len() == 4 && all_real(self.coef@) ==> {
                let m0 = cx_div_v(self.coef@[0], self.coef@[3]);
                let m1 = cx_div_v(self.coef@[1], self.coef@[3]);
                let m2 = cx_div_v(self.coef@[2], self.coef@[3]);
                &&& !cx_convertible(m0) ==> (r matches Err(e) && e
                    == PolyError::ComplexToRealConversion(m0))
                &&& cx_convertible(m0) && !cx_convertible(m1) ==> (r matches Err(e) && e
                    == PolyError::ComplexToRealConversion(m1))
                &&& cx_convertible(m0) && cx_convertible(m1) && !cx_convertible(m2) ==> (
                r matches Err(e) && e == PolyError::ComplexToRealConversion(m2))
                &&& cx_convertible(m0) && cx_convertible(m1) && cx_convertible(m2)
                    ==> cubic_outcome(m2.re, m1.re, m0.re, r)
            },
    {
        match check_if_correct_order(self.coef.as_slice(), 3) {
            Err(e) => {
                return Err(e);
            },
            Ok(()) => {},
        }
        match check_if_real_coefficients(self.coef.as_slice()) {
            Err(e) => {
                return Err(e);
            },
            Ok(()) => {},
        }
        proof {
            assert(!cx_is_zero(self.coef@.last()));
            assert(trimmed_len(self.coef@) == 4);
            assert(self.coef@.subrange(0, 4) =~= self.coef@);
        }
        let monic = self.to_monic();
        let m0 = match convert_complex_to_real(monic.coef[0]) {
            Ok(v) => v,
            Err(e) => {
                return Err(e);
            },
        };
        let m1 = match convert_complex_to_real(monic.coef[1]) {
            Ok(v) => v,
            Err(e) => {
                return Err(e);
            },
        };
        let m2 = match convert_complex_to_real(monic.coef[2]) {
            Ok(v) => v,
            Err(e) => {
                return Err(e);
            },
        };
        crate::solve::cubic::solve_real_cubic(m2, m1, m0)
    }
}

impl Default for Polynomial {
    /// The zero polynomial.
    fn default() -> (p: Polynomial)
        ensures
            p.coef@.len() == 1,
            p.coef@[0] == cx_zero_v(),
            p.wf(),
    {
        Polynomial::new()
    }
}

} // verus!
