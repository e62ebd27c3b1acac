//! Exact integer square and cube roots, used to decide whether a
//! discriminant's radical is rational.

use vstd::prelude::*;

verus! {

/// The integer is a perfect square.
pub open spec fn is_square(k: int) -> bool {
    exists|s: int| 0 <= s && #[trigger] (s * s) == k
}

/// The nonnegative square root of a perfect square.
pub open spec fn sqrt_of(k: int) -> int {
    choose|s: int| 0 <= s && #[trigger] (s * s) == k
}

/// The integer is the cube of a nonnegative integer.
pub open spec fn is_cube(k: int) -> bool {
    exists|s: int| 0 <= s && #[trigger] (s * s * s) == k
}

/// The nonnegative cube root of a perfect cube.
pub open spec fn cbrt_of(k: int) -> int {
    choose|s: int| 0 <= s && #[trigger] (s * s * s) == k
}

/// The exact square root of `k`, when `k` is a perfect square.
pub(crate) fn int_sqrt(k: i128) -> (r: Option<i128>)
    requires
        0 <= k < 0x4000_0000_0000_0000_0000_0000_0000_0000,
    ensures
        r matches Some(s) ==> 0 <= s && s as int * s as int == k as int && s as int == sqrt_of(
            k as int,
        ),
        r is None ==> !is_square(k as int),
{
    let mut lo: i128 = 0;
    let mut hi: i128 = 0x8000_0000_0000_0000;
    proof {
        assert(hi as int * hi as int > k as int) by (nonlinear_arith)
            requires
                hi as int == 0x8000_0000_0000_0000,
                (k as int) < 0x4000_0000_0000_0000_0000_0000_0000_0000,
        ;
    }
    while lo + 1 < hi
        invariant
            0 <= lo < hi <= 0x8000_0000_0000_0000,
            lo as int * lo as int <= k as int,
            hi as int * hi as int > k as int,
            0 <= k < 0x4000_0000_0000_0000_0000_0000_0000_0000,
        decreases hi - lo,
    {
        let mid = lo + (hi - lo) / 2;
        proof {
            assert((mid as int * mid as int) < 0x8000_0000_0000_0000_0000_0000_0000_0000)
                by (nonlinear_arith)
                requires
                    0 <= mid as int <= 0x8000_0000_0000_0000,
            ;
        }
        let sq = mid * mid;
        if sq <= k {
            lo = mid;
        } else {
            hi = mid;
        }
    }
    proof {
        assert((lo as int * lo as int) < 0x8000_0000_0000_0000_0000_0000_0000_0000)
            by (nonlinear_arith)
            requires
                0 <= lo as int <= 0x8000_0000_0000_0000,
        ;
    }
    let sq = lo * lo;
    if sq == k {
        proof {
            assert(is_square(k as int));
            let t = sqrt_of(k as int);
            assert(0 <= t && t * t == k as int);
            assert(t == lo as int) by (nonlinear_arith)
                requires
                    0 <= t,
                    0 <= lo as int,
                    t * t == k as int,
                    lo as int * lo as int == k as int,
            ;
        }
        Some(lo)
    } else {
        proof {
            assert forall|t: int| !(0 <= t && #[trigger] (t * t) == k as int) by {
                if 0 <= t && t * t == k as int {
                    if t <= lo as int {
                        assert(t * t <= lo as int * lo as int) by (nonlinear_arith)
                            requires
                                0 <= t <= lo as int,
                        ;
                    } else {
                        assert(t * t >= hi as int * hi as int) by (nonlinear_arith)
                            requires
                                0 <= hi as int <= t,
                        ;
                    }
                }
            }
        }
        None
    }
}

/// The exact cube root of `k`, when `k` is a perfect cube.
pub(crate) fn int_cbrt(k: i128) -> (r: Option<i128>)
    requires
        0 <= k < 0x4000_0000_0000_0000_0000_0000_0000_0000,
    ensures
        r matches Some(s) ==> 0 <= s && s as int * s as int * s as int == k as int && s as int
            == cbrt_of(k as int),
        r is None ==> !is_cube(k as int),
{
    let mut lo: i128 = 0;
    let mut hi: i128 = 0x400_0000_0000;
    proof {
        assert(hi as int * hi as int * hi as int > k as int) by (nonlinear_arith)
            requires
                hi as int == 0x400_0000_0000,
                (k as int) < 0x4000_0000_0000_0000_0000_0000_0000_0000,
        ;
    }
    while lo + 1 < hi
        invariant
            0 <= lo < hi <= 0x400_0000_0000,
            lo as int * lo as int * lo as int <= k as int,
            hi as int * hi as int * hi as int > k as int,
            0 <= k < 0x4000_0000_0000_0000_0000_0000_0000_0000,
        decreases hi - lo,
    {
        let mid = lo + (hi - lo) / 2;
        proof {
            assert((mid as int * mid as int) < 0x8000_0000_0000_0000_0000_0000_0000_0000
                && (mid as int * mid as int * mid as int)
                < 0x8000_0000_0000_0000_0000_0000_0000_0000) by (nonlinear_arith)
                requires
                    0 <= mid as int <= 0x400_0000_0000,
            ;
        }
        let cb = mid * mid * mid;
        if cb <= k {
            lo = mid;
        } else {
            hi = mid;
        }
    }
    proof {
        assert((lo as int * lo as int) < 0x8000_0000_0000_0000_0000_0000_0000_0000
            && (lo as int * lo as int * lo as int) < 0x8000_0000_0000_0000_0000_0000_0000_0000)
            by (nonlinear_arith)
            requires
                0 <= lo as int <= 0x400_0000_0000,
        ;
    }
    let cb = lo * lo * lo;
    if cb == k {
        proof {
            assert(is_cube(k as int));
            let t = cbrt_of(k as int);
            assert(0 <= t && t * t * t == k as int);
            assert(t == lo as int) by (nonlinear_arith)
                requires
                    0 <= t,
                    0 <= lo as int,
                    t * t * t == k as int,
                    lo as int * lo as int * lo as int == k as int,
            ;
        }
        Some(lo)
    } else {
        proof {
            assert forall|t: int| !(0 <= t && #[trigger] (t * t * t) == k as int) by {
                if 0 <= t && t * t * t == k as int {
                    if t <= lo as int {
                        assert(t * t * t <= lo as int * lo as int * lo as int)
                            by (nonlinear_arith)
                            requires
                                0 <= t <= lo as int,
                        ;
                    } else {
                        assert(t * t * t >= hi as int * hi as int * hi as int)
                            by (nonlinear_arith)
                            requires
                                0 <= hi as int <= t,
                        ;
                    }
                }
            }
        }
        None
    }
}

} // verus!
