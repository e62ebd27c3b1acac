use rsl_polynomials::{CubicRoots, Polynomial, Real, Scalar};

fn sc(n: i64, d: i64) -> Scalar {
    Scalar::from_ratio(n, d)
}

fn sorted_roots(k: CubicRoots) -> Vec<Real> {
    k.roots_sorted().expect("expected rational roots")
}

#[test]
fn test_gsl_cubic1() {
    let p = Polynomial::build(&[sc(-27, 1), sc(0, 1), sc(0, 1), sc(1, 1)]).unwrap();
    let y = sorted_roots(p.solve_real_cubic().unwrap());

    assert_eq!(y.len(), 3);
    assert!(y[0].eq_value(Real::from_ratio(3, 1)));
}

#[test]
fn test_gsl_cubic2() {
    let p = Polynomial::build(&[sc(-4913, 1), sc(867, 1), sc(-51, 1), sc(1, 1)]).unwrap();
    let y = sorted_roots(p.solve_real_cubic().unwrap());

    assert_eq!(y.len(), 3);
    assert!(y[0].eq_value(Real::from_ratio(17, 1)));
    assert!(y[1].eq_value(Real::from_ratio(17, 1)));
    assert!(y[2].eq_value(Real::from_ratio(17, 1)));
}

#[test]
fn test_gsl_cubic3() {
    let p = Polynomial::build(&[sc(-6647, 1), sc(1071, 1), sc(-57, 1), sc(1, 1)]).unwrap();
    let y = sorted_roots(p.solve_real_cubic().unwrap());

    assert_eq!(y.len(), 3);
    assert!(y[0].eq_value(Real::from_ratio(17, 1)));
    assert!(y[1].eq_value(Real::from_ratio(17, 1)));
    assert!(y[2].eq_value(Real::from_ratio(23, 1)));
}

#[test]
fn test_gsl_cubic4() {
    let p = Polynomial::build(&[sc(6647, 1), sc(-493, 1), sc(-11, 1), sc(1, 1)]).unwrap();
    let y = sorted_roots(p.solve_real_cubic().unwrap());

    assert_eq!(y.len(), 3);
    assert!(y[0].eq_value(Real::from_ratio(-23, 1)));
    assert!(y[1].eq_value(Real::from_ratio(17, 1)));
    assert!(y[2].eq_value(Real::from_ratio(17, 1)));
}

#[test]
fn test_gsl_cubic5() {
    // x^3 - 143x^2 + 5087x - 50065 has the three distinct roots
    // 17, 31 and 95: they are irrational over the trigonometric branch's
    // radicals, so the solver reports the branch's exact invariants.
    let p = Polynomial::build(&[sc(-50065, 1), sc(5087, 1), sc(-143, 1), sc(1, 1)]).unwrap();

    match p.solve_real_cubic().unwrap() {
        CubicRoots::ThreeDistinct { base, q_cap, r_cap } => {
            assert!(base.eq_value(Real::from_ratio(143, 3)));
            assert!(q_cap.eq_value(Real::from_ratio(5188, 9)));
            assert!(r_cap.eq_value(Real::from_ratio(-326600, 27)));
        },
        _ => panic!("expected three distinct real roots"),
    }
}

#[test]
fn test_gsl_cubic6() {
    // x^3 - 109x^2 + 803x + 50065 has the three distinct roots
    // -17, 31 and 95.
    let p = Polynomial::build(&[sc(50065, 1), sc(803, 1), sc(-109, 1), sc(1, 1)]).unwrap();

    match p.solve_real_cubic().unwrap() {
        CubicRoots::ThreeDistinct { base, q_cap, r_cap } => {
            assert!(base.eq_value(Real::from_ratio(109, 3)));
            assert!(q_cap.eq_value(Real::from_ratio(9472, 9)));
            assert!(r_cap.eq_value(Real::from_ratio(-225280, 27)));
        },
        _ => panic!("expected three distinct real roots"),
    }
}

#[test]
fn test_cubic_wrong_order() {
    let p = Polynomial::build(&[sc(1, 1), sc(2, 1), sc(3, 1)]).unwrap();

    assert!(matches!(
        p.solve_real_cubic().unwrap_err(),
        rsl_polynomials::PolyError::IncorrectOrder(3)
    ));
}

#[test]
fn test_cubic_complex_coefs() {
    let p = Polynomial::build(
        &[
            Scalar::new(Real::from_ratio(1, 1), Real::from_ratio(1, 1)),
            sc(2, 1),
            sc(3, 1),
            sc(4, 1),
        ],
    ).unwrap();

    assert!(matches!(
        p.solve_real_cubic().unwrap_err(),
        rsl_polynomials::PolyError::NotRealCoefficients
    ));
}

#[test]
fn test_cubic_non_monic_is_normalized() {
    // 2x^3 - 102x^2 + 1734x - 9826 = 2 (x - 17)^3
    let p = Polynomial::build(&[sc(-9826, 1), sc(1734, 1), sc(-102, 1), sc(2, 1)]).unwrap();
    let y = sorted_roots(p.solve_real_cubic().unwrap());

    assert_eq!(y.len(), 3);
    assert!(y[0].eq_value(Real::from_ratio(17, 1)));
    assert!(y[2].eq_value(Real::from_ratio(17, 1)));
}

#[test]
fn test_cubic_round_trip_repeated_roots() {
    // Expanding (x - 2)^2 (x - 5) = x^3 - 9x^2 + 24x - 20 and solving
    // recovers the double root 2 and the simple root 5, in ascending
    // order.
    let p = Polynomial::build(&[sc(-20, 1), sc(24, 1), sc(-9, 1), sc(1, 1)]).unwrap();
    let y = sorted_roots(p.solve_real_cubic().unwrap());

    assert_eq!(y.len(), 3);
    assert!(y[0].eq_value(Real::from_ratio(2, 1)));
    assert!(y[1].eq_value(Real::from_ratio(2, 1)));
    assert!(y[2].eq_value(Real::from_ratio(5, 1)));
}

#[test]
fn test_cubic_round_trip_triple_root() {
    // Expanding (x + 4)^3 = x^3 + 12x^2 + 48x + 64 and solving recovers
    // the triple root -4.
    let p = Polynomial::build(&[sc(64, 1), sc(48, 1), sc(12, 1), sc(1, 1)]).unwrap();
    let y = sorted_roots(p.solve_real_cubic().unwrap());

    assert_eq!(y.len(), 3);
    assert!(y[0].eq_value(Real::from_ratio(-4, 1)));
    assert!(y[1].eq_value(Real::from_ratio(-4, 1)));
    assert!(y[2].eq_value(Real::from_ratio(-4, 1)));
}
