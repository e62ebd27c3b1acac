use rsl_polynomials::{PolyError, Polynomial, QuadRoots, Real, Scalar};

fn sc(n: i64, d: i64) -> Scalar {
    Scalar::from_ratio(n, d)
}

fn cx(rn: i64, rd: i64, inum: i64, iden: i64) -> Scalar {
    Scalar::new(Real::from_ratio(rn, rd), Real::from_ratio(inum, iden))
}

fn roots_of(q: QuadRoots) -> Vec<Real> {
    q.roots().expect("expected rational roots")
}

#[test]
fn test_gsl_quadratic1() {
    let p = Polynomial::build(&vec![sc(26, 1), sc(-20, 1), sc(4, 1)]).unwrap();

    assert!(matches!(p.solve_real_quadratic().unwrap_err(), PolyError::NoRealRoots));
}

#[test]
fn test_gsl_quadratic2() {
    let p = Polynomial::build(&vec![sc(25, 1), sc(-20, 1), sc(4, 1)]).unwrap();
    let y = roots_of(p.solve_real_quadratic().unwrap());

    assert_eq!(y.len(), 1);
    assert!(y[0].eq_value(Real::from_ratio(5, 2)));
}

#[test]
fn test_gsl_quadratic3() {
    let p = Polynomial::build(&vec![sc(21, 1), sc(-20, 1), sc(4, 1)]).unwrap();
    let y = roots_of(p.solve_real_quadratic().unwrap());

    assert_eq!(y.len(), 2);
    assert!(y[0].eq_value(Real::from_ratio(7, 2)));
    assert!(y[1].eq_value(Real::from_ratio(3, 2)));
}

#[test]
fn test_gsl_quadratic4() {
    let p = Polynomial::build(&vec![sc(0, 1), sc(7, 1), sc(4, 1)]).unwrap();
    let y = roots_of(p.solve_real_quadratic().unwrap());

    assert_eq!(y.len(), 2);
    assert!(y[0].eq_value(Real::from_ratio(0, 1)));
    assert!(y[1].eq_value(Real::from_ratio(-7, 4)));
}

#[test]
fn test_gsl_quadratic5() {
    let p = Polynomial::build(&vec![sc(-20, 1), sc(0, 1), sc(5, 1)]).unwrap();
    let y = roots_of(p.solve_real_quadratic().unwrap());

    assert_eq!(y.len(), 2);
    assert!(y[0].eq_value(Real::from_ratio(2, 1)));
    assert!(y[1].eq_value(Real::from_ratio(-2, 1)));
}

#[test]
fn test_gsl_quadratic6() {
    let p = Polynomial::build(&vec![sc(-21, 1), sc(3, 1), sc(0, 1)]).unwrap();
    let y = roots_of(p.solve_real_quadratic().unwrap());

    assert_eq!(y.len(), 1);
    assert!(y[0].eq_value(Real::from_ratio(7, 1)));
}

#[test]
fn test_gsl_quadratic7() {
    let p = Polynomial::build(&vec![sc(1, 1), sc(0, 1), sc(0, 1)]).unwrap();

    assert!(matches!(p.solve_real_quadratic().unwrap_err(), PolyError::ConstantPoly));
}

#[test]
fn test_solve_real_quadratic_wrong_order() {
    let p = Polynomial::build(&vec![sc(1, 1), sc(2, 1), sc(3, 1), sc(4, 1)]).unwrap();

    assert!(matches!(p.solve_real_quadratic().unwrap_err(), PolyError::IncorrectOrder(2)));
}

#[test]
fn test_solve_real_quadratic_complex_coefs() {
    let p = Polynomial::build(&vec![cx(1, 1, 2, 1), cx(3, 1, 4, 1), cx(5, 1, 6, 1)]).unwrap();

    assert!(matches!(p.solve_real_quadratic().unwrap_err(), PolyError::NotRealCoefficients));
}

#[test]
fn test_quadratic_irrational_roots_classified() {
    // x^2 - 2: the roots are -sqrt(2) and sqrt(2), so the solver reports
    // the exact branch invariants instead of values.
    let p = Polynomial::build(&vec![sc(-2, 1), sc(0, 1), sc(1, 1)]).unwrap();

    match p.solve_real_quadratic().unwrap() {
        QuadRoots::TwoRootsIrrational { center, offset_sq } => {
            assert!(center.eq_value(Real::from_ratio(0, 1)));
            assert!(offset_sq.eq_value(Real::from_ratio(2, 1)));
        },
        _ => panic!("expected the irrational classification"),
    }
}

#[test]
fn test_quadratic_overflowing_discriminant() {
    // The exact discriminant of these coefficients does not fit the
    // machine integers, so it cannot be classified.
    let p = Polynomial::build(
        &vec![sc(1, 1), Scalar::new(Real::from_ratio(i64::MAX, 3), Real::from_ratio(0, 1)), sc(
            1,
            1,
        )],
    ).unwrap();

    assert!(matches!(p.solve_real_quadratic().unwrap_err(), PolyError::NanDiscriminant));
}

#[test]
fn test_quadratic_inconvertible_coefficient() {
    // A nonfinite coefficient passes the realness check but has no real
    // value to hand to the solver.
    let p = Polynomial { coef: vec![Scalar::infinity(), sc(1, 1), sc(1, 1)] };

    assert!(matches!(
        p.solve_real_quadratic().unwrap_err(),
        PolyError::ComplexToRealConversion(_)
    ));
}
