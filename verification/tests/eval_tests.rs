use rsl_polynomials::{PolyError, Polynomial, Real, Scalar};

fn sc(n: i64, d: i64) -> Scalar {
    Scalar::from_ratio(n, d)
}

fn cx(rn: i64, rd: i64, inum: i64, iden: i64) -> Scalar {
    Scalar::new(Real::from_ratio(rn, rd), Real::from_ratio(inum, iden))
}

#[test]
fn gsl_test_eval_test_gsl_eval1() {
    let p = Polynomial::build(&[sc(1, 1), sc(1, 2), sc(3, 10)]).unwrap();
    let x = sc(1, 2);

    assert!(p.eval(x).eq_value(sc(53, 40)));
}

#[test]
fn gsl_test_eval_test_gsl_eval2() {
    let p = Polynomial::build(
        &[
            sc(1, 1),
            sc(-1, 1),
            sc(1, 1),
            sc(-1, 1),
            sc(1, 1),
            sc(-1, 1),
            sc(1, 1),
            sc(-1, 1),
            sc(1, 1),
            sc(-1, 1),
            sc(1, 1),
        ],
    )
        .unwrap();
    let x = sc(1, 1);

    assert!(p.eval(x).eq_value(sc(1, 1)));
}

#[test]
fn gsl_test_eval_test_gsl_eval_deriv1() {
    let p = Polynomial::build(
        &[sc(1, 1), sc(-2, 1), sc(3, 1), sc(-4, 1), sc(5, 1), sc(-6, 1)],
    ).unwrap();
    let x = sc(-1, 2);

    let derivs = p.eval_derivs(x, 6);

    assert!(derivs[0].eq_value(sc(15, 4)));
    assert!(derivs[1].eq_value(sc(-99, 8)));
    assert!(derivs[2].eq_value(sc(48, 1)));
    assert!(derivs[3].eq_value(sc(-174, 1)));
    assert!(derivs[4].eq_value(sc(480, 1)));
    assert!(derivs[5].eq_value(sc(-720, 1)));
}

#[test]
fn test_build_invalid_coefficients() {
    let poly1 = Polynomial::build(&vec![sc(1, 1), sc(2, 1), Scalar::nan()]);
    let poly2 = Polynomial::build(&vec![sc(1, 1), sc(2, 1), Scalar::infinity()]);

    assert!(matches!(poly1.unwrap_err(), PolyError::InvalidCoefficients));
    assert!(matches!(poly2.unwrap_err(), PolyError::InvalidCoefficients));
}

#[test]
fn gsl_test_eval_test_gsl_complex_eval1() {
    let coef = cx(3, 10, 0, 1);
    let p = Polynomial::build(&[coef]).unwrap();
    let x = cx(3, 4, 6, 5);
    let y = p.eval(x);

    assert!(y.re().eq_value(Real::from_ratio(3, 10)));
    assert!(y.im().eq_value(Real::from_ratio(0, 1)));
}

#[test]
fn gsl_test_eval_test_gsl_complex_eval2() {
    let coefs = &[cx(21, 10, 0, 1), cx(-134, 100, 0, 1), cx(76, 100, 0, 1), cx(45, 100, 0, 1)];
    let p = Polynomial::build(coefs).unwrap();
    let x = cx(49, 100, 95, 100);
    let y = p.eval(x);

    assert!(y.re().eq_value(Real::from_ratio(3959143, 10000000)));
    assert!(y.im().eq_value(Real::from_ratio(-6433305, 10000000)));
}

#[test]
fn gsl_test_eval_test_gsl_complex_eval3() {
    let coef = &[cx(674, 1000, -1423, 1000)];
    let p = Polynomial::build(coef).unwrap();
    let x = cx(-144, 100, 955, 100);
    let y = p.eval(x);

    assert!(y.re().eq_value(Real::from_ratio(674, 1000)));
    assert!(y.im().eq_value(Real::from_ratio(-1423, 1000)));
}

#[test]
fn gsl_test_eval_test_gsl_complex_eval4() {
    let coefs = &[
        cx(-231, 100, 44, 100),
        cx(421, 100, -319, 100),
        cx(93, 100, 104, 100),
        cx(-42, 100, 68, 100),
    ];
    let p = Polynomial::build(coefs).unwrap();
    let x = cx(49, 100, 95, 100);
    let y = p.eval(x);

    assert!(y.re().eq_value(Real::from_ratio(45615503, 25000000)));
    assert!(y.im().eq_value(Real::from_ratio(57597353, 25000000)));
}

#[test]
fn test_eval_test_gsl_eval1() {
    let p = Polynomial::build(&vec![sc(1, 1), sc(1, 2), sc(3, 10)]).unwrap();
    let x = sc(1, 2);

    assert!(p.eval(x).eq_value(sc(53, 40)));
}

#[test]
fn test_eval_test_gsl_eval2() {
    let p = Polynomial::build(
        &vec![
            sc(1, 1),
            sc(-1, 1),
            sc(1, 1),
            sc(-1, 1),
            sc(1, 1),
            sc(-1, 1),
            sc(1, 1),
            sc(-1, 1),
            sc(1, 1),
            sc(-1, 1),
            sc(1, 1),
        ],
    )
        .unwrap();
    let x = sc(1, 1);

    assert!(p.eval(x).eq_value(sc(1, 1)));
}

#[test]
fn test_eval_test_gsl_eval_deriv1() {
    let p = Polynomial::build(
        &vec![sc(1, 1), sc(-2, 1), sc(3, 1), sc(-4, 1), sc(5, 1), sc(-6, 1)],
    ).unwrap();
    let x = sc(-1, 2);

    let derivs = p.eval_derivs(x, 6);

    assert!(derivs[0].eq_value(sc(15, 4)));
    assert!(derivs[1].eq_value(sc(-99, 8)));
    assert!(derivs[2].eq_value(sc(48, 1)));
    assert!(derivs[3].eq_value(sc(-174, 1)));
    assert!(derivs[4].eq_value(sc(480, 1)));
    assert!(derivs[5].eq_value(sc(-720, 1)));
}

#[test]
fn test_eval_test_gsl_complex_eval1() {
    let coef = cx(3, 10, 0, 1);
    let p = Polynomial::build(&vec![coef]).unwrap();
    let x = cx(3, 4, 6, 5);
    let y = p.eval(x);

    assert!(y.re().eq_value(Real::from_ratio(3, 10)));
    assert!(y.im().eq_value(Real::from_ratio(0, 1)));
}

#[test]
fn test_eval_test_gsl_complex_eval2() {
    let coefs = &vec![
        cx(21, 10, 0, 1),
        cx(-134, 100, 0, 1),
        cx(76, 100, 0, 1),
        cx(45, 100, 0, 1),
    ];
    let p = Polynomial::build(coefs).unwrap();
    let x = cx(49, 100, 95, 100);
    let y = p.eval(x);

    assert!(y.re().eq_value(Real::from_ratio(3959143, 10000000)));
    assert!(y.im().eq_value(Real::from_ratio(-6433305, 10000000)));
}

#[test]
fn test_eval_test_gsl_complex_eval3() {
    let coef = &vec![cx(674, 1000, -1423, 1000)];
    let p = Polynomial::build(coef).unwrap();
    let x = cx(-144, 100, 955, 100);
    let y = p.eval(x);

    assert!(y.re().eq_value(Real::from_ratio(674, 1000)));
    assert!(y.im().eq_value(Real::from_ratio(-1423, 1000)));
}

#[test]
fn test_eval_test_gsl_complex_eval4() {
    let coefs = &vec![
        cx(-231, 100, 44, 100),
        cx(421, 100, -319, 100),
        cx(93, 100, 104, 100),
        cx(-42, 100, 68, 100),
    ];
    let p = Polynomial::build(coefs).unwrap();
    let x = cx(49, 100, 95, 100);
    let y = p.eval(x);

    assert!(y.re().eq_value(Real::from_ratio(45615503, 25000000)));
    assert!(y.im().eq_value(Real::from_ratio(57597353, 25000000)));
}

#[test]
fn test_eval_matches_direct_summation() {
    // 2 - x + 5x^2 + 7x^3 at x = 3/7, summed term by term:
    // 2 - 3/7 + 5 * 9/49 + 7 * 27/343 = 1043/343 = 149/49
    let p = Polynomial::build(&[sc(2, 1), sc(-1, 1), sc(5, 1), sc(7, 1)]).unwrap();

    assert!(p.eval(sc(3, 7)).eq_value(sc(149, 49)));
}

#[test]
fn test_eval_empty_is_zero() {
    let p = Polynomial { coef: Vec::new() };

    assert!(p.eval(sc(4, 1)).eq_value(Scalar::zero()));
}

#[test]
fn test_eval_derivs_zeroth_matches_eval() {
    let p = Polynomial::build(&[sc(1, 3), sc(2, 5), sc(-7, 2)]).unwrap();
    let x = sc(9, 4);
    let derivs = p.eval_derivs(x, 5);

    assert!(derivs[0].eq_value(p.eval(x)));
}

#[test]
fn test_eval_derivs_beyond_degree_is_zero() {
    let p = Polynomial::build(&[sc(1, 1), sc(2, 1), sc(3, 1)]).unwrap();
    let derivs = p.eval_derivs(sc(11, 7), 6);

    assert_eq!(derivs.len(), 6);
    for d in derivs.iter().skip(3) {
        assert!(d.eq_value(Scalar::zero()));
    }
}

#[test]
fn test_eval_derivs_zero_count_is_empty() {
    let p = Polynomial::build(&[sc(1, 1), sc(2, 1)]).unwrap();

    assert!(p.eval_derivs(sc(1, 1), 0).is_empty());
}
