use rsl_polynomials::{PolyError, Polynomial, Scalar};

fn sc(n: i64, d: i64) -> Scalar {
    Scalar::from_ratio(n, d)
}

fn coef_values_equal(p: &Polynomial, expected: &[Scalar]) -> bool {
    p.coef.len() == expected.len() && p.coef.iter().zip(expected.iter()).all(
        |(a, b)| a.eq_value(*b),
    )
}

#[test]
fn test_build_polynomial() {
    assert!(Polynomial::build(&Vec::<Scalar>::new()).is_ok());
    assert!(Polynomial::build(&vec![sc(1, 1)]).is_ok());
    assert!(Polynomial::build(&vec![sc(1, 1), sc(2, 1), sc(3, 1)]).is_ok());
}

#[test]
fn test_new_polynomial() {
    let poly = Polynomial::new();

    assert_eq!(poly.coef.len(), 1);
    assert!(poly.coef[0].eq_value(Scalar::zero()));
}

#[test]
fn test_default_polynomial() {
    let default_poly = Polynomial::default();

    assert_eq!(default_poly.coef.len(), 1);
    assert!(default_poly.coef[0].eq_value(Scalar::zero()));
}

#[test]
fn test_build_polynomial_invalid() {
    let poly1 = Polynomial::build(&vec![sc(1, 1), sc(2, 1), Scalar::nan()]);
    let poly2 = Polynomial::build(&vec![sc(1, 1), sc(2, 1), Scalar::infinity()]);

    assert!(matches!(poly1.unwrap_err(), PolyError::InvalidCoefficients));
    assert!(matches!(poly2.unwrap_err(), PolyError::InvalidCoefficients));
}

#[test]
fn test_trim_trailing_zeros() {
    let poly0 = Polynomial::build(&vec![sc(0, 1)]).unwrap().to_trimmed();
    let poly1 = Polynomial::build(&vec![sc(0, 1), sc(1, 1), sc(2, 1)]).unwrap().to_trimmed();
    let poly2 = Polynomial::build(&vec![sc(0, 1), sc(1, 1), sc(2, 1), sc(0, 1), sc(0, 1)])
        .unwrap()
        .to_trimmed();
    let poly3 = Polynomial::build(&vec![sc(1, 1), sc(2, 1)]).unwrap().to_trimmed();
    let poly4 = Polynomial::build(&vec![sc(1, 1), sc(2, 1), sc(0, 1), sc(0, 1)])
        .unwrap()
        .to_trimmed();
    let poly5 = Polynomial::build(&vec![sc(1, 1), sc(0, 1), sc(2, 1)]).unwrap().to_trimmed();

    assert!(coef_values_equal(&poly0, &[sc(0, 1)]));
    assert!(coef_values_equal(&poly1, &[sc(0, 1), sc(1, 1), sc(2, 1)]));
    assert!(coef_values_equal(&poly2, &[sc(0, 1), sc(1, 1), sc(2, 1)]));
    assert!(coef_values_equal(&poly3, &[sc(1, 1), sc(2, 1)]));
    assert!(coef_values_equal(&poly4, &[sc(1, 1), sc(2, 1)]));
    assert!(coef_values_equal(&poly5, &[sc(1, 1), sc(0, 1), sc(2, 1)]));
}

#[test]
fn test_debug() {
    let poly = Polynomial::build(&vec![sc(0, 1)]).unwrap();
    let _ = format!("{:?}", poly);
    let _ = format!("{:#?}", poly);
}

#[test]
fn test_monic() {
    let poly0 = Polynomial::build(&vec![sc(0, 1)]).unwrap().to_monic();
    let poly1 = Polynomial::build(&vec![sc(0, 1), sc(8, 1), sc(4, 1)]).unwrap().to_monic();
    let poly2 = Polynomial::build(&vec![sc(6, 1), sc(0, 1), sc(3, 1)]).unwrap().to_monic();
    let poly3 = Polynomial::build(&vec![sc(0, 1), sc(2, 1), sc(2, 1), sc(0, 1), sc(0, 1)])
        .unwrap()
        .to_monic();

    assert!(coef_values_equal(&poly0, &[sc(0, 1)]));
    assert!(coef_values_equal(&poly1, &[sc(0, 1), sc(2, 1), sc(1, 1)]));
    assert!(coef_values_equal(&poly2, &[sc(2, 1), sc(0, 1), sc(1, 1)]));
    assert!(coef_values_equal(&poly3, &[sc(0, 1), sc(1, 1), sc(1, 1)]));
}

#[test]
fn test_monic_fractional_leading() {
    let poly = Polynomial::build(&vec![sc(30, 1), sc(6, 1), sc(3, 1)]).unwrap().to_monic();

    assert!(coef_values_equal(&poly, &[sc(10, 1), sc(2, 1), sc(1, 1)]));
}
