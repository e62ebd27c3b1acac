use rsl_polynomials::{
    check_if_correct_order, check_if_real_coefficients, convert_complex_to_real, PolyError,
    Polynomial, Real, Scalar,
};

fn sc(n: i64, d: i64) -> Scalar {
    Scalar::from_ratio(n, d)
}

fn cx(rn: i64, rd: i64, inum: i64, iden: i64) -> Scalar {
    Scalar::new(Real::from_ratio(rn, rd), Real::from_ratio(inum, iden))
}

#[test]
fn test_correct_order() {
    let poly1 = Polynomial::build(&[sc(1, 1)]).unwrap();
    let poly2 = Polynomial::build(&[sc(1, 1), sc(2, 1)]).unwrap();
    let poly3 = Polynomial::build(&[sc(1, 1), sc(2, 1), sc(3, 1)]).unwrap();

    assert!(check_if_correct_order(&poly1.coef, 0).is_ok());
    assert!(check_if_correct_order(&poly2.coef, 1).is_ok());
    assert!(check_if_correct_order(&poly3.coef, 2).is_ok());
    assert!(check_if_correct_order(&poly3.coef, 3).is_err());
}

#[test]
fn test_real_coefficients() {
    let poly1 = Polynomial::build(&[sc(1, 1)]).unwrap();
    let poly2 = Polynomial::build(&[sc(1, 1), sc(2, 1)]).unwrap();
    let poly3 = Polynomial::build(&[cx(1, 1, 1, 1)]).unwrap();
    let poly4 = Polynomial::build(&[cx(1, 1, 1, 1), cx(2, 1, 2, 1)]).unwrap();

    assert!(check_if_real_coefficients(&poly1.coef).is_ok());
    assert!(check_if_real_coefficients(&poly2.coef).is_ok());
    assert!(check_if_real_coefficients(&poly3.coef).is_err());
    assert!(check_if_real_coefficients(&poly4.coef).is_err());
}

#[test]
fn test_complex_to_f64_conversion() {
    let c1 = cx(1, 1, 0, 1);
    let c2 = cx(1, 1, 1, 1);

    assert!(convert_complex_to_real(c1).unwrap().eq_value(Real::from_ratio(1, 1)));
    assert!(matches!(
        convert_complex_to_real(c2).unwrap_err(),
        PolyError::ComplexToRealConversion(_)
    ))
}

#[test]
fn test_incorrect_order_payload() {
    let poly = Polynomial::build(&[sc(1, 1), sc(2, 1)]).unwrap();

    assert!(matches!(
        check_if_correct_order(&poly.coef, 3).unwrap_err(),
        PolyError::IncorrectOrder(3)
    ));
}
