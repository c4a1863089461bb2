use transaction_oxidizer::fixed_point::{BigFixedPointParseError, DecimalFixedPoint};

#[test]
fn from_to_string() {
    let num = DecimalFixedPoint::from_str("792281625142643375935.0335").unwrap();
    assert_eq!("792281625142643375935.0335", num.format());
}

#[test]
fn negative_from_string() {
    let num = DecimalFixedPoint::from_str("-792281625142643375935.0335").unwrap();
    assert_eq!(
        "-792281625142643375935.0335",
        num.format(),
        "testing negative {:?}",
        num
    );
}

#[test]
fn small_from_string() {
    let num = DecimalFixedPoint::from_str("-0.23").unwrap();
    assert_eq!("-0.2300", num.format(), "testing small negative {:?}", num);
}

#[test]
fn decimal_parsing() {
    let num = DecimalFixedPoint::from_str("11111111111111111111111111111111111.0001").unwrap();
    assert_eq!("11111111111111111111111111111111111.0001", num.format());
}

#[test]
fn zero_formats_with_full_scale() {
    let zero = DecimalFixedPoint::zero();
    assert!(zero.is_zero());
    assert_eq!("0.0000", zero.format());
}

#[test]
fn fraction_only_and_empty_integer_part() {
    let num = DecimalFixedPoint::from_str(".5").unwrap();
    assert_eq!("0.5000", num.format());
    assert_eq!(num, DecimalFixedPoint(5000));
}

#[test]
fn plus_sign_is_accepted() {
    let num = DecimalFixedPoint::from_str("+12.25").unwrap();
    assert_eq!("12.2500", num.format());
}

#[test]
fn integer_without_fraction() {
    let num = DecimalFixedPoint::from_str("42").unwrap();
    assert_eq!("42.0000", num.format());
    assert_eq!(num, DecimalFixedPoint(420000));
}

#[test]
fn two_separators_rejected() {
    let err = DecimalFixedPoint::from_str("1.2.3").unwrap_err();
    assert!(matches!(err, BigFixedPointParseError::InvalidFormat));
}

#[test]
fn precision_exceeded_rejected() {
    let err = DecimalFixedPoint::from_str("1.23456").unwrap_err();
    assert!(matches!(
        err,
        BigFixedPointParseError::PrecisionExceeded {
            precision: 4,
            requested_precision: 5
        }
    ));
}

#[test]
fn non_digit_rejected() {
    let err = DecimalFixedPoint::from_str("12a.5").unwrap_err();
    assert!(matches!(err, BigFixedPointParseError::InvalidNumberFormat));
}

#[test]
fn width_overflow_rejected() {
    // One more than i128::MAX once scaled by 10^4.
    let err = DecimalFixedPoint::from_str("17014118346046923173168730371588410.5728").unwrap_err();
    assert!(matches!(err, BigFixedPointParseError::InvalidNumberFormat));
}

#[test]
fn width_boundary_accepted() {
    let max = DecimalFixedPoint::from_str("17014118346046923173168730371588410.5727").unwrap();
    assert_eq!(max, DecimalFixedPoint(i128::MAX));
    assert_eq!("17014118346046923173168730371588410.5727", max.format());
    let min = DecimalFixedPoint::from_str("-17014118346046923173168730371588410.5728").unwrap();
    assert_eq!(min, DecimalFixedPoint(i128::MIN));
    assert_eq!("-17014118346046923173168730371588410.5728", min.format());
}

#[test]
fn checked_arithmetic_reports_overflow() {
    let max = DecimalFixedPoint(i128::MAX);
    let one = DecimalFixedPoint::from_str("0.0001").unwrap();
    assert_eq!(None, max.checked_add(one));
    assert_eq!(Some(DecimalFixedPoint(i128::MAX - 1)), max.checked_sub(one));
    let min = DecimalFixedPoint(i128::MIN);
    assert_eq!(None, min.checked_sub(one));
    assert!(one.le(&max));
    assert!(!max.le(&one));
}
