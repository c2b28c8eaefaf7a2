use hyperbook::decimal::Decimal;

#[test]
fn parse_keeps_lowest_terms() {
    let a = Decimal::parse("1.50").unwrap();
    assert_eq!((a.mantissa, a.scale), (15, 1));
    let b = Decimal::parse("100.000").unwrap();
    assert_eq!((b.mantissa, b.scale), (100, 0));
    assert_eq!(Decimal::parse("-0.0").unwrap(), Decimal::zero());
    assert_eq!(Decimal::parse("0.25").unwrap(), Decimal::parse("0.250").unwrap());
}

#[test]
fn parse_rejects_bad_text() {
    assert!(Decimal::parse("abc").is_none());
    assert!(Decimal::parse("").is_none());
    assert!(Decimal::parse("1.2.3").is_none());
    assert!(Decimal::parse("0.00000000000000000000000000001").is_none());
}

#[test]
fn parse_negative() {
    let a = Decimal::parse("-2.5").unwrap();
    assert_eq!((a.mantissa, a.scale), (-25, 1));
    assert!(a.is_negative());
    assert!(!Decimal::parse("2.5").unwrap().is_negative());
}

#[test]
fn from_parts_normalizes() {
    let a = Decimal::from_parts(1500, 3).unwrap();
    assert_eq!((a.mantissa, a.scale), (15, 1));
    assert_eq!(Decimal::from_parts(0, 5).unwrap(), Decimal::zero());
    assert!(Decimal::from_parts(1, 29).is_none());
    assert!(Decimal::from_parts(i128::MAX, 0).is_none());
    assert!(Decimal::from_parts(79228162514264337593543950335, 0).is_some());
}

#[test]
fn order_compares_values_across_scales() {
    let a = Decimal::parse("9.99").unwrap();
    let b = Decimal::parse("10").unwrap();
    assert!(a.lt(&b));
    assert!(!b.lt(&a));
    assert!(!b.lt(&Decimal::parse("10.0").unwrap()));
    assert!(Decimal::parse("-1").unwrap().lt(&Decimal::zero()));
}

#[test]
fn zero_test() {
    assert!(Decimal::parse("0.000").unwrap().is_zero());
    assert!(!Decimal::parse("0.001").unwrap().is_zero());
}
