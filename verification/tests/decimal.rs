use order_book::decimal::Decimal;

const ATTO: u128 = 1_000_000_000_000_000_000;

fn dec(neg: bool, atto: u128) -> Decimal {
    Decimal { neg, atto }
}

#[test]
fn parses_plain_decimals() {
    assert_eq!(Decimal::parse("0"), Some(dec(false, 0)));
    assert_eq!(Decimal::parse("7"), Some(dec(false, 7 * ATTO)));
    assert_eq!(Decimal::parse("10101.10"), Some(dec(false, 10_101_100_000_000_000_000_000)));
    assert_eq!(Decimal::parse("0.45054140"), Some(dec(false, 450_541_400_000_000_000)));
    assert_eq!(Decimal::parse("22356.270000"), Some(dec(false, 22_356_270_000_000_000_000_000)));
}

#[test]
fn equal_values_parse_equal() {
    assert_eq!(Decimal::parse("22356.270000"), Decimal::parse("22356.27"));
    assert_eq!(Decimal::parse("007"), Decimal::parse("7.000"));
}

#[test]
fn parses_signs_and_edge_shapes() {
    assert_eq!(Decimal::parse("-2.5"), Some(dec(true, 2_500_000_000_000_000_000)));
    assert_eq!(Decimal::parse("1."), Some(dec(false, ATTO)));
    assert_eq!(Decimal::parse(".5"), Some(dec(false, ATTO / 2)));
    // Parsed zero is canonical: the sign is dropped.
    assert_eq!(Decimal::parse("-0.00000000"), Some(dec(false, 0)));
}

#[test]
fn rejects_non_numbers() {
    assert_eq!(Decimal::parse(""), None);
    assert_eq!(Decimal::parse("-"), None);
    assert_eq!(Decimal::parse("."), None);
    assert_eq!(Decimal::parse("-."), None);
    assert_eq!(Decimal::parse("abc"), None);
    assert_eq!(Decimal::parse("1x2"), None);
    assert_eq!(Decimal::parse("1.2.3"), None);
    assert_eq!(Decimal::parse("1.2x"), None);
    assert_eq!(Decimal::parse("+1"), None);
    assert_eq!(Decimal::parse("1e3"), None);
    assert_eq!(Decimal::parse(" 1"), None);
}

#[test]
fn rejects_out_of_range_numbers() {
    // One digit past the largest allowed whole part.
    assert_eq!(Decimal::parse("10000000000000000000"), None);
    assert_eq!(
        Decimal::parse("9999999999999999999"),
        Some(dec(false, 9_999_999_999_999_999_999_000_000_000_000_000_000))
    );
    // More fractional digits than the representation keeps.
    assert_eq!(Decimal::parse("0.0000000000000000001"), None);
    assert_eq!(Decimal::parse("0.000000000000000001"), Some(dec(false, 1)));
    // Leading zeros do not count against the whole-part bound.
    assert_eq!(Decimal::parse("0000000000000000000007"), Some(dec(false, 7 * ATTO)));
}

#[test]
fn orders_by_value() {
    let a = Decimal::parse("-3").unwrap();
    let b = Decimal::parse("-2.5").unwrap();
    let c = Decimal::parse("0").unwrap();
    let d = Decimal::parse("0.0001").unwrap();
    let e = Decimal::parse("10").unwrap();
    assert!(a.le(&b) && !b.le(&a));
    assert!(b.le(&c) && !c.le(&b));
    assert!(c.le(&d) && !d.le(&c));
    assert!(d.le(&e) && !e.le(&d));
    assert!(c.le(&c));
}

#[test]
fn zero_test_sees_both_zeros() {
    assert!(Decimal::parse("0.000").unwrap().is_zero());
    assert!(Decimal::parse("-0").unwrap().is_zero());
    assert!(!Decimal::parse("0.000000000000000001").unwrap().is_zero());
}
