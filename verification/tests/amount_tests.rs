use ledger::Amount;

fn amt(s: &str) -> Amount {
    Amount::from_decimal_str(s).unwrap()
}

#[test]
fn parses_plain_integers() {
    assert_eq!(amt("0").units(), 0);
    assert_eq!(amt("1").units(), 10_000);
    assert_eq!(amt("42").units(), 420_000);
    assert_eq!(amt("-7").units(), -70_000);
}

#[test]
fn parses_fractions_with_padding() {
    assert_eq!(amt("1.5").units(), 15_000);
    assert_eq!(amt("0.25").units(), 2_500);
    assert_eq!(amt("0.125").units(), 1_250);
    assert_eq!(amt("0.0001").units(), 1);
    assert_eq!(amt("-3.5").units(), -35_000);
}

#[test]
fn rounds_half_up_on_the_fifth_digit() {
    assert_eq!(amt("1.00005").units(), 10_001);
    assert_eq!(amt("1.00004").units(), 10_000);
    assert_eq!(amt("1.000049999").units(), 10_000);
    assert_eq!(amt("-1.00005").units(), -10_001);
    assert_eq!(amt("0.99999").units(), 10_000);
}

#[test]
fn rejects_malformed_input() {
    assert!(Amount::from_decimal_str("").is_none());
    assert!(Amount::from_decimal_str("-").is_none());
    assert!(Amount::from_decimal_str(".5").is_none());
    assert!(Amount::from_decimal_str("5.").is_none());
    assert!(Amount::from_decimal_str("1.2.3").is_none());
    assert!(Amount::from_decimal_str("abc").is_none());
    assert!(Amount::from_decimal_str("1x").is_none());
    assert!(Amount::from_decimal_str("1.2x").is_none());
    assert!(Amount::from_decimal_str("--1").is_none());
    assert!(Amount::from_decimal_str(" 1").is_none());
}

#[test]
fn rejects_out_of_range_magnitudes() {
    // the largest representable scaled value, then one step beyond
    assert_eq!(amt("922337203685477.5807").units(), i64::MAX);
    assert!(Amount::from_decimal_str("922337203685477.5808").is_none());
    assert!(Amount::from_decimal_str("99999999999999999999").is_none());
    assert_eq!(amt("-922337203685477.5807").units(), -i64::MAX);
}

#[test]
fn formats_four_fraction_digits() {
    assert_eq!(amt("0").to_decimal_string(), "0.0000");
    assert_eq!(amt("10.0").to_decimal_string(), "10.0000");
    assert_eq!(amt("1.5").to_decimal_string(), "1.5000");
    assert_eq!(amt("-3.25").to_decimal_string(), "-3.2500");
    assert_eq!(Amount::from_units(1).to_decimal_string(), "0.0001");
    assert_eq!(Amount::from_units(-1).to_decimal_string(), "-0.0001");
    assert_eq!(Amount::from_units(i64::MIN).to_decimal_string(), "-922337203685477.5808");
}

#[test]
fn round_trips_canonical_strings() {
    for s in [
        "0.0000",
        "10.0000",
        "0.0001",
        "-0.0001",
        "922337203685477.5807",
        "-922337203685477.5807",
        "123.4567",
    ] {
        let a = amt(s);
        assert_eq!(a.to_decimal_string(), s);
        assert_eq!(Amount::from_decimal_str(&a.to_decimal_string()).unwrap(), a);
    }
}

#[test]
fn round_trips_every_amount_in_a_window() {
    for units in -20_005..20_005_i64 {
        let a = Amount::from_units(units);
        let s = a.to_decimal_string();
        assert_eq!(Amount::from_decimal_str(&s), Some(a));
    }
}

#[test]
fn checked_arithmetic_is_exact() {
    let a = amt("0.1");
    let b = amt("0.2");
    assert_eq!(a.checked_add(b), Some(amt("0.3")));
    assert_eq!(b.checked_sub(a), Some(amt("0.1")));
    assert_eq!(a.checked_sub(b), Some(amt("-0.1")));
    assert!(Amount::from_units(i64::MAX).checked_add(amt("0.0001")).is_none());
    assert!(Amount::from_units(i64::MIN).checked_sub(amt("0.0001")).is_none());
    // repeated add/subtract cycles drift nowhere
    let mut x = amt("0");
    for _ in 0..1000 {
        x = x.checked_add(a).unwrap();
    }
    for _ in 0..1000 {
        x = x.checked_sub(a).unwrap();
    }
    assert_eq!(x, amt("0"));
}

#[test]
fn ordering_follows_the_scaled_value() {
    assert!(amt("0.0001").lt(&amt("0.0002")));
    assert!(amt("-1").lt(&amt("0")));
    assert!(!amt("2").lt(&amt("2")));
    assert_eq!(Amount::zero().units(), 0);
}
