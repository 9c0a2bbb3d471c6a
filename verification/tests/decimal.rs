use obmerge::decimal::{parse_units, UNITS_PER_WHOLE};

#[test]
fn parses_eight_decimal_places() {
    assert_eq!(parse_units("0.06834000"), Some(6_834_000));
    assert_eq!(parse_units("12.34560000"), Some(1_234_560_000));
}

#[test]
fn parses_whole_numbers_and_short_fractions() {
    assert_eq!(parse_units("12"), Some(12 * UNITS_PER_WHOLE));
    assert_eq!(parse_units("3500.5"), Some(350_050_000_000));
    assert_eq!(parse_units(".5"), Some(50_000_000));
    assert_eq!(parse_units("5."), Some(500_000_000));
    assert_eq!(parse_units("0"), Some(0));
    assert_eq!(parse_units("0.00000001"), Some(1));
}

#[test]
fn parses_signs() {
    assert_eq!(parse_units("-1"), Some(-100_000_000));
    assert_eq!(parse_units("+2.5"), Some(250_000_000));
    assert_eq!(parse_units("-0"), Some(0));
    assert_eq!(parse_units("-0.000000005"), Some(-1));
}

#[test]
fn parses_exponents() {
    assert_eq!(parse_units("1e5"), Some(10_000_000_000_000));
    assert_eq!(parse_units("1E5"), Some(10_000_000_000_000));
    assert_eq!(parse_units("1.5E-2"), Some(1_500_000));
    assert_eq!(parse_units("6.834e-2"), Some(6_834_000));
    assert_eq!(parse_units("6834e-5"), Some(6_834_000));
    assert_eq!(parse_units("1e+3"), Some(100_000_000_000));
    assert_eq!(parse_units("-2.5e1"), Some(-2_500_000_000));
    assert_eq!(parse_units(".5e1"), Some(500_000_000));
    assert_eq!(parse_units("5.e0"), Some(500_000_000));
}

#[test]
fn huge_and_tiny_exponents() {
    assert_eq!(parse_units("1e400"), None);
    assert_eq!(parse_units("0e400"), Some(0));
    assert_eq!(parse_units("0.000e99999999999999999999999999"), Some(0));
    assert_eq!(parse_units("1e-400"), Some(0));
    assert_eq!(parse_units("1e-99999999999999999999999999"), Some(0));
    assert_eq!(parse_units("1e-9"), Some(0));
    assert_eq!(parse_units("5e-9"), Some(1));
    assert_eq!(parse_units("4.99e-9"), Some(0));
}

#[test]
fn rejects_what_is_no_finite_numeral() {
    assert_eq!(parse_units(""), None);
    assert_eq!(parse_units("."), None);
    assert_eq!(parse_units("+"), None);
    assert_eq!(parse_units("-"), None);
    assert_eq!(parse_units("1.2.3"), None);
    assert_eq!(parse_units("--1"), None);
    assert_eq!(parse_units("e5"), None);
    assert_eq!(parse_units(".e5"), None);
    assert_eq!(parse_units("1e"), None);
    assert_eq!(parse_units("1e+"), None);
    assert_eq!(parse_units("1e+-5"), None);
    assert_eq!(parse_units("1e5.0"), None);
    assert_eq!(parse_units(" 1"), None);
    assert_eq!(parse_units("abc"), None);
    assert_eq!(parse_units("inf"), None);
    assert_eq!(parse_units("-infinity"), None);
    assert_eq!(parse_units("NaN"), None);
}

#[test]
fn rounds_half_up_past_eight_fraction_digits() {
    assert_eq!(parse_units("0.123456789"), Some(12_345_679));
    assert_eq!(parse_units("0.123456784"), Some(12_345_678));
    assert_eq!(parse_units("0.123456785"), Some(12_345_679));
    assert_eq!(parse_units("0.12345678499999"), Some(12_345_678));
    assert_eq!(parse_units("0.000000004999"), Some(0));
    assert_eq!(parse_units("0.000000005"), Some(1));
    assert_eq!(parse_units("0.12345678"), Some(12_345_678));
    assert_eq!(parse_units("1.000000000000000000000000000001"), Some(100_000_000));
    assert_eq!(parse_units("-0.123456789"), Some(-12_345_679));
}

#[test]
fn largest_magnitude_fits_and_one_more_does_not() {
    assert_eq!(parse_units("92233720368.54775807"), Some(i64::MAX));
    assert_eq!(parse_units("-92233720368.54775807"), Some(-i64::MAX));
    assert_eq!(parse_units("92233720368.54775808"), None);
    assert_eq!(parse_units("92233720368.547758074"), Some(i64::MAX));
    assert_eq!(parse_units("92233720368.547758075"), None);
    assert_eq!(parse_units("9223372036854775807e-8"), Some(i64::MAX));
    assert_eq!(parse_units("99999999999999999999"), None);
}
