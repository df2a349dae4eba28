use toy_payments_engine::amount::{format_amount, parse_amount};

#[test]
fn parses_decimal_amounts() {
    assert_eq!(parse_amount("1"), Some(10000));
    assert_eq!(parse_amount("1.0"), Some(10000));
    assert_eq!(parse_amount("0.5"), Some(5000));
    assert_eq!(parse_amount(".5"), Some(5000));
    assert_eq!(parse_amount("2."), Some(20000));
    assert_eq!(parse_amount("0"), Some(0));
    assert_eq!(parse_amount("007.0001"), Some(70001));
    assert_eq!(parse_amount("+1.5"), Some(15000));
}

#[test]
fn extra_fraction_digits_are_cut_off() {
    assert_eq!(parse_amount("2.37021234"), Some(23702));
    assert_eq!(parse_amount("2.2345"), Some(22345));
    assert_eq!(parse_amount("0.99999"), Some(9999));
}

#[test]
fn largest_amount_fits_and_next_does_not() {
    assert_eq!(parse_amount("1844674407370955.1615"), Some(u64::MAX));
    assert_eq!(parse_amount("1844674407370955.1616"), None);
    assert_eq!(parse_amount("99999999999999999999999"), None);
}

#[test]
fn rejects_what_is_not_an_amount() {
    for text in [
        "", ".", "+", "++1", "+-1", "-1", "-0", "1,5", " 1", "1.2.3", "inf", "NaN", "١", "e5",
        ".e1", "1e", "1e+", "1e-", "1e5.0", "1e1e1", "1E--1", "-1e3",
    ] {
        assert_eq!(parse_amount(text), None, "{text}");
    }
}

#[test]
fn reads_exponent_notation() {
    assert_eq!(parse_amount("1e3"), Some(10_000_000));
    assert_eq!(parse_amount("1E3"), Some(10_000_000));
    assert_eq!(parse_amount("1e+2"), Some(1_000_000));
    assert_eq!(parse_amount("2.5E-1"), Some(2500));
    assert_eq!(parse_amount("1e-4"), Some(1));
    assert_eq!(parse_amount("1e-5"), Some(0));
    assert_eq!(parse_amount("12345e-2"), Some(1_234_500));
    assert_eq!(parse_amount("1.e1"), Some(100_000));
    assert_eq!(parse_amount(".5e1"), Some(50_000));
    assert_eq!(parse_amount("+237021234e-8"), Some(23702));
    assert_eq!(parse_amount("1e15"), Some(10_000_000_000_000_000_000));
    assert_eq!(parse_amount("1e16"), None);
    assert_eq!(parse_amount("0e99999999999999999999999999999999999999"), Some(0));
    assert_eq!(parse_amount("5e-99999999999999999999999999999999999999"), Some(0));
    assert_eq!(parse_amount("1e99999999999999999999999999999999999999"), None);
    assert_eq!(parse_amount("100000000000000000000000000e-26"), Some(10000));
}

#[test]
fn formats_with_four_fraction_digits() {
    assert_eq!(format_amount(0), "0.0000");
    assert_eq!(format_amount(15000), "1.5000");
    assert_eq!(format_amount(-10000), "-1.0000");
    assert_eq!(format_amount(23702), "2.3702");
    assert_eq!(format_amount(-1), "-0.0001");
    assert_eq!(format_amount(1234567890), "123456.7890");
    assert_eq!(format_amount(i64::MAX), "922337203685477.5807");
    assert_eq!(format_amount(i64::MIN), "-922337203685477.5808");
}
