use ledger::decimal::{Decimal, ParseError};

#[test]
fn display() {
    assert_eq!(Decimal::new(0, 0).to_text(), "0.0");
    assert_eq!(Decimal::new(0, 3).to_text(), "0.0003");
    assert_eq!(Decimal::new(0, 100).to_text(), "0.01");
    assert_eq!(Decimal::new(10000, 0).to_text(), "10000.0");
    assert_eq!(Decimal::new(10000, 120).to_text(), "10000.012");
    assert_eq!(Decimal::new(0, -3).to_text(), "-0.0003");
    assert_eq!(Decimal::new(0, -100).to_text(), "-0.01");
    assert_eq!(Decimal::new(-10000, 0).to_text(), "-10000.0");
    assert_eq!(Decimal::new(-10000, -120).to_text(), "-10000.012");
}

#[test]
fn parse() {
    assert_eq!(Decimal::new(0, 0), Decimal::parse("0.0").unwrap());
    assert_eq!(Decimal::new(0, 3), Decimal::parse("0.0003").unwrap());
    assert_eq!(Decimal::new(0, 100), Decimal::parse("0.01").unwrap());
    assert_eq!(Decimal::new(10000, 0), Decimal::parse("10000.0").unwrap());
    assert_eq!(Decimal::new(10000, 120), Decimal::parse("10000.012").unwrap());
    assert_eq!(Decimal::new(0, -3), Decimal::parse("-0.0003").unwrap());
    assert_eq!(Decimal::new(0, -100), Decimal::parse("-0.01").unwrap());
    assert_eq!(Decimal::new(-10000, 0), Decimal::parse("-10000.0").unwrap());
    assert_eq!(Decimal::new(-10000, -120), Decimal::parse("-10000.012").unwrap());
    assert_eq!(Decimal::new(10000, 0), Decimal::parse("10000.00002").unwrap());
}

#[test]
fn parse_trims_whitespace() {
    assert_eq!(Decimal::new(1, 5000), Decimal::parse("  1.5 ").unwrap());
    assert_eq!(Decimal::new(-2, 0), Decimal::parse("\t-2.0\n").unwrap());
}

#[test]
fn parse_truncates_extra_fractional_digits() {
    assert_eq!(Decimal::new(0, 9999), Decimal::parse("0.99999999").unwrap());
    assert_eq!(Decimal::new(1, 2345), Decimal::parse("1.23456789").unwrap());
}

#[test]
fn parse_integral_only() {
    assert_eq!(Decimal::new(42, 0), Decimal::parse("42").unwrap());
    assert_eq!(Decimal::new(7, 0), Decimal::parse("7.").unwrap());
}

#[test]
fn parse_rejects_bad_integral() {
    assert_eq!(Decimal::parse(""), Err(ParseError::BadIntegral));
    assert_eq!(Decimal::parse("-"), Err(ParseError::BadIntegral));
    assert_eq!(Decimal::parse(".5"), Err(ParseError::BadIntegral));
    assert_eq!(Decimal::parse("abc"), Err(ParseError::BadIntegral));
    assert_eq!(Decimal::parse("1a.5"), Err(ParseError::BadIntegral));
    assert_eq!(Decimal::parse("--1"), Err(ParseError::BadIntegral));
}

#[test]
fn parse_rejects_extra_dot() {
    assert_eq!(Decimal::parse("1.2.3"), Err(ParseError::ExtraDot));
    assert_eq!(Decimal::parse("1.."), Err(ParseError::ExtraDot));
}

#[test]
fn parse_rejects_bad_fraction() {
    assert_eq!(Decimal::parse("1.2x"), Err(ParseError::BadFraction));
    assert_eq!(Decimal::parse("1.-2"), Err(ParseError::BadFraction));
}

#[test]
fn parse_rejects_out_of_range() {
    assert_eq!(
        Decimal::parse("99999999999999999999.0"),
        Err(ParseError::OutOfRange)
    );
    assert_eq!(
        Decimal::parse("-99999999999999999999.0"),
        Err(ParseError::OutOfRange)
    );
}

#[test]
fn parse_extremes_round_trip() {
    // The most positive and most negative representable values.
    let max = Decimal::parse("922337203685477.5807").unwrap();
    assert_eq!(max.to_text(), "922337203685477.5807");
    let min = Decimal::parse("-922337203685477.5808").unwrap();
    assert_eq!(min.to_text(), "-922337203685477.5808");
    // One ten-thousandth beyond either end is rejected.
    assert_eq!(
        Decimal::parse("922337203685477.5808"),
        Err(ParseError::OutOfRange)
    );
    assert_eq!(
        Decimal::parse("-922337203685477.5809"),
        Err(ParseError::OutOfRange)
    );
}

#[test]
fn text_round_trip() {
    let texts = ["0.0", "0.0003", "-0.01", "10000.012", "1.5", "-3.1415"];
    for t in texts {
        let d = Decimal::parse(t).unwrap();
        assert_eq!(d.to_text(), t);
        assert_eq!(Decimal::parse(&d.to_text()).unwrap(), d);
    }
}

#[test]
fn checked_add_exact() {
    let a = Decimal::new(1, 2500);
    let b = Decimal::new(2, 7500);
    assert_eq!(a.checked_add(b), Some(Decimal::new(4, 0)));
    let max = Decimal::parse("922337203685477.5807").unwrap();
    assert_eq!(max.checked_add(Decimal::new(0, 1)), None);
}
