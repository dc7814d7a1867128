use monero_core::amount::Amount;
use monero_core::amount::ParsingError;

#[test]
fn parse_scaled_fraction() {
    let a = Amount::parse("1.500000000000").unwrap();
    assert_eq!(a.as_atomic(), 1_500_000_000_000u64);
    assert_eq!(a.format(), "1.5");
}

#[test]
fn format_zero() {
    assert_eq!(Amount::from_atomic(0).format(), "0");
}

#[test]
fn format_trims_trailing_zeros() {
    assert_eq!(Amount::from_atomic(5).format(), "0.000000000005");
    assert_eq!(Amount::from_atomic(1_000_000_000_000).format(), "1");
    assert_eq!(Amount::from_atomic(1_230_000_000_000).format(), "1.23");
}

#[test]
fn parse_integer_only() {
    let a = Amount::parse("42").unwrap();
    assert_eq!(a.as_atomic(), 42_000_000_000_000u64);
}

#[test]
fn parse_fraction_only() {
    let a = Amount::parse(".5").unwrap();
    assert_eq!(a.as_atomic(), 500_000_000_000u64);
}

#[test]
fn parse_rejects_excess_precision() {
    assert_eq!(Amount::parse("0.1234567890123"), Err(ParsingError::ExcessPrecision));
}

#[test]
fn parse_rejects_invalid_character() {
    assert_eq!(Amount::parse("12a"), Err(ParsingError::InvalidCharacter));
    assert_eq!(Amount::parse(""), Err(ParsingError::InvalidCharacter));
    assert_eq!(Amount::parse("."), Err(ParsingError::InvalidCharacter));
    assert_eq!(Amount::parse("1.2.3"), Err(ParsingError::InvalidCharacter));
    assert_eq!(Amount::parse("-1"), Err(ParsingError::InvalidCharacter));
}

#[test]
fn parse_rejects_overflow() {
    assert_eq!(Amount::parse("99999999999999999999"), Err(ParsingError::Overflow));
}

#[test]
fn parse_format_round_trip() {
    for v in [0u64, 1, 9, 10, 999_999_999_999, 1_000_000_000_001, u64::MAX] {
        let a = Amount::from_atomic(v);
        let text = a.format();
        let back = Amount::parse(&text).unwrap();
        assert_eq!(back.as_atomic(), v);
    }
}

#[test]
fn checked_add_bounds() {
    let a = Amount::from_atomic(u64::MAX - 1);
    let b = Amount::from_atomic(1);
    assert_eq!(a.checked_add(b).unwrap().as_atomic(), u64::MAX);
    assert!(a.checked_add(Amount::from_atomic(2)).is_none());
}
