use sizeconv::decimal::{Decimal, MAX_FACTOR};

#[test]
fn from_u64_and_back() {
    for n in [0u64, 1, 9, 10, 99, 100, 12345, 1 << 40, u64::MAX - 1, u64::MAX] {
        let d = Decimal::from_u64(n);
        assert_eq!(d.to_u64(), Some(n));
        assert_eq!(d.text(), n.to_string());
    }
}

#[test]
fn zero_is_zero() {
    assert_eq!(Decimal::zero().text(), "0");
    assert_eq!(Decimal::zero().to_u64(), Some(0));
}

#[test]
fn parse_accepts_numerals() {
    assert_eq!(Decimal::parse("0").unwrap().text(), "0");
    assert_eq!(Decimal::parse("42").unwrap().text(), "42");
    assert_eq!(Decimal::parse("0042").unwrap().text(), "42");
    assert_eq!(Decimal::parse("3.14").unwrap().text(), "3.14");
    assert_eq!(Decimal::parse("3.140").unwrap().text(), "3.14");
    assert_eq!(Decimal::parse("3.").unwrap().text(), "3");
    assert_eq!(Decimal::parse(".25").unwrap().text(), "0.25");
    assert_eq!(Decimal::parse("0.000").unwrap().text(), "0");
    assert_eq!(Decimal::parse("100.001").unwrap().text(), "100.001");
    assert_eq!(
        Decimal::parse("123456789012345678901234567890.000000000000000000001").unwrap().text(),
        "123456789012345678901234567890.000000000000000000001"
    );
}

#[test]
fn parse_refuses_other_text() {
    for text in ["", ".", "..", "1.2.3", "1..2", "12a", "a12", "-1", "+1", "1e5", " 1", "1 ", "٣", "½"] {
        assert!(Decimal::parse(text).is_none(), "{}", text);
    }
}

#[test]
fn scaled_multiplies_and_shifts() {
    let d = Decimal::parse("1.5").unwrap();
    assert_eq!(d.scaled(1, 0).text(), "1.5");
    assert_eq!(d.scaled(2, 0).text(), "3");
    assert_eq!(d.scaled(1, 1).text(), "0.15");
    assert_eq!(d.scaled(1024, 3).text(), "1.536");
    assert_eq!(d.scaled(0, 0).text(), "0");
    assert_eq!(d.scaled(7, 200).to_u64(), None);
}

#[test]
fn scaled_by_the_greatest_factor() {
    let d = Decimal::from_u64(u64::MAX).scaled(MAX_FACTOR, 37);
    assert_eq!(d.to_u64(), Some(u64::MAX));
    let d = Decimal::from_u64(999).scaled(MAX_FACTOR, 0);
    assert_eq!(d.text(), "9990000000000000000000000000000000000000");
    let d = Decimal::from_u64(u64::MAX).scaled(MAX_FACTOR - 1, 255);
    assert_eq!(d.scaled(1, 0).text(), d.text());
}

#[test]
fn to_u64_wants_a_whole_number_that_fits() {
    assert_eq!(Decimal::parse("7.000").unwrap().to_u64(), Some(7));
    assert_eq!(Decimal::parse("7.001").unwrap().to_u64(), None);
    assert_eq!(Decimal::parse("0.5").unwrap().to_u64(), None);
    assert_eq!(Decimal::parse("18446744073709551615.0").unwrap().to_u64(), Some(u64::MAX));
    assert_eq!(Decimal::parse("18446744073709551616").unwrap().to_u64(), None);
    assert_eq!(Decimal::parse("99999999999999999999999999").unwrap().to_u64(), None);
    assert_eq!(Decimal::parse("000000000000000000000000000000012").unwrap().to_u64(), Some(12));
}

#[test]
fn text_has_no_needless_zeros() {
    assert_eq!(Decimal::parse("000.100").unwrap().text(), "0.1");
    assert_eq!(Decimal::parse("10.0").unwrap().text(), "10");
    assert_eq!(Decimal::parse("0.0001000").unwrap().text(), "0.0001");
    assert_eq!(Decimal::from_u64(1000).scaled(1, 3).text(), "1");
    assert_eq!(Decimal::from_u64(1000).scaled(1, 5).text(), "0.01");
}
