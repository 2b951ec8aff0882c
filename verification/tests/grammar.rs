use sizeconv::args::{parse_size, parse_unit_base, ParseError};
use sizeconv::convert::{Base, Unit, Value};

#[test]
fn binary_prefix_with_byte() {
    assert_eq!(parse_unit_base("KiB"), Ok((Unit::Kibi, Base::Byte)));
}

#[test]
fn decimal_prefix_with_bit() {
    assert_eq!(parse_unit_base("Tb"), Ok((Unit::Tera, Base::Bit)));
}

#[test]
fn word_without_prefix() {
    assert_eq!(parse_unit_base("bytes"), Ok((Unit::Abs, Base::Byte)));
    assert_eq!(parse_unit_base("bits"), Ok((Unit::Abs, Base::Bit)));
}

#[test]
fn no_letters_are_bytes() {
    assert_eq!(parse_unit_base(""), Ok((Unit::Abs, Base::Byte)));
}

#[test]
fn every_prefix_with_every_marker() {
    let units = [
        ("", Unit::Abs),
        ("K", Unit::Kilo),
        ("M", Unit::Mega),
        ("G", Unit::Giga),
        ("T", Unit::Tera),
        ("Ki", Unit::Kibi),
        ("Mi", Unit::Mibi),
        ("Gi", Unit::Gibi),
        ("Ti", Unit::Tibi),
    ];
    let markers = [
        ("b", Base::Bit),
        ("bits", Base::Bit),
        ("Bits", Base::Bit),
        ("BITS", Base::Bit),
        ("bItS", Base::Bit),
        ("B", Base::Byte),
        ("bytes", Base::Byte),
        ("Bytes", Base::Byte),
        ("BYTES", Base::Byte),
        ("bYtEs", Base::Byte),
    ];
    for (prefix, unit) in units {
        for (marker, base) in markers {
            let letters = format!("{}{}", prefix, marker);
            assert_eq!(parse_unit_base(&letters), Ok((unit, base)), "{}", letters);
        }
    }
}

#[test]
fn single_letters_keep_their_case() {
    assert_eq!(parse_unit_base("Mb"), Ok((Unit::Mega, Base::Bit)));
    assert_eq!(parse_unit_base("MB"), Ok((Unit::Mega, Base::Byte)));
}

#[test]
fn small_letter_is_no_prefix() {
    // `m` is no unit's prefix, so only the base at the end counts
    assert_eq!(parse_unit_base("mb"), Ok((Unit::Abs, Base::Bit)));
    assert_eq!(parse_unit_base("kB"), Ok((Unit::Abs, Base::Byte)));
    assert_eq!(parse_unit_base("m"), Err(ParseError::InvalidUnit));
    assert_eq!(parse_unit_base("ki"), Err(ParseError::InvalidUnit));
}

#[test]
fn unknown_letters_are_an_invalid_unit() {
    assert_eq!(parse_unit_base("Xy"), Err(ParseError::InvalidUnit));
    assert_eq!(parse_unit_base("bit"), Err(ParseError::InvalidUnit));
    assert_eq!(parse_unit_base("byte"), Err(ParseError::InvalidUnit));
    assert_eq!(parse_unit_base("bites"), Err(ParseError::InvalidUnit));
}

#[test]
fn prefix_without_base_is_an_invalid_base() {
    for letters in ["K", "M", "G", "T", "Ki", "Mi", "Gi", "Ti", "Kx", "Mib!", "Gbit"] {
        assert_eq!(parse_unit_base(letters), Err(ParseError::InvalidBase), "{}", letters);
    }
}

#[test]
fn binary_prefix_goes_before_decimal() {
    assert_eq!(parse_unit_base("Kib"), Ok((Unit::Kibi, Base::Bit)));
    assert_eq!(parse_unit_base("KIB"), Ok((Unit::Kilo, Base::Byte)));
    assert_eq!(parse_unit_base("Kibits"), Ok((Unit::Kibi, Base::Bit)));
}

#[test]
fn letters_outside_ascii() {
    assert_eq!(parse_unit_base("µB"), Ok((Unit::Abs, Base::Byte)));
    assert_eq!(parse_unit_base("b\u{130}ts"), Err(ParseError::InvalidUnit));
    assert_eq!(parse_unit_base("Kb\u{130}ts"), Err(ParseError::InvalidBase));
    assert_eq!(parse_unit_base("\u{212A}B"), Ok((Unit::Abs, Base::Byte)));
}

#[test]
fn bare_number_is_bytes() {
    let size = parse_size("2048").unwrap();
    assert!(matches!(size.value, Value::Int(2048)));
    assert_eq!(size.unit, Unit::Abs);
    assert_eq!(size.base, Base::Byte);
}

#[test]
fn number_with_unit_and_base() {
    let size = parse_size("512Kb").unwrap();
    assert!(matches!(size.value, Value::Int(512)));
    assert_eq!(size.unit, Unit::Kilo);
    assert_eq!(size.base, Base::Bit);
}

#[test]
fn number_with_point_is_kept_exactly() {
    let size = parse_size("1.5GiB").unwrap();
    assert!(matches!(size.value, Value::Float(_)));
    assert_eq!(size.value.text(), "1.5");
    assert_eq!(size.unit, Unit::Gibi);
    assert_eq!(size.base, Base::Byte);
    let long = parse_size("0.12345678901234567890123456789b").unwrap();
    assert_eq!(long.value.text(), "0.12345678901234567890123456789");
}

#[test]
fn point_at_either_end() {
    let size = parse_size("1.KB").unwrap();
    assert!(matches!(size.value, Value::Float(_)));
    assert_eq!(size.value.text(), "1");
    let size = parse_size(".5KB").unwrap();
    assert_eq!(size.value.text(), "0.5");
}

#[test]
fn malformed_number_is_zero() {
    let size = parse_size("1.2.3KB").unwrap();
    assert!(matches!(size.value, Value::Float(_)));
    assert_eq!(size.value.text(), "0");
    assert_eq!(size.unit, Unit::Kilo);
    let size = parse_size(".B").unwrap();
    assert!(matches!(size.value, Value::Float(_)));
    assert_eq!(size.value.text(), "0");
    let size = parse_size("..").unwrap();
    assert_eq!(size.value.text(), "0");
}

#[test]
fn missing_number_is_zero() {
    let size = parse_size("MiB").unwrap();
    assert!(matches!(size.value, Value::Int(0)));
    assert_eq!(size.unit, Unit::Mibi);
    let size = parse_size("").unwrap();
    assert!(matches!(size.value, Value::Int(0)));
    assert_eq!(size.unit, Unit::Abs);
    assert_eq!(size.base, Base::Byte);
}

#[test]
fn whole_number_beyond_u64_is_zero() {
    let size = parse_size("18446744073709551615").unwrap();
    assert!(matches!(size.value, Value::Int(u64::MAX)));
    let size = parse_size("18446744073709551616").unwrap();
    assert!(matches!(size.value, Value::Int(0)));
    let size = parse_size("000000000000000000000000000017B").unwrap();
    assert!(matches!(size.value, Value::Int(17)));
}

#[test]
fn number_ends_at_first_other_character() {
    let size = parse_size("12b34").unwrap_err();
    assert_eq!(size, ParseError::InvalidUnit);
    let size = parse_size("5Mb").unwrap();
    assert!(matches!(size.value, Value::Int(5)));
    assert_eq!((size.unit, size.base), (Unit::Mega, Base::Bit));
    let size = parse_size("5MB").unwrap();
    assert_eq!((size.unit, size.base), (Unit::Mega, Base::Byte));
    let size = parse_size("5mb").unwrap();
    assert_eq!((size.unit, size.base), (Unit::Abs, Base::Bit));
    let size = parse_size("-5B").unwrap();
    assert!(matches!(size.value, Value::Int(0)));
}

#[test]
fn letters_of_a_size_can_be_refused() {
    assert_eq!(parse_size("10Xy").unwrap_err(), ParseError::InvalidUnit);
    assert_eq!(parse_size("10K").unwrap_err(), ParseError::InvalidBase);
    assert_eq!(parse_size("1.5Gi").unwrap_err(), ParseError::InvalidBase);
}

#[test]
fn errors_have_messages() {
    assert_eq!(ParseError::InvalidUnit.message(), "Invalid unit");
    assert_eq!(ParseError::InvalidBase.message(), "Invalid base");
}
