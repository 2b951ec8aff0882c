use sizeconv::args::parse_size;
use sizeconv::convert::{
    convert, to_bits, to_bytes, Base, Size, Unit, Value, GIBI, GIGA, KIBI, KILO, MEGA, MIBI, TERA,
    TIBI,
};
use sizeconv::decimal::Decimal;

#[test]
fn multipliers() {
    assert_eq!(Unit::Abs.mult(), 1);
    assert_eq!(Unit::Kilo.mult(), 1_000);
    assert_eq!(Unit::Mega.mult(), 1_000_000);
    assert_eq!(Unit::Giga.mult(), 1_000_000_000);
    assert_eq!(Unit::Kibi.mult(), 1 << 10);
    assert_eq!(Unit::Mibi.mult(), 1 << 20);
    assert_eq!(Unit::Gibi.mult(), 1 << 30);
    assert_eq!(Unit::Tibi.mult(), 1 << 40);
    assert_eq!((KILO, MEGA, GIGA), (1_000, 1_000_000, 1_000_000_000));
    assert_eq!((KIBI, MIBI, GIBI, TIBI), (1 << 10, 1 << 20, 1 << 30, 1 << 40));
}

#[test]
fn tera_multiplies_as_giga() {
    assert_eq!(Unit::Tera.mult(), 1_000_000_000);
    assert_eq!(TERA, GIGA);
    let size = parse_size("1TB").unwrap();
    assert_eq!(convert(size, Unit::Abs, Base::Byte).text(), "1000000000B");
    let size = parse_size("1GB").unwrap();
    assert_eq!(convert(size, Unit::Tera, Base::Byte).text(), "1TB");
}

#[test]
fn reciprocals_undo_multipliers() {
    let units = [
        Unit::Abs,
        Unit::Kilo,
        Unit::Mega,
        Unit::Giga,
        Unit::Tera,
        Unit::Kibi,
        Unit::Mibi,
        Unit::Gibi,
        Unit::Tibi,
    ];
    for unit in units {
        let (reciprocal, places) = unit.reciprocal();
        assert_eq!(reciprocal * unit.mult() as u128, 10u128.pow(places as u32));
    }
}

#[test]
fn prefixes_and_suffixes() {
    assert_eq!(Unit::Abs.prefix(), "");
    assert_eq!(Unit::Kilo.prefix(), "K");
    assert_eq!(Unit::Mega.prefix(), "M");
    assert_eq!(Unit::Giga.prefix(), "G");
    assert_eq!(Unit::Tera.prefix(), "T");
    assert_eq!(Unit::Kibi.prefix(), "Ki");
    assert_eq!(Unit::Mibi.prefix(), "Mi");
    assert_eq!(Unit::Gibi.prefix(), "Gi");
    assert_eq!(Unit::Tibi.prefix(), "Ti");
    assert_eq!(Base::Bit.suffix(), "b");
    assert_eq!(Base::Byte.suffix(), "B");
}

#[test]
fn result_has_the_unit_and_base_asked_for() {
    let size = Size { value: Value::Int(3), unit: Unit::Mibi, base: Base::Byte };
    let r = convert(size, Unit::Kilo, Base::Bit);
    assert_eq!(r.unit, Unit::Kilo);
    assert_eq!(r.base, Base::Bit);
    assert!(matches!(r.value, Value::Float(_)));
    assert_eq!(r.text(), "25165.824Kb");
}

#[test]
fn whole_count_becomes_a_decimal() {
    let size = Size { value: Value::Int(7), unit: Unit::Abs, base: Base::Byte };
    let r = convert(size, Unit::Abs, Base::Byte);
    assert!(matches!(r.value, Value::Float(_)));
    assert_eq!(r.text(), "7B");
}

#[test]
fn bytes_to_bits_times_eight() {
    let size = parse_size("1GiB").unwrap();
    assert_eq!(convert(size, Unit::Abs, Base::Bit).text(), "8589934592b");
    let size = parse_size("1.5KB").unwrap();
    assert_eq!(convert(size, Unit::Kilo, Base::Bit).text(), "12Kb");
}

#[test]
fn bits_to_bytes_by_eight() {
    let size = parse_size("3b").unwrap();
    assert_eq!(convert(size, Unit::Abs, Base::Byte).text(), "0.375B");
    let size = parse_size("1b").unwrap();
    assert_eq!(convert(size, Unit::Giga, Base::Byte).text(), "0.000000000125GB");
}

#[test]
fn fraction_of_a_bit_is_kept() {
    let size = parse_size("0.5b").unwrap();
    assert_eq!(convert(size, Unit::Abs, Base::Bit).text(), "0.5b");
    let size = parse_size("0.1B").unwrap();
    assert_eq!(convert(size, Unit::Abs, Base::Bit).text(), "0.8b");
}

#[test]
fn decimal_to_binary_unit() {
    let size = parse_size("1KB").unwrap();
    assert_eq!(convert(size, Unit::Kibi, Base::Byte).text(), "0.9765625KiB");
    let size = parse_size("12.3456789GB").unwrap();
    assert_eq!(
        convert(size, Unit::Tibi, Base::Byte).text(),
        "0.01122832954933983273804187774658203125TiB"
    );
}

#[test]
fn smallest_result_is_exact() {
    let size = parse_size("1b").unwrap();
    assert_eq!(
        convert(size, Unit::Tibi, Base::Byte).text(),
        "0.0000000000001136868377216160297393798828125TiB"
    );
}

#[test]
fn largest_whole_count_does_not_overflow() {
    let size = Size { value: Value::Int(u64::MAX), unit: Unit::Tibi, base: Base::Byte };
    assert_eq!(convert(size, Unit::Abs, Base::Bit).text(), "162259276829213363382781917265920b");
}

#[test]
fn long_number_is_converted_exactly() {
    let size = parse_size("1234567890123456789.0123456789KiB").unwrap();
    assert_eq!(convert(size, Unit::Abs, Base::Byte).text(), "1264197519486419751948.6419751936B");
}

#[test]
fn same_unit_and_base_keeps_the_magnitude() {
    let tokens = ["1.5GiB", "0.5b", "3Tb", "1024", "0.001KiB", "12345678901234567890.5MB", "7Mibits"];
    for token in tokens {
        let before = parse_size(token).unwrap().value.text();
        let size = parse_size(token).unwrap();
        let (unit, base) = (size.unit, size.base);
        let after = convert(size, unit, base);
        assert_eq!(after.value.text(), before, "{}", token);
    }
}

#[test]
fn bits_then_bytes_is_bytes_at_once() {
    let tokens = ["1.5GiB", "0.5b", "3Tb", "1024", "1b", "0.3Kb", "9.99MB"];
    let units = [Unit::Abs, Unit::Kilo, Unit::Tera, Unit::Kibi, Unit::Tibi];
    for token in tokens {
        for unit in units {
            let bits = convert(parse_size(token).unwrap(), unit, Base::Bit);
            let both = convert(bits, unit, Base::Byte);
            let once = convert(parse_size(token).unwrap(), unit, Base::Byte);
            assert_eq!(both.text(), once.text(), "{} {:?}", token, unit);
        }
    }
}

#[test]
fn conversions_can_follow_each_other() {
    let mut size = parse_size("1.5GiB").unwrap();
    for _ in 0..50 {
        size = convert(size, Unit::Tibi, Base::Byte);
        size = convert(size, Unit::Abs, Base::Bit);
    }
    assert_eq!(size.text(), "12884901888b");
}

#[test]
fn value_text() {
    assert_eq!(Value::Int(0).text(), "0");
    assert_eq!(Value::Int(1024).text(), "1024");
    assert_eq!(Value::Int(u64::MAX).text(), "18446744073709551615");
    assert_eq!(Value::Float(Decimal::parse("001.500").unwrap()).text(), "1.5");
    assert_eq!(Value::Float(Decimal::zero()).text(), "0");
}

#[test]
fn value_hex_text() {
    assert_eq!(Value::Int(0).hex_text(), "0");
    assert_eq!(Value::Int(1024).hex_text(), "400");
    assert_eq!(Value::Int(255).hex_text(), "FF");
    assert_eq!(Value::Int(0xDEADBEEF).hex_text(), "DEADBEEF");
    assert_eq!(Value::Int(u64::MAX).hex_text(), "FFFFFFFFFFFFFFFF");
    assert_eq!(Value::Float(Decimal::parse("26.0").unwrap()).hex_text(), "1A");
    assert_eq!(Value::Float(Decimal::parse("26.5").unwrap()).hex_text(), "26.5");
    assert_eq!(
        Value::Float(Decimal::parse("18446744073709551616").unwrap()).hex_text(),
        "18446744073709551616"
    );
}

#[test]
fn size_text() {
    let size = parse_size("1.5GiB").unwrap();
    assert_eq!(size.text(), "1.5GiB");
    let size = parse_size("0010bits").unwrap();
    assert_eq!(size.text(), "10b");
    let size = Size { value: Value::Int(4096), unit: Unit::Abs, base: Base::Byte };
    assert_eq!(size.text(), "4096B");
    assert_eq!(size.hex_text(), "1000");
}

#[test]
fn into_decimal_keeps_the_magnitude() {
    assert_eq!(Value::Int(90).into_decimal().text(), "90");
    assert_eq!(Value::Float(Decimal::parse("0.25").unwrap()).into_decimal().text(), "0.25");
}

#[test]
fn size_in_bits() {
    assert_eq!(to_bits(parse_size("1KiB").unwrap()).text(), "8192");
    assert_eq!(to_bits(parse_size("1Kib").unwrap()).text(), "1024");
    assert_eq!(to_bits(parse_size("0.3b").unwrap()).text(), "0.3");
    assert_eq!(to_bits(parse_size("2.5MB").unwrap()).text(), "20000000");
    assert_eq!(Base::Bit.bits(), 1);
    assert_eq!(Base::Byte.bits(), 8);
}

#[test]
fn size_in_bytes() {
    assert_eq!(to_bytes(parse_size("1KiB").unwrap()).text(), "1024");
    assert_eq!(to_bytes(parse_size("12b").unwrap()).text(), "1.5");
    assert_eq!(to_bytes(parse_size("1Kib").unwrap()).text(), "128");
    assert_eq!(to_bytes(parse_size("0.001Kb").unwrap()).text(), "0.125");
}

#[test]
fn eight_times_the_bytes_are_the_bits() {
    for token in ["1KiB", "12b", "0.7Tb", "3.25MiB", "9Gbits"] {
        let bytes = to_bytes(parse_size(token).unwrap()).scaled(8, 0);
        let bits = to_bits(parse_size(token).unwrap());
        assert_eq!(bytes.text(), bits.text(), "{}", token);
    }
}
