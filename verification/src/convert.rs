//! Units, bases and sizes, and the conversion of a size to another unit and
//! base.
//!
//! Every multiplier is a product of twos and fives, so a decimal number
//! divided by one is again a decimal number with finitely many digits. A
//! conversion therefore rounds nothing: a division by a multiplier is a
//! multiplication by its reciprocal, with the point moved to the left.
use vstd::prelude::*;
use crate::decimal::Decimal;
use crate::digits::{lemma_pow10_positive, lemma_pow10_sum, pow10};
use crate::numeral::{
    decimal_text, hex_text, lemma_same_number_same_text, push_hex, same_number,
};

verus! {

pub const KILO: u64 = 1_000;

pub const MEGA: u64 = 1_000_000;

pub const GIGA: u64 = 1_000_000_000;

/// The multiplier that the prefix `T` stands for: that of `G`, not a
/// thousand times it.
pub const TERA: u64 = 1_000_000_000;

pub const KIBI: u64 = 1_024;

pub const MIBI: u64 = 1_048_576;

pub const GIBI: u64 = 1_073_741_824;

pub const TIBI: u64 = 1_099_511_627_776;

/// The scale of a size: none, or one of four decimal and four binary
/// multipliers.
#[derive(Clone, Copy, Debug, PartialEq, Eq, Structural)]
pub enum Unit {
    Abs,
    Kilo,
    Mega,
    Giga,
    Tera,
    Kibi,
    Mibi,
    Gibi,
    Tibi,
}

impl Unit {
    /// The multiplier of the unit, as a mathematical integer.
    pub open spec fn spec_mult(self) -> nat {
        match self {
            Unit::Abs => 1,
            Unit::Kilo => KILO as nat,
            Unit::Mega => MEGA as nat,
            Unit::Giga => GIGA as nat,
            Unit::Tera => TERA as nat,
            Unit::Kibi => KIBI as nat,
            Unit::Mibi => MIBI as nat,
            Unit::Gibi => GIBI as nat,
            Unit::Tibi => TIBI as nat,
        }
    }

    /// The multiplier of the unit.
    pub fn mult(&self) -> (m: u64)
        ensures
            m == self.spec_mult(),
    {
        match self {
            Unit::Abs => 1,
            Unit::Kilo => KILO,
            Unit::Mega => MEGA,
            Unit::Giga => GIGA,
            Unit::Tera => TERA,
            Unit::Kibi => KIBI,
            Unit::Mibi => MIBI,
            Unit::Gibi => GIBI,
            Unit::Tibi => TIBI,
        }
    }

    /// How many decimal places a division by the unit's multiplier takes at
    /// most: the least power of ten that the multiplier divides.
    pub open spec fn spec_places(self) -> nat {
        match self {
            Unit::Abs => 0,
            Unit::Kilo => 3,
            Unit::Mega => 6,
            Unit::Giga => 9,
            Unit::Tera => 9,
            Unit::Kibi => 10,
            Unit::Mibi => 20,
            Unit::Gibi => 30,
            Unit::Tibi => 40,
        }
    }

    /// The number that multiplies as the unit's multiplier divides, once the
    /// point has moved `spec_places()` to the left: that power of ten
    /// divided by the multiplier.
    pub open spec fn spec_reciprocal(self) -> nat {
        match self {
            Unit::Abs => 1,
            Unit::Kilo => 1,
            Unit::Mega => 1,
            Unit::Giga => 1,
            Unit::Tera => 1,
            Unit::Kibi => 9_765_625,
            Unit::Mibi => 95_367_431_640_625,
            Unit::Gibi => 931_322_574_615_478_515_625,
            Unit::Tibi => 9_094_947_017_729_282_379_150_390_625,
        }
    }

    /// The reciprocal times the multiplier is ten to the power of the places.
    pub proof fn lemma_reciprocal(self)
        ensures
            self.spec_reciprocal() * self.spec_mult() == pow10(self.spec_places()),
    {
        reveal_with_fuel(pow10, 41);
    }

    /// The reciprocal of the unit's multiplier and its decimal places.
    pub fn reciprocal(&self) -> (r: (u128, u8))
        ensures
            r.0 == self.spec_reciprocal(),
            r.1 == self.spec_places(),
    {
        match self {
            Unit::Abs => (1, 0),
            Unit::Kilo => (1, 3),
            Unit::Mega => (1, 6),
            Unit::Giga => (1, 9),
            Unit::Tera => (1, 9),
            Unit::Kibi => (9_765_625, 10),
            Unit::Mibi => (95_367_431_640_625, 20),
            Unit::Gibi => (931_322_574_615_478_515_625, 30),
            Unit::Tibi => (9_094_947_017_729_282_379_150_390_625, 40),
        }
    }

    /// The letters that stand for the unit in a size's text.
    pub open spec fn spec_prefix(self) -> Seq<char> {
        match self {
            Unit::Abs => seq![],
            Unit::Kilo => seq!['K'],
            Unit::Mega => seq!['M'],
            Unit::Giga => seq!['G'],
            Unit::Tera => seq!['T'],
            Unit::Kibi => seq!['K', 'i'],
            Unit::Mibi => seq!['M', 'i'],
            Unit::Gibi => seq!['G', 'i'],
            Unit::Tibi => seq!['T', 'i'],
        }
    }

    /// The letters that stand for the unit in a size's text.
    pub fn prefix(&self) -> (text: &'static str)
        ensures
            text@ == self.spec_prefix(),
    {
        proof {
            reveal_strlit("");
            reveal_strlit("K");
            reveal_strlit("M");
            reveal_strlit("G");
            reveal_strlit("T");
            reveal_strlit("Ki");
            reveal_strlit("Mi");
            reveal_strlit("Gi");
            reveal_strlit("Ti");
        }
        let text = match self {
            Unit::Abs => "",
            Unit::Kilo => "K",
            Unit::Mega => "M",
            Unit::Giga => "G",
            Unit::Tera => "T",
            Unit::Kibi => "Ki",
            Unit::Mibi => "Mi",
            Unit::Gibi => "Gi",
            Unit::Tibi => "Ti",
        };
        assert(text@ =~= self.spec_prefix());
        text
    }
}

/// The measurement base of a size: single bits, or bytes of eight bits.
#[derive(Clone, Copy, Debug, PartialEq, Eq, Structural)]
pub enum Base {
    Bit,
    Byte,
}

impl Base {
    /// How many bits one of the base holds.
    pub open spec fn spec_bits(self) -> nat {
        match self {
            Base::Bit => 1,
            Base::Byte => 8,
        }
    }

    /// How many bits one of the base holds.
    pub fn bits(&self) -> (n: u64)
        ensures
            n == self.spec_bits(),
    {
        match self {
            Base::Bit => 1,
            Base::Byte => 8,
        }
    }

    /// The letter that stands for the base in a size's text.
    pub open spec fn spec_suffix(self) -> Seq<char> {
        match self {
            Base::Bit => seq!['b'],
            Base::Byte => seq!['B'],
        }
    }

    /// The letter that stands for the base in a size's text.
    pub fn suffix(&self) -> (text: &'static str)
        ensures
            text@ == self.spec_suffix(),
    {
        proof {
            reveal_strlit("b");
            reveal_strlit("B");
        }
        let text = match self {
            Base::Bit => "b",
            Base::Byte => "B",
        };
        assert(text@ =~= self.spec_suffix());
        text
    }
}

/// The magnitude of a size.
#[derive(Debug)]
pub enum Value {
    /// A whole count.
    Int(u64),
    /// A number that may have digits behind the point. It is kept as an
    /// exact decimal of any length, and is not rounded to a binary fraction.
    Float(Decimal),
}

/// The whole number `numer / pow10(scale)` in hexadecimal digits, where the
/// quotient is whole and a `u64` holds it; otherwise the number in decimal
/// digits.
pub open spec fn hex_or_decimal_text(numer: nat, scale: nat) -> Seq<char> {
    if numer % pow10(scale) == 0 && numer / pow10(scale) <= u64::MAX {
        hex_text(numer / pow10(scale))
    } else {
        decimal_text(numer, scale)
    }
}

impl Value {
    /// The numerator: the magnitude is `numer() / pow10(scale())`.
    pub open spec fn numer(self) -> nat {
        match self {
            Value::Int(n) => n as nat,
            Value::Float(d) => d.numer(),
        }
    }

    /// The scale: the magnitude is `numer() / pow10(scale())`.
    pub open spec fn scale(self) -> nat {
        match self {
            Value::Int(_) => 0,
            Value::Float(d) => d.scale(),
        }
    }

    /// The magnitude as a decimal number.
    pub fn into_decimal(self) -> (d: Decimal)
        ensures
            d.numer() == self.numer(),
            d.scale() == self.scale(),
    {
        match self {
            Value::Int(n) => Decimal::from_u64(n),
            Value::Float(d) => d,
        }
    }

    /// The magnitude in decimal digits.
    pub fn text(&self) -> (out: String)
        ensures
            out@ == decimal_text(self.numer(), self.scale()),
    {
        match self {
            Value::Int(n) => Decimal::from_u64(*n).text(),
            Value::Float(d) => d.text(),
        }
    }

    /// The magnitude in hexadecimal digits, where it is a whole number that
    /// a `u64` holds; otherwise the magnitude in decimal digits.
    pub fn hex_text(&self) -> (out: String)
        ensures
            out@ == hex_or_decimal_text(self.numer(), self.scale()),
    {
        let whole = match self {
            Value::Int(n) => Some(*n),
            Value::Float(d) => d.to_u64(),
        };
        proof {
            assert(pow10(0) == 1);
            if self is Int {
                assert(self.numer() % 1 == 0 && self.numer() / 1 == self.numer());
            }
        }
        match whole {
            Some(n) => {
                let mut out = String::new();
                push_hex(&mut out, n);
                assert(out@ =~= hex_text(n as nat));
                out
            },
            None => self.text(),
        }
    }
}

/// A size: so many times a unit of a base.
#[derive(Debug)]
pub struct Size {
    pub value: Value,
    pub unit: Unit,
    pub base: Base,
}

impl Size {
    /// The size as text: the magnitude in decimal digits, the unit's prefix
    /// and the base's letter.
    pub fn text(&self) -> (out: String)
        ensures
            out@ == decimal_text(self.value.numer(), self.value.scale()) + self.unit.spec_prefix()
                + self.base.spec_suffix(),
    {
        let mut out = self.value.text();
        out.append(self.unit.prefix());
        out.append(self.base.suffix());
        out
    }

    /// The magnitude of the size in hexadecimal digits, where it is a whole
    /// number that a `u64` holds; otherwise the magnitude in decimal digits.
    pub fn hex_text(&self) -> (out: String)
        ensures
            out@ == hex_or_decimal_text(self.value.numer(), self.value.scale()),
    {
        self.value.hex_text()
    }
}

/// Whether a conversion from `from` to `to` turns bits into bytes.
pub open spec fn packs(from: Base, to: Base) -> bool {
    from == Base::Bit && to == Base::Byte
}

/// Whether a conversion from `from` to `to` turns bytes into bits.
pub open spec fn unpacks(from: Base, to: Base) -> bool {
    from == Base::Byte && to == Base::Bit
}

/// By what a conversion multiplies: the multiplier of the unit it starts
/// from, and eight where bytes become bits.
pub open spec fn gain(from_unit: Unit, from_base: Base, to_base: Base) -> nat {
    from_unit.spec_mult() * if unpacks(from_base, to_base) {
        8nat
    } else {
        1nat
    }
}

/// By what a conversion divides: the multiplier of the unit it goes to, and
/// eight where bits become bytes.
pub open spec fn loss(from_base: Base, to_unit: Unit, to_base: Base) -> nat {
    to_unit.spec_mult() * if packs(from_base, to_base) {
        8nat
    } else {
        1nat
    }
}

/// The numerator of a size in bits: the magnitude times the unit's
/// multiplier, and times eight for bytes. The scale stays.
pub open spec fn bits_numer(numer: nat, unit: Unit, base: Base) -> nat {
    numer * (unit.spec_mult() * base.spec_bits())
}

/// The numerator of a size in bytes: the magnitude times the unit's
/// multiplier, and for bits divided by eight, which is a multiplication by
/// 125 with the point moved three places to the left.
pub open spec fn bytes_numer(numer: nat, unit: Unit, base: Base) -> nat {
    numer * (unit.spec_mult() * if base == Base::Bit {
        125nat
    } else {
        1nat
    })
}

/// The scale of a size in bytes.
pub open spec fn bytes_scale(scale: nat, base: Base) -> nat {
    scale + if base == Base::Bit {
        3nat
    } else {
        0nat
    }
}

/// Eight times a size in bytes is the size in bits.
pub proof fn lemma_eight_bits_a_byte(numer: nat, scale: nat, unit: Unit, base: Base)
    ensures
        same_number(
            bytes_numer(numer, unit, base) * 8,
            bytes_scale(scale, base),
            bits_numer(numer, unit, base),
            scale,
        ),
{
    let m = unit.spec_mult();
    let p = pow10(scale);
    reveal_with_fuel(pow10, 4);
    lemma_pow10_sum(scale, 3);
    lemma_pow10_sum(scale, 0);
    if base == Base::Bit {
        assert((numer * (m * 125) * 8) * p == (numer * (m * 1)) * (p * 1000)) by (nonlinear_arith);
    } else {
        assert((numer * (m * 1) * 8) * p == (numer * (m * 8)) * (p * 1)) by (nonlinear_arith);
    }
}

/// The numerator of a converted magnitude: that of the size in bits or in
/// bytes, divided by the multiplier of the unit it goes to, which is a
/// multiplication by the reciprocal with the point moved to the left.
pub open spec fn converted_numer(
    numer: nat,
    from_unit: Unit,
    from_base: Base,
    to_unit: Unit,
    to_base: Base,
) -> nat {
    match to_base {
        Base::Bit => bits_numer(numer, from_unit, from_base) * to_unit.spec_reciprocal(),
        Base::Byte => bytes_numer(numer, from_unit, from_base) * to_unit.spec_reciprocal(),
    }
}

/// The scale of a converted magnitude.
pub open spec fn converted_scale(scale: nat, from_base: Base, to_unit: Unit, to_base: Base) -> nat {
    match to_base {
        Base::Bit => scale + to_unit.spec_places(),
        Base::Byte => bytes_scale(scale, from_base) + to_unit.spec_places(),
    }
}

/// A converted magnitude is the magnitude times the conversion's gain,
/// divided by its loss.
pub proof fn lemma_converted_ratio(
    numer: nat,
    scale: nat,
    from_unit: Unit,
    from_base: Base,
    to_unit: Unit,
    to_base: Base,
)
    ensures
        converted_numer(numer, from_unit, from_base, to_unit, to_base) * loss(
            from_base,
            to_unit,
            to_base,
        ) * pow10(scale) == numer * gain(from_unit, from_base, to_base) * pow10(
            converted_scale(scale, from_base, to_unit, to_base),
        ),
{
    let f = from_unit.spec_mult();
    let r = to_unit.spec_reciprocal();
    let m = to_unit.spec_mult();
    let places = to_unit.spec_places();
    // what the size is multiplied by, what that divides by, and the places
    // that the division takes
    let (k, e, extra): (nat, nat, nat) = if packs(from_base, to_base) {
        (125nat, 8nat, 3nat)
    } else if unpacks(from_base, to_base) {
        (8nat, 1nat, 0nat)
    } else {
        (1nat, 1nat, 0nat)
    };
    let up: nat = if unpacks(from_base, to_base) {
        8
    } else {
        1
    };
    to_unit.lemma_reciprocal();
    reveal_with_fuel(pow10, 4);
    assert(k * e == up * pow10(extra));
    lemma_pow10_sum(scale, extra);
    lemma_pow10_sum(scale + extra, places);
    let p = pow10(scale);
    let q = pow10(places);
    let x = pow10(extra);
    let c = converted_numer(numer, from_unit, from_base, to_unit, to_base);
    let l = loss(from_base, to_unit, to_base);
    let g = gain(from_unit, from_base, to_base);
    let tens = pow10(converted_scale(scale, from_base, to_unit, to_base));
    assert(c == (numer * (f * k)) * r);
    assert(l == m * e);
    assert(g == f * up);
    assert(tens == p * x * q);
    let a = numer * f;
    let ke = k * e;
    let rm = r * m;
    assert(rm == q);
    assert(ke == up * x);
    assert(c == (a * k) * r) by (nonlinear_arith)
        requires
            c == (numer * (f * k)) * r,
            a == numer * f,
    ;
    assert(c * l == a * (ke * rm)) by (nonlinear_arith)
        requires
            c == (a * k) * r,
            l == m * e,
            ke == k * e,
            rm == r * m,
    ;
    assert(numer * g == a * up) by (nonlinear_arith)
        requires
            g == f * up,
            a == numer * f,
    ;
    assert((a * up) * tens == (a * (ke * rm)) * p) by (nonlinear_arith)
        requires
            tens == p * x * q,
            ke == up * x,
            rm == q,
    ;
}

/// The size in bits: its magnitude times its unit's multiplier, and times
/// eight where it is in bytes.
pub fn to_bits(size: Size) -> (bits: Decimal)
    ensures
        bits.numer() == bits_numer(size.value.numer(), size.unit, size.base),
        bits.scale() == size.value.scale(),
{
    let factor: u64 = size.unit.mult() * size.base.bits();
    size.value.into_decimal().scaled(factor as u128, 0)
}

/// The size in bytes: its magnitude times its unit's multiplier, and
/// divided by eight where it is in bits.
pub fn to_bytes(size: Size) -> (bytes: Decimal)
    ensures
        bytes.numer() == bytes_numer(size.value.numer(), size.unit, size.base),
        bytes.scale() == bytes_scale(size.value.scale(), size.base),
{
    match size.base {
        Base::Bit => {
            let factor: u64 = size.unit.mult() * 125;
            size.value.into_decimal().scaled(factor as u128, 3)
        },
        Base::Byte => {
            let factor: u64 = size.unit.mult();
            size.value.into_decimal().scaled(factor as u128, 0)
        },
    }
}

/// Expresses `size` in another unit and base: the size in bits or in bytes,
/// as the base asked for says, divided by the multiplier of the unit asked
/// for. So the magnitude is multiplied by the multiplier of the unit it
/// had, and by eight where bytes become bits; it is divided by the
/// multiplier of the new unit, and by eight where bits become bytes. The
/// result is exact, also for a part of a bit, and is never a whole count,
/// even where the magnitude given was one.
pub fn convert(size: Size, unit: Unit, base: Base) -> (r: Size)
    ensures
        r.unit == unit,
        r.base == base,
        r.value is Float,
        r.value.numer() == converted_numer(size.value.numer(), size.unit, size.base, unit, base),
        r.value.scale() == converted_scale(size.value.scale(), size.base, unit, base),
        r.value.numer() * loss(size.base, unit, base) * pow10(size.value.scale())
            == size.value.numer() * gain(size.unit, size.base, base) * pow10(r.value.scale()),
{
    proof {
        lemma_converted_ratio(
            size.value.numer(),
            size.value.scale(),
            size.unit,
            size.base,
            unit,
            base,
        );
    }
    let absolute = match base {
        Base::Bit => to_bits(size),
        Base::Byte => to_bytes(size),
    };
    let (reciprocal, places) = unit.reciprocal();
    let value = absolute.scaled(reciprocal, places);
    Size { value: Value::Float(value), unit, base }
}

/// Equal multiples of a positive number come from equal numbers.
proof fn lemma_cancel(a: nat, b: nat, c: nat)
    requires
        a * c == b * c,
        c > 0,
    ensures
        a == b,
{
    assert(a == b) by (nonlinear_arith)
        requires
            a * c == b * c,
            c > 0,
    ;
}

/// Two numbers of which the same multiple is the same number times two
/// others are to each other as those two.
proof fn lemma_cross(x: nat, y: nat, k: nat, a: nat, p: nat, q: nat)
    requires
        x * k == a * p,
        y * k == a * q,
        k > 0,
    ensures
        x * q == y * p,
{
    assert((x * q) * k == (x * k) * q) by (nonlinear_arith);
    assert((y * p) * k == (y * k) * p) by (nonlinear_arith);
    assert((a * p) * q == (a * q) * p) by (nonlinear_arith);
    lemma_cancel(x * q, y * p, k);
}

/// A size converted to the unit and base that it has keeps its magnitude,
/// and so its text.
pub proof fn lemma_same_unit_and_base(numer: nat, scale: nat, unit: Unit, base: Base)
    ensures
        same_number(
            converted_numer(numer, unit, base, unit, base),
            converted_scale(scale, base, unit, base),
            numer,
            scale,
        ),
        decimal_text(
            converted_numer(numer, unit, base, unit, base),
            converted_scale(scale, base, unit, base),
        ) == decimal_text(numer, scale),
{
    lemma_converted_ratio(numer, scale, unit, base, unit, base);
    let m = unit.spec_mult();
    let a = converted_numer(numer, unit, base, unit, base) * pow10(scale);
    let b = numer * pow10(converted_scale(scale, base, unit, base));
    assert(a * m == b * m) by (nonlinear_arith)
        requires
            converted_numer(numer, unit, base, unit, base) * (m * 1) * pow10(scale) == numer * (m
                * 1) * pow10(converted_scale(scale, base, unit, base)),
            a == converted_numer(numer, unit, base, unit, base) * pow10(scale),
            b == numer * pow10(converted_scale(scale, base, unit, base)),
    ;
    lemma_cancel(a, b, m);
    lemma_same_number_same_text(
        converted_numer(numer, unit, base, unit, base),
        converted_scale(scale, base, unit, base),
        numer,
        scale,
    );
}

/// A size converted to the bits of a unit and from there to the bytes of
/// that unit has the magnitude, and so the text, that its conversion to
/// those bytes has: eight bits are one byte.
pub proof fn lemma_bits_then_bytes(
    numer: nat,
    scale: nat,
    from_unit: Unit,
    from_base: Base,
    unit: Unit,
)
    ensures
        same_number(
            converted_numer(
                converted_numer(numer, from_unit, from_base, unit, Base::Bit),
                unit,
                Base::Bit,
                unit,
                Base::Byte,
            ),
            converted_scale(
                converted_scale(scale, from_base, unit, Base::Bit),
                Base::Bit,
                unit,
                Base::Byte,
            ),
            converted_numer(numer, from_unit, from_base, unit, Base::Byte),
            converted_scale(scale, from_base, unit, Base::Byte),
        ),
        decimal_text(
            converted_numer(
                converted_numer(numer, from_unit, from_base, unit, Base::Bit),
                unit,
                Base::Bit,
                unit,
                Base::Byte,
            ),
            converted_scale(
                converted_scale(scale, from_base, unit, Base::Bit),
                Base::Bit,
                unit,
                Base::Byte,
            ),
        ) == decimal_text(
            converted_numer(numer, from_unit, from_base, unit, Base::Byte),
            converted_scale(scale, from_base, unit, Base::Byte),
        ),
{
    let n1 = converted_numer(numer, from_unit, from_base, unit, Base::Bit);
    let s1 = converted_scale(scale, from_base, unit, Base::Bit);
    let n2 = converted_numer(n1, unit, Base::Bit, unit, Base::Byte);
    let s2 = converted_scale(s1, Base::Bit, unit, Base::Byte);
    let n3 = converted_numer(numer, from_unit, from_base, unit, Base::Byte);
    let s3 = converted_scale(scale, from_base, unit, Base::Byte);
    let m = unit.spec_mult();
    let f = from_unit.spec_mult();
    // n1 / 10^s1 = numer / 10^scale * g1 / m
    lemma_converted_ratio(numer, scale, from_unit, from_base, unit, Base::Bit);
    // n2 / 10^s2 = n1 / 10^s1 * m / (8 m)
    lemma_converted_ratio(n1, s1, unit, Base::Bit, unit, Base::Byte);
    // n3 / 10^s3 = numer / 10^scale * f / (l3 m)
    lemma_converted_ratio(numer, scale, from_unit, from_base, unit, Base::Byte);
    let g1 = gain(from_unit, from_base, Base::Bit);
    let l3 = loss(from_base, unit, Base::Byte);
    let p = pow10(scale);
    let ten1 = pow10(s1);
    let ten2 = pow10(s2);
    let ten3 = pow10(s3);
    lemma_pow10_positive(scale);
    lemma_pow10_positive(s1);
    assert(n1 * m * p == numer * g1 * ten1);
    assert(n2 * (m * 8) * ten1 == n1 * m * ten2);
    assert(n3 * l3 * p == numer * f * ten3);
    // eight times the second result is the first
    assert((8 * n2 * ten1) * m == (n1 * ten2) * m) by (nonlinear_arith)
        requires
            n2 * (m * 8) * ten1 == n1 * m * ten2,
    ;
    lemma_cancel(8 * n2 * ten1, n1 * ten2, m);
    // in terms of the magnitude that was given
    assert((8 * n2 * m * p) * ten1 == (numer * g1 * ten2) * ten1) by (nonlinear_arith)
        requires
            8 * n2 * ten1 == n1 * ten2,
            n1 * m * p == numer * g1 * ten1,
    ;
    lemma_cancel(8 * n2 * m * p, numer * g1 * ten2, ten1);
    let a = numer * f;
    if from_base == Base::Byte {
        assert(g1 == f * 8);
        assert(l3 == m * 1);
        let k = m * p;
        assert(k > 0) by (nonlinear_arith)
            requires
                k == m * p,
                m > 0,
                p > 0,
        ;
        assert((n2 * k) * 8 == (a * ten2) * 8) by (nonlinear_arith)
            requires
                8 * n2 * m * p == numer * (f * 8) * ten2,
                k == m * p,
                a == numer * f,
        ;
        assert(n3 * k == a * ten3) by (nonlinear_arith)
            requires
                n3 * (m * 1) * p == numer * f * ten3,
                k == m * p,
                a == numer * f,
        ;
        lemma_cross(n2, n3, k, a, ten2, ten3);
    } else {
        assert(g1 == f * 1);
        assert(l3 == m * 8);
        let k = 8 * m * p;
        assert(k > 0) by (nonlinear_arith)
            requires
                k == 8 * m * p,
                m > 0,
                p > 0,
        ;
        assert(n2 * k == a * ten2) by (nonlinear_arith)
            requires
                8 * n2 * m * p == numer * (f * 1) * ten2,
                k == 8 * m * p,
                a == numer * f,
        ;
        assert(n3 * k == a * ten3) by (nonlinear_arith)
            requires
                n3 * (m * 8) * p == numer * f * ten3,
                k == 8 * m * p,
                a == numer * f,
        ;
        lemma_cross(n2, n3, k, a, ten2, ten3);
    }
    lemma_same_number_same_text(n2, s2, n3, s3);
}

} // verus!
