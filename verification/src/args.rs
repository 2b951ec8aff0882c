//! The grammar of a size's text: a number, then the letters of a unit and of
//! a base.
use vstd::prelude::*;
use crate::convert::{
    convert, converted_numer, converted_scale, hex_or_decimal_text, lemma_same_unit_and_base,
    Base, Size, Unit, Value,
};
use crate::decimal::Decimal;
use crate::digits::pow10;
use crate::numeral::{
    count_points, decimal_text, digit_value, is_number_char, is_numeral, numeral_numer,
    numeral_scale, same_number,
};

verus! {

/// Why the letters behind a number name no unit and base.
#[derive(Clone, Copy, Debug, PartialEq, Eq, Structural)]
pub enum ParseError {
    /// The letters neither begin with a unit's prefix nor are a bare base.
    InvalidUnit,
    /// The letters begin with a unit's prefix and end in no base.
    InvalidBase,
}

impl ParseError {
    /// What to tell the user.
    pub open spec fn spec_message(self) -> Seq<char> {
        match self {
            ParseError::InvalidUnit => "Invalid unit"@,
            ParseError::InvalidBase => "Invalid base"@,
        }
    }

    /// What to tell the user.
    pub fn message(&self) -> (text: &'static str)
        ensures
            text@ == self.spec_message(),
    {
        match self {
            ParseError::InvalidUnit => "Invalid unit",
            ParseError::InvalidBase => "Invalid base",
        }
    }
}

/// Whether `s` begins with the character `c`.
pub open spec fn begins_with(s: Seq<char>, c: char) -> bool {
    s.len() >= 1 && s[0] == c
}

/// Whether `s` begins with the character `c` followed by an `i`.
pub open spec fn begins_with_binary(s: Seq<char>, c: char) -> bool {
    s.len() >= 2 && s[0] == c && s[1] == 'i'
}

/// Whether the character `back` places before the end of `s` is the letter
/// `lower` in either case; `upper` is its capital.
pub open spec fn letter_from_end(s: Seq<char>, back: int, lower: char, upper: char) -> bool {
    s.len() >= back && (s[s.len() - back] == lower || s[s.len() - back] == upper)
}

/// Whether `s` ends with the character `c`.
pub open spec fn ends_with(s: Seq<char>, c: char) -> bool {
    s.len() >= 1 && s[s.len() - 1] == c
}

/// Whether `s` ends with the word `bits`, in any mix of cases.
pub open spec fn ends_with_bits(s: Seq<char>) -> bool {
    &&& letter_from_end(s, 4, 'b', 'B')
    &&& letter_from_end(s, 3, 'i', 'I')
    &&& letter_from_end(s, 2, 't', 'T')
    &&& letter_from_end(s, 1, 's', 'S')
}

/// Whether `s` ends with the word `bytes`, in any mix of cases.
pub open spec fn ends_with_bytes(s: Seq<char>) -> bool {
    &&& letter_from_end(s, 5, 'b', 'B')
    &&& letter_from_end(s, 4, 'y', 'Y')
    &&& letter_from_end(s, 3, 't', 'T')
    &&& letter_from_end(s, 2, 'e', 'E')
    &&& letter_from_end(s, 1, 's', 'S')
}

/// The unit that the letters `s` name: the first of these that applies. A
/// binary prefix at the start; a decimal prefix at the start; no unit, where
/// `s` is empty or ends in a base.
pub open spec fn unit_of(s: Seq<char>) -> Option<Unit> {
    if begins_with_binary(s, 'K') {
        Some(Unit::Kibi)
    } else if begins_with_binary(s, 'M') {
        Some(Unit::Mibi)
    } else if begins_with_binary(s, 'G') {
        Some(Unit::Gibi)
    } else if begins_with_binary(s, 'T') {
        Some(Unit::Tibi)
    } else if begins_with(s, 'K') {
        Some(Unit::Kilo)
    } else if begins_with(s, 'M') {
        Some(Unit::Mega)
    } else if begins_with(s, 'G') {
        Some(Unit::Giga)
    } else if begins_with(s, 'T') {
        Some(Unit::Tera)
    } else if s.len() == 0 || ends_with(s, 'b') || ends_with(s, 'B') || ends_with_bits(s)
        || ends_with_bytes(s) {
        Some(Unit::Abs)
    } else {
        None
    }
}

/// The base that the letters `s` name: bits, where `s` ends in `b` or in
/// `bits`; else bytes, where `s` is empty or ends in `B` or in `bytes`.
pub open spec fn base_of(s: Seq<char>) -> Option<Base> {
    if ends_with(s, 'b') || ends_with_bits(s) {
        Some(Base::Bit)
    } else if s.len() == 0 || ends_with(s, 'B') || ends_with_bytes(s) {
        Some(Base::Byte)
    } else {
        None
    }
}

/// The unit and the base that the letters `s` name. The unit is looked for
/// first, so letters that name neither are an invalid unit.
pub open spec fn unit_base_of(s: Seq<char>) -> Result<(Unit, Base), ParseError> {
    match unit_of(s) {
        None => Err(ParseError::InvalidUnit),
        Some(unit) => match base_of(s) {
            None => Err(ParseError::InvalidBase),
            Some(base) => Ok((unit, base)),
        },
    }
}

/// Whether `m` is a way to write bits: the letter `b`, or the word `bits` in
/// any mix of cases.
pub open spec fn is_bit_marker(m: Seq<char>) -> bool {
    (m.len() == 1 && m[0] == 'b') || (m.len() == 4 && ends_with_bits(m))
}

/// Whether `m` is a way to write bytes: the letter `B`, or the word `bytes`
/// in any mix of cases.
pub open spec fn is_byte_marker(m: Seq<char>) -> bool {
    (m.len() == 1 && m[0] == 'B') || (m.len() == 5 && ends_with_bytes(m))
}

/// Whether `m` is a way to write `base`.
pub open spec fn is_marker_of(m: Seq<char>, base: Base) -> bool {
    match base {
        Base::Bit => is_bit_marker(m),
        Base::Byte => is_byte_marker(m),
    }
}

/// The prefix of any unit followed by any way to write a base names that
/// unit and that base. The single letters count as written; the words count
/// in any mix of cases.
pub proof fn lemma_prefix_and_marker(unit: Unit, marker: Seq<char>, base: Base)
    requires
        is_marker_of(marker, base),
    ensures
        unit_base_of(unit.spec_prefix() + marker) == Ok::<(Unit, Base), ParseError>((unit, base)),
{
    let s = unit.spec_prefix() + marker;
    let p = unit.spec_prefix().len() as int;
    assert(s.len() == p + marker.len());
    assert(forall|i: int| 0 <= i < p ==> s[i] == unit.spec_prefix()[i]);
    assert(forall|i: int| 0 <= i < marker.len() ==> s[p + i] == marker[i]);
    assert(s[p] == marker[0]);
    assert(s[s.len() - 1] == marker[marker.len() - 1]);
    if marker.len() >= 4 {
        assert(s[s.len() - 2] == marker[marker.len() - 2]);
        assert(s[s.len() - 3] == marker[marker.len() - 3]);
        assert(s[s.len() - 4] == marker[marker.len() - 4]);
    }
    if marker.len() >= 5 {
        assert(s[s.len() - 5] == marker[marker.len() - 5]);
    }
}

/// No letters at all name no unit and bytes.
pub proof fn lemma_no_letters()
    ensures
        unit_base_of(Seq::<char>::empty()) == Ok::<(Unit, Base), ParseError>(
            (Unit::Abs, Base::Byte),
        ),
{
}

/// A unit's prefix with no base behind it is refused for its base.
pub proof fn lemma_prefix_alone(unit: Unit)
    requires
        unit != Unit::Abs,
    ensures
        unit_base_of(unit.spec_prefix()) == Err::<(Unit, Base), ParseError>(
            ParseError::InvalidBase,
        ),
{
}

/// Letters are refused for their base only behind a unit's prefix: letters
/// that name no unit at all end in a base, or are refused for their unit.
pub proof fn lemma_invalid_base_has_prefix(s: Seq<char>)
    requires
        unit_base_of(s) == Err::<(Unit, Base), ParseError>(ParseError::InvalidBase),
    ensures
        unit_of(s) is Some,
        unit_of(s) != Some(Unit::Abs),
{
}

/// Whether `s`, of `len` characters, holds at least `back` of them and has
/// `lower` or `upper` at that place before its end.
fn has_letter_from_end(s: &str, len: usize, back: usize, lower: char, upper: char) -> (found: bool)
    requires
        len == s@.len(),
        back >= 1,
    ensures
        found == letter_from_end(s@, back as int, lower, upper),
{
    if len < back {
        false
    } else {
        let c = s.get_char(len - back);
        c == lower || c == upper
    }
}

/// Whether `s`, of `len` characters, ends with `c`.
fn has_last(s: &str, len: usize, c: char) -> (found: bool)
    requires
        len == s@.len(),
    ensures
        found == ends_with(s@, c),
{
    len >= 1 && s.get_char(len - 1) == c
}

/// Whether `s`, of `len` characters, ends with the word `bits`.
fn has_bits(s: &str, len: usize) -> (found: bool)
    requires
        len == s@.len(),
    ensures
        found == ends_with_bits(s@),
{
    has_letter_from_end(s, len, 4, 'b', 'B') && has_letter_from_end(s, len, 3, 'i', 'I')
        && has_letter_from_end(s, len, 2, 't', 'T') && has_letter_from_end(s, len, 1, 's', 'S')
}

/// Whether `s`, of `len` characters, ends with the word `bytes`.
fn has_bytes(s: &str, len: usize) -> (found: bool)
    requires
        len == s@.len(),
    ensures
        found == ends_with_bytes(s@),
{
    has_letter_from_end(s, len, 5, 'b', 'B') && has_letter_from_end(s, len, 4, 'y', 'Y')
        && has_letter_from_end(s, len, 3, 't', 'T') && has_letter_from_end(s, len, 2, 'e', 'E')
        && has_letter_from_end(s, len, 1, 's', 'S')
}

/// The unit that the letters `s`, of `len` characters, name.
fn read_unit(s: &str, len: usize) -> (unit: Option<Unit>)
    requires
        len == s@.len(),
    ensures
        unit == unit_of(s@),
{
    if len >= 1 {
        let first = s.get_char(0);
        let binary = len >= 2 && s.get_char(1) == 'i';
        if first == 'K' {
            return Some(if binary { Unit::Kibi } else { Unit::Kilo });
        } else if first == 'M' {
            return Some(if binary { Unit::Mibi } else { Unit::Mega });
        } else if first == 'G' {
            return Some(if binary { Unit::Gibi } else { Unit::Giga });
        } else if first == 'T' {
            return Some(if binary { Unit::Tibi } else { Unit::Tera });
        }
    }
    if len == 0 || has_last(s, len, 'b') || has_last(s, len, 'B') || has_bits(s, len) || has_bytes(
        s,
        len,
    ) {
        Some(Unit::Abs)
    } else {
        None
    }
}

/// The base that the letters `s`, of `len` characters, name.
fn read_base(s: &str, len: usize) -> (base: Option<Base>)
    requires
        len == s@.len(),
    ensures
        base == base_of(s@),
{
    if has_last(s, len, 'b') || has_bits(s, len) {
        Some(Base::Bit)
    } else if len == 0 || has_last(s, len, 'B') || has_bytes(s, len) {
        Some(Base::Byte)
    } else {
        None
    }
}

/// Reads the unit and the base from the letters that follow a number. The
/// letters are gone through twice, once for each, since a unit's prefix and a
/// base may be the same letters.
pub fn parse_unit_base(s: &str) -> (r: Result<(Unit, Base), ParseError>)
    ensures
        r == unit_base_of(s@),
{
    let len: usize = s.unicode_len();
    let unit = match read_unit(s, len) {
        Some(unit) => unit,
        None => {
            return Err(ParseError::InvalidUnit);
        },
    };
    let base = match read_base(s, len) {
        Some(base) => base,
        None => {
            return Err(ParseError::InvalidBase);
        },
    };
    Ok((unit, base))
}

/// Where the number at the start of `s` ends: the place of the first
/// character that is neither a decimal digit nor a point, or the length of
/// `s` where it holds no such character.
pub open spec fn number_end(s: Seq<char>) -> nat
    decreases s.len(),
{
    if s.len() == 0 || !is_number_char(s[0]) {
        0
    } else {
        1 + number_end(s.drop_first())
    }
}

/// The number of `s` ends within `s`; before its end stand only digits and
/// points, and at its end stands neither.
pub proof fn lemma_number_end(s: Seq<char>)
    ensures
        number_end(s) <= s.len(),
        forall|i: int| 0 <= i < number_end(s) ==> is_number_char(s[i]),
        number_end(s) < s.len() ==> !is_number_char(s[number_end(s) as int]),
    decreases s.len(),
{
    if s.len() > 0 && is_number_char(s[0]) {
        let rest = s.drop_first();
        lemma_number_end(rest);
        assert forall|i: int| 0 <= i < number_end(s) implies is_number_char(s[i]) by {
            if i > 0 {
                assert(s[i] == rest[i - 1]);
            }
        }
        if number_end(s) < s.len() {
            assert(s[number_end(s) as int] == rest[number_end(rest) as int]);
        }
    }
}

/// The number at the start of the size `s`: its digits and points.
pub open spec fn number_of(s: Seq<char>) -> Seq<char> {
    s.take(number_end(s) as int)
}

/// The letters of the size `s`: what follows its number.
pub open spec fn letters_of(s: Seq<char>) -> Seq<char> {
    s.skip(number_end(s) as int)
}

/// The numerator of the magnitude that the number `number` of a size
/// writes. Without a point it is a whole count, which is zero where the
/// digits are missing or write more than a `u64` holds. With a point it is
/// zero where `number` is no numeral.
pub open spec fn magnitude_numer(number: Seq<char>) -> nat {
    if !is_numeral(number) {
        0
    } else if count_points(number) == 0 && numeral_numer(number) > u64::MAX {
        0
    } else {
        numeral_numer(number)
    }
}

/// The scale of the magnitude that the number `number` of a size writes.
pub open spec fn magnitude_scale(number: Seq<char>) -> nat {
    if is_numeral(number) {
        numeral_scale(number)
    } else {
        0
    }
}

/// Where digits and points are followed by nothing, or by a character that
/// is neither, the number ends where they end.
pub proof fn lemma_number_then_letters(number: Seq<char>, letters: Seq<char>)
    requires
        forall|i: int| 0 <= i < number.len() ==> is_number_char(number[i]),
        letters.len() == 0 || !is_number_char(letters[0]),
    ensures
        number_end(number + letters) == number.len(),
        (number + letters).take(number.len() as int) == number,
        (number + letters).skip(number.len() as int) == letters,
    decreases number.len(),
{
    let s = number + letters;
    assert(s.take(number.len() as int) =~= number);
    assert(s.skip(number.len() as int) =~= letters);
    if number.len() == 0 {
        assert(s =~= letters);
    } else {
        assert(s[0] == number[0]);
        assert(s.drop_first() =~= number.drop_first() + letters);
        lemma_number_then_letters(number.drop_first(), letters);
    }
}

/// Digits and points, then the prefix of a unit, then a way to write a base
/// are read as that number of that unit and base, and the size converted to
/// that unit and base has the same magnitude, and so the same text. The
/// base may be missing where the unit's prefix is empty: that means bytes.
pub proof fn lemma_round_trip(number: Seq<char>, unit: Unit, marker: Seq<char>, base: Base)
    requires
        forall|i: int| 0 <= i < number.len() ==> is_number_char(number[i]),
        is_marker_of(marker, base) || (marker.len() == 0 && unit == Unit::Abs && base
            == Base::Byte),
    ensures
        ({
            let token = number + (unit.spec_prefix() + marker);
            let numer = magnitude_numer(number);
            let scale = magnitude_scale(number);
            &&& number_of(token) == number
            &&& unit_base_of(letters_of(token)) == Ok::<(Unit, Base), ParseError>((unit, base))
            &&& same_number(
                converted_numer(numer, unit, base, unit, base),
                converted_scale(scale, base, unit, base),
                numer,
                scale,
            )
            &&& decimal_text(
                converted_numer(numer, unit, base, unit, base),
                converted_scale(scale, base, unit, base),
            ) == decimal_text(numer, scale)
        }),
{
    let letters = unit.spec_prefix() + marker;
    if marker.len() == 0 {
        lemma_no_letters();
        assert(letters =~= Seq::<char>::empty());
    } else {
        lemma_prefix_and_marker(unit, marker, base);
        if unit.spec_prefix().len() > 0 {
            assert(letters[0] == unit.spec_prefix()[0]);
        } else {
            assert(letters[0] == marker[0]);
        }
    }
    lemma_number_then_letters(number, letters);
    lemma_same_unit_and_base(magnitude_numer(number), magnitude_scale(number), unit, base);
}

/// Where the number at the start of `s`, of `len` characters, ends, and
/// whether it holds a point.
fn read_number_end(s: &str, len: usize) -> (r: (usize, bool))
    requires
        len == s@.len(),
    ensures
        r.0 == number_end(s@),
        r.1 == (count_points(number_of(s@)) > 0),
{
    let mut end: usize = 0;
    let mut pointed: bool = false;
    let mut more: bool = true;
    assert(s@.skip(0) =~= s@);
    assert(s@.take(0) =~= Seq::<char>::empty());
    while more && end < len
        invariant
            end <= len == s@.len(),
            number_end(s@) == end + number_end(s@.skip(end as int)),
            !more ==> end < len && !is_number_char(s@[end as int]),
            pointed == (count_points(s@.take(end as int)) > 0),
        decreases len - end + if more { 1nat } else { 0nat },
    {
        let c = s.get_char(end);
        proof {
            let rest = s@.skip(end as int);
            assert(rest[0] == c);
            assert(rest.drop_first() =~= s@.skip(end + 1));
            let longer = s@.take(end + 1);
            assert(longer.drop_last() =~= s@.take(end as int));
            assert(longer.last() == c);
        }
        if c == '.' {
            pointed = true;
            end += 1;
        } else if digit_value(c).is_some() {
            end += 1;
        } else {
            more = false;
        }
    }
    (end, pointed)
}

/// The magnitude that the number `number` of a size writes; `pointed` says
/// whether it holds a point.
fn read_value(number: &str, pointed: bool) -> (value: Value)
    requires
        pointed == (count_points(number@) > 0),
    ensures
        value is Float <==> pointed,
        value.numer() == magnitude_numer(number@),
        value.scale() == magnitude_scale(number@),
{
    assert(pow10(0) == 1);
    match Decimal::parse(number) {
        Some(d) => {
            if pointed {
                Value::Float(d)
            } else {
                match d.to_u64() {
                    Some(n) => Value::Int(n),
                    None => Value::Int(0),
                }
            }
        },
        None => {
            if pointed {
                Value::Float(Decimal::zero())
            } else {
                Value::Int(0)
            }
        },
    }
}

/// Reads a size from its text: a number, then the letters of a unit and a
/// base. The number is a whole count, or with a point a decimal that is kept
/// as written. It never makes the text invalid: a number that cannot be read
/// is zero. The letters may.
pub fn parse_size(s: &str) -> (r: Result<Size, ParseError>)
    ensures
        match r {
            Ok(size) => {
                &&& unit_base_of(letters_of(s@)) == Ok::<(Unit, Base), ParseError>(
                    (size.unit, size.base),
                )
                &&& size.value is Float <==> count_points(number_of(s@)) > 0
                &&& size.value.numer() == magnitude_numer(number_of(s@))
                &&& size.value.scale() == magnitude_scale(number_of(s@))
            },
            Err(e) => unit_base_of(letters_of(s@)) == Err::<(Unit, Base), ParseError>(e),
        },
{
    let len: usize = s.unicode_len();
    let (end, pointed) = read_number_end(s, len);
    proof {
        lemma_number_end(s@);
    }
    let number = s.substring_char(0, end);
    let letters = s.substring_char(end, len);
    assert(number@ =~= number_of(s@));
    assert(letters@ =~= letters_of(s@));
    let value = read_value(number, pointed);
    match parse_unit_base(letters) {
        Ok((unit, base)) => Ok(Size { value, unit, base }),
        Err(e) => Err(e),
    }
}

/// What the command line holds.
#[derive(Debug)]
pub struct Args {
    /// Kept for sizes without a base; it changes nothing yet.
    pub bits: bool,
    /// The size to convert.
    pub size: String,
    /// The unit and base to convert it to.
    pub to: Option<String>,
}

/// The line that answers a size and the unit and base asked for. With a unit
/// and base, the converted size as text. With none, `0x` and the size in
/// bytes, in hexadecimal digits where that is a whole number that a `u64`
/// holds. The size is read first, so its letters are refused first.
pub open spec fn output_of(size: Seq<char>, to: Option<Seq<char>>) -> Result<
    Seq<char>,
    ParseError,
> {
    let numer = magnitude_numer(number_of(size));
    let scale = magnitude_scale(number_of(size));
    match unit_base_of(letters_of(size)) {
        Err(e) => Err(e),
        Ok((unit, base)) => match to {
            Some(letters) => match unit_base_of(letters) {
                Err(e) => Err(e),
                Ok((to_unit, to_base)) => Ok(
                    decimal_text(
                        converted_numer(numer, unit, base, to_unit, to_base),
                        converted_scale(scale, base, to_unit, to_base),
                    ) + to_unit.spec_prefix() + to_base.spec_suffix(),
                ),
            },
            None => Ok(
                seq!['0', 'x'] + hex_or_decimal_text(
                    converted_numer(numer, unit, base, Unit::Abs, Base::Byte),
                    converted_scale(scale, base, Unit::Abs, Base::Byte),
                ),
            ),
        },
    }
}

impl Args {
    /// The unit and base asked for, as characters.
    pub open spec fn spec_to(self) -> Option<Seq<char>> {
        match self.to {
            Some(letters) => Some(letters@),
            None => None,
        }
    }

    /// The line to print for these arguments, or why the letters of the size
    /// or of the unit and base asked for are refused.
    pub fn output(&self) -> (r: Result<String, ParseError>)
        ensures
            match r {
                Ok(line) => output_of(self.size@, self.spec_to()) == Ok::<Seq<char>, ParseError>(
                    line@,
                ),
                Err(e) => output_of(self.size@, self.spec_to()) == Err::<Seq<char>, ParseError>(e),
            },
    {
        let size = match parse_size(self.size.as_str()) {
            Ok(size) => size,
            Err(e) => {
                return Err(e);
            },
        };
        match &self.to {
            Some(letters) => {
                let (unit, base) = match parse_unit_base(letters.as_str()) {
                    Ok(pair) => pair,
                    Err(e) => {
                        return Err(e);
                    },
                };
                Ok(convert(size, unit, base).text())
            },
            None => {
                proof {
                    reveal_strlit("0x");
                }
                let mut line = String::from_str("0x");
                let digits = convert(size, Unit::Abs, Base::Byte).hex_text();
                line.append(digits.as_str());
                assert("0x"@ =~= seq!['0', 'x']);
                Ok(line)
            },
        }
    }
}

} // verus!
