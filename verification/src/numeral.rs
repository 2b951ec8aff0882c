//! How numbers are written: the characters of digits, and the text of whole
//! numbers and of decimal fractions.
use vstd::prelude::*;
use crate::digits::{digits_value, lemma_pow10_positive, lemma_pow10_sum, pow10};

verus! {

/// The character that writes the digit `d`: a decimal digit up to nine, a
/// capital letter from ten to fifteen.
pub open spec fn digit_char(d: nat) -> char {
    if d == 0 {
        '0'
    } else if d == 1 {
        '1'
    } else if d == 2 {
        '2'
    } else if d == 3 {
        '3'
    } else if d == 4 {
        '4'
    } else if d == 5 {
        '5'
    } else if d == 6 {
        '6'
    } else if d == 7 {
        '7'
    } else if d == 8 {
        '8'
    } else if d == 9 {
        '9'
    } else if d == 10 {
        'A'
    } else if d == 11 {
        'B'
    } else if d == 12 {
        'C'
    } else if d == 13 {
        'D'
    } else if d == 14 {
        'E'
    } else {
        'F'
    }
}

/// The decimal digit that the character `c` writes, if it writes one.
pub open spec fn digit_of(c: char) -> Option<u8> {
    if c == '0' {
        Some(0u8)
    } else if c == '1' {
        Some(1u8)
    } else if c == '2' {
        Some(2u8)
    } else if c == '3' {
        Some(3u8)
    } else if c == '4' {
        Some(4u8)
    } else if c == '5' {
        Some(5u8)
    } else if c == '6' {
        Some(6u8)
    } else if c == '7' {
        Some(7u8)
    } else if c == '8' {
        Some(8u8)
    } else if c == '9' {
        Some(9u8)
    } else {
        None
    }
}

/// The whole number `n` in decimal digits, without leading zeros.
pub open spec fn whole_text(n: nat) -> Seq<char>
    decreases n,
{
    if n < 10 {
        seq![digit_char(n)]
    } else {
        whole_text(n / 10).push(digit_char(n % 10))
    }
}

/// The whole number `n` in hexadecimal digits, the letters in capitals,
/// without leading zeros.
pub open spec fn hex_text(n: nat) -> Seq<char>
    decreases n,
{
    if n < 16 {
        seq![digit_char(n)]
    } else {
        hex_text(n / 16).push(digit_char(n % 16))
    }
}

/// The last `width` decimal digits of `f`, with leading zeros where `f` is
/// short.
pub open spec fn fraction_text(f: nat, width: nat) -> Seq<char>
    decreases width,
{
    if width == 0 {
        seq![]
    } else {
        fraction_text(f / 10, (width - 1) as nat).push(digit_char(f % 10))
    }
}

/// The number `numer / pow10(scale)` in decimal digits: its whole part, then,
/// unless the number is whole, a point and the digits behind it up to the
/// last that is not zero.
pub open spec fn decimal_text(numer: nat, scale: nat) -> Seq<char>
    decreases scale,
{
    if scale == 0 {
        whole_text(numer)
    } else if numer % 10 == 0 {
        decimal_text(numer / 10, (scale - 1) as nat)
    } else {
        whole_text(numer / pow10(scale)) + seq!['.'] + fraction_text(numer % pow10(scale), scale)
    }
}

/// The decimal digits that `s` holds, in their order; its other characters
/// are left out.
pub open spec fn written_digits(s: Seq<char>) -> Seq<u8>
    decreases s.len(),
{
    if s.len() == 0 {
        seq![]
    } else {
        match digit_of(s.last()) {
            Some(d) => written_digits(s.drop_last()).push(d),
            None => written_digits(s.drop_last()),
        }
    }
}

/// How many points `s` holds.
pub open spec fn count_points(s: Seq<char>) -> nat
    decreases s.len(),
{
    if s.len() == 0 {
        0
    } else if s.last() == '.' {
        count_points(s.drop_last()) + 1
    } else {
        count_points(s.drop_last())
    }
}

/// How many characters of `s` stand behind its last point, or in `s` where
/// it has none.
pub open spec fn count_behind_point(s: Seq<char>) -> nat
    decreases s.len(),
{
    if s.len() == 0 || s.last() == '.' {
        0
    } else {
        count_behind_point(s.drop_last()) + 1
    }
}

/// Whether `c` may stand in a number: a decimal digit or a point.
pub open spec fn is_number_char(c: char) -> bool {
    digit_of(c) is Some || c == '.'
}

/// Whether `s` writes a number: decimal digits, at least one, with at most
/// one point before, between or behind them.
pub open spec fn is_numeral(s: Seq<char>) -> bool {
    &&& forall|i: int| 0 <= i < s.len() ==> is_number_char(s[i])
    &&& count_points(s) <= 1
    &&& written_digits(s).len() >= 1
}

/// The numerator of the number that the numeral `s` writes: its digits read
/// as one whole number.
pub open spec fn numeral_numer(s: Seq<char>) -> nat {
    digits_value(written_digits(s))
}

/// The scale of the number that the numeral `s` writes: the count of its
/// digits behind the point.
pub open spec fn numeral_scale(s: Seq<char>) -> nat {
    if count_points(s) == 0 {
        0
    } else {
        count_behind_point(s)
    }
}

/// A part of `s` from its start holds no more points than `s`.
pub proof fn lemma_count_points_grows(s: Seq<char>, k: int)
    requires
        0 <= k <= s.len(),
    ensures
        count_points(s.take(k)) <= count_points(s),
    decreases s.len(),
{
    if k < s.len() {
        assert(s.take(k) =~= s.drop_last().take(k));
        lemma_count_points_grows(s.drop_last(), k);
    } else {
        assert(s.take(k) =~= s);
    }
}

/// Whether `n1 / pow10(s1)` and `n2 / pow10(s2)` are the same number.
pub open spec fn same_number(n1: nat, s1: nat, n2: nat, s2: nat) -> bool {
    n1 * pow10(s2) == n2 * pow10(s1)
}

/// A number has one text, however it is written as a numerator and a scale.
pub proof fn lemma_same_number_same_text(n1: nat, s1: nat, n2: nat, s2: nat)
    requires
        same_number(n1, s1, n2, s2),
    ensures
        decimal_text(n1, s1) == decimal_text(n2, s2),
    decreases s1 + s2,
{
    lemma_pow10_positive(s1);
    lemma_pow10_positive(s2);
    if s1 > 0 && n1 % 10 == 0 {
        let m1 = n1 / 10;
        let q = pow10((s1 - 1) as nat);
        assert(m1 * pow10(s2) == n2 * q) by (nonlinear_arith)
            requires
                n1 == 10 * m1,
                pow10(s1) == 10 * q,
                n1 * pow10(s2) == n2 * pow10(s1),
        ;
        lemma_same_number_same_text(m1, (s1 - 1) as nat, n2, s2);
    } else if s2 > 0 && n2 % 10 == 0 {
        let m2 = n2 / 10;
        let q = pow10((s2 - 1) as nat);
        assert(n1 * q == m2 * pow10(s1)) by (nonlinear_arith)
            requires
                n2 == 10 * m2,
                pow10(s2) == 10 * q,
                n1 * pow10(s2) == n2 * pow10(s1),
        ;
        lemma_same_number_same_text(n1, s1, m2, (s2 - 1) as nat);
    } else if s1 == s2 {
        assert(n1 == n2) by (nonlinear_arith)
            requires
                n1 * pow10(s2) == n2 * pow10(s1),
                pow10(s1) == pow10(s2),
                pow10(s1) >= 1,
        ;
    } else if s1 < s2 {
        let d = (s2 - s1) as nat;
        lemma_pow10_sum(s1, d);
        let q = pow10((d - 1) as nat);
        assert(n2 == 10 * (n1 * q)) by (nonlinear_arith)
            requires
                n1 * pow10(s2) == n2 * pow10(s1),
                pow10(s2) == pow10(s1) * pow10(d),
                pow10(d) == 10 * q,
                pow10(s1) >= 1,
        ;
        assert(false);
    } else {
        let d = (s1 - s2) as nat;
        lemma_pow10_sum(s2, d);
        let q = pow10((d - 1) as nat);
        assert(n1 == 10 * (n2 * q)) by (nonlinear_arith)
            requires
                n1 * pow10(s2) == n2 * pow10(s1),
                pow10(s1) == pow10(s2) * pow10(d),
                pow10(d) == 10 * q,
                pow10(s2) >= 1,
        ;
        assert(false);
    }
}

/// The character of a digit, as text.
pub(crate) fn digit_str(d: u8) -> (text: &'static str)
    requires
        d < 16,
    ensures
        text@ == seq![digit_char(d as nat)],
{
    proof {
        reveal_strlit("0");
        reveal_strlit("1");
        reveal_strlit("2");
        reveal_strlit("3");
        reveal_strlit("4");
        reveal_strlit("5");
        reveal_strlit("6");
        reveal_strlit("7");
        reveal_strlit("8");
        reveal_strlit("9");
        reveal_strlit("A");
        reveal_strlit("B");
        reveal_strlit("C");
        reveal_strlit("D");
        reveal_strlit("E");
        reveal_strlit("F");
    }
    let text = match d {
        0 => "0",
        1 => "1",
        2 => "2",
        3 => "3",
        4 => "4",
        5 => "5",
        6 => "6",
        7 => "7",
        8 => "8",
        9 => "9",
        10 => "A",
        11 => "B",
        12 => "C",
        13 => "D",
        14 => "E",
        _ => "F",
    };
    assert(text@ =~= seq![digit_char(d as nat)]);
    text
}

/// The decimal digit that a character writes, if it writes one.
pub(crate) fn digit_value(c: char) -> (d: Option<u8>)
    ensures
        d == digit_of(c),
        d matches Some(v) ==> v < 10,
{
    match c {
        '0' => Some(0),
        '1' => Some(1),
        '2' => Some(2),
        '3' => Some(3),
        '4' => Some(4),
        '5' => Some(5),
        '6' => Some(6),
        '7' => Some(7),
        '8' => Some(8),
        '9' => Some(9),
        _ => None,
    }
}

/// Writes `n` behind `out` in hexadecimal digits.
pub(crate) fn push_hex(out: &mut String, n: u64)
    ensures
        final(out)@ == old(out)@ + hex_text(n as nat),
    decreases n,
{
    if n >= 16 {
        push_hex(out, n / 16);
    }
    let low: u8 = (n % 16) as u8;
    out.append(digit_str(low));
    assert(out@ =~= old(out)@ + hex_text(n as nat));
}

} // verus!
