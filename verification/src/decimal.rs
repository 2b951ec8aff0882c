//! Exact decimal numbers: a whole number of any length, the numerator,
//! divided by a power of ten.
use vstd::prelude::*;
use crate::digits::{
    digits_value, is_digits, lemma_leading_digit, lemma_pow10_positive, lemma_pow10_sum,
    lemma_value_bound, lemma_value_concat, lemma_value_positive, lemma_value_split,
    lemma_value_zeros, pow10,
};
use crate::numeral::{
    count_behind_point, count_points, decimal_text, digit_char, digit_str, digit_value,
    fraction_text, is_number_char, is_numeral, lemma_count_points_grows, numeral_numer,
    numeral_scale, whole_text, written_digits,
};

verus! {

/// One step of a multiplication by hand: the digit `d` times `f` plus the
/// carry from the right leaves the digit `x` and the carry `c_new`.
proof fn lemma_multiply_step(
    x: int,
    c_new: int,
    cur: int,
    d: int,
    f: int,
    c_old: int,
    p: int,
    tv: int,
    to: int,
)
    requires
        cur == d * f + c_old,
        cur == x + 10 * c_new,
        tv + c_old * p == to * f,
    ensures
        x * p + tv + c_new * (10 * p) == (d * p + to) * f,
{
    assert(x * p + c_new * (10 * p) == (x + 10 * c_new) * p) by (nonlinear_arith);
    assert((d * f + c_old) * p == d * f * p + c_old * p) by (nonlinear_arith);
    assert((d * p + to) * f == d * f * p + to * f) by (nonlinear_arith);
}

/// The digits without the zeros at their start, of which the last `keep`
/// digits stay in any case. They write the same number.
fn without_leading_zeros(digits: Vec<u8>, keep: usize) -> (short: Vec<u8>)
    requires
        keep <= digits.len(),
        is_digits(digits@),
    ensures
        keep <= short.len() <= digits.len(),
        short@ == digits@.skip(digits.len() - short.len()),
        forall|j: int| 0 <= j < digits.len() - short.len() ==> digits[j] == 0,
        short.len() == keep || short[0] != 0,
        is_digits(short@),
        digits_value(short@) == digits_value(digits@),
{
    let len: usize = digits.len();
    let mut start: usize = 0;
    while start < len - keep && digits[start] == 0
        invariant
            start <= len - keep,
            len == digits.len(),
            keep <= len,
            forall|j: int| 0 <= j < start ==> digits[j] == 0,
        decreases len - start,
    {
        start += 1;
    }
    let mut short: Vec<u8> = Vec::new();
    let mut i: usize = start;
    while i < len
        invariant
            start <= i <= len,
            len == digits.len(),
            short@ =~= digits@.subrange(start as int, i as int),
        decreases len - i,
    {
        short.push(digits[i]);
        i += 1;
    }
    proof {
        let zeros = digits@.take(start as int);
        assert(short@ =~= digits@.skip(start as int));
        assert(digits@ =~= zeros + short@);
        lemma_value_zeros(zeros);
        lemma_value_concat(zeros, short@);
        assert(0 * pow10(short@.len()) == 0) by (nonlinear_arith);
    }
    short
}

/// Writes behind `out` the whole number that the first `w` of `digits`
/// write.
fn push_whole(out: &mut String, digits: &Vec<u8>, w: usize)
    requires
        w <= digits.len(),
        is_digits(digits@),
    ensures
        final(out)@ == old(out)@ + whole_text(digits_value(digits@.take(w as int))),
{
    let ghost start_text = out@;
    if w == 0 {
        out.append(digit_str(0));
        assert(digits@.take(0) =~= Seq::<u8>::empty());
        return ;
    }
    let mut start: usize = 0;
    while start + 1 < w && digits[start] == 0
        invariant
            start < w <= digits.len(),
            forall|j: int| 0 <= j < start ==> digits[j] == 0,
        decreases w - start,
    {
        start += 1;
    }
    out.append(digit_str(digits[start]));
    let mut i: usize = start + 1;
    proof {
        let first = digits@.subrange(start as int, i as int);
        assert(first.drop_last() =~= Seq::<u8>::empty());
        assert(digits_value(first) == digits_value(first.drop_last()) * 10 + first.last());
        assert(digits_value(first) == digits[start as int]);
    }
    while i < w
        invariant
            start < i <= w <= digits.len(),
            is_digits(digits@),
            start + 1 < w ==> digits_value(digits@.subrange(start as int, i as int)) >= 1,
            out@ == start_text + whole_text(digits_value(digits@.subrange(start as int, i as int))),
        decreases w - i,
    {
        out.append(digit_str(digits[i]));
        proof {
            let shorter = digits@.subrange(start as int, i as int);
            let longer = digits@.subrange(start as int, i + 1);
            assert(longer.drop_last() =~= shorter);
            assert(longer.last() == digits[i as int]);
            let v = digits_value(longer);
            assert(v == digits_value(shorter) * 10 + digits[i as int]);
            assert(v / 10 == digits_value(shorter));
            assert(v % 10 == digits[i as int]);
            assert(whole_text(v) == whole_text(v / 10).push(digit_char(v % 10)));
            assert(out@ =~= start_text + whole_text(v));
        }
        i += 1;
    }
    proof {
        let zeros = digits@.take(start as int);
        let rest = digits@.subrange(start as int, w as int);
        assert(digits@.take(w as int) =~= zeros + rest);
        lemma_value_zeros(zeros);
        lemma_value_concat(zeros, rest);
        assert(0 * pow10(rest.len()) == 0) by (nonlinear_arith);
    }
}

/// Writes behind `out` the digits of `digits` from `from` up to `to`.
fn push_fraction(out: &mut String, digits: &Vec<u8>, from: usize, to: usize)
    requires
        from <= to <= digits.len(),
        is_digits(digits@),
    ensures
        final(out)@ == old(out)@ + fraction_text(
            digits_value(digits@.subrange(from as int, to as int)),
            (to - from) as nat,
        ),
{
    let ghost start_text = out@;
    let mut i: usize = from;
    assert(out@ =~= start_text + fraction_text(
        digits_value(digits@.subrange(from as int, i as int)),
        0,
    ));
    while i < to
        invariant
            from <= i <= to <= digits.len(),
            is_digits(digits@),
            out@ == start_text + fraction_text(
                digits_value(digits@.subrange(from as int, i as int)),
                (i - from) as nat,
            ),
        decreases to - i,
    {
        out.append(digit_str(digits[i]));
        proof {
            let shorter = digits@.subrange(from as int, i as int);
            let longer = digits@.subrange(from as int, i + 1);
            assert(longer.drop_last() =~= shorter);
            assert(longer.last() == digits[i as int]);
            let v = digits_value(longer);
            assert(v == digits_value(shorter) * 10 + digits[i as int]);
            assert(v / 10 == digits_value(shorter));
            assert(v % 10 == digits[i as int]);
            assert(out@ =~= start_text + fraction_text(v, (i + 1 - from) as nat));
        }
        i += 1;
    }
}

/// The greatest factor that `Decimal::scaled` takes: ten to the power 37.
pub const MAX_FACTOR: u128 = 10_000_000_000_000_000_000_000_000_000_000_000_000;

/// The value of `MAX_FACTOR`.
pub proof fn lemma_max_factor()
    ensures
        MAX_FACTOR == pow10(37),
{
    reveal_with_fuel(pow10, 38);
}

/// A non-negative decimal number: a whole number of any length, the
/// numerator, divided by ten to the power of a scale.
#[derive(Debug)]
pub struct Decimal {
    /// The digits of the numerator, the first weighing most.
    digits: Vec<u8>,
    /// How many of the digits stand behind the point.
    scale: usize,
}

impl Decimal {
    #[verifier::type_invariant]
    spec fn well_formed(self) -> bool {
        is_digits(self.digits@) && self.scale <= self.digits@.len()
    }

    /// The numerator: the number is `numer() / pow10(scale())`.
    pub closed spec fn numer(self) -> nat {
        digits_value(self.digits@)
    }

    /// The scale: the number is `numer() / pow10(scale())`.
    pub closed spec fn scale(self) -> nat {
        self.scale as nat
    }

    /// The whole number `n`.
    pub fn from_u64(n: u64) -> (d: Decimal)
        ensures
            d.numer() == n,
            d.scale() == 0,
    {
        // twenty digits hold any `u64`
        let mut digits: Vec<u8> = Vec::new();
        let mut k: usize = 0;
        while k < 20
            invariant
                k <= 20,
                digits.len() == k,
                forall|j: int| 0 <= j < k ==> digits[j] == 0,
            decreases 20 - k,
        {
            digits.push(0);
            k += 1;
        }
        let mut rest: u64 = n;
        let mut i: usize = 20;
        assert(digits@.subrange(20, 20) =~= Seq::<u8>::empty());
        assert(rest * pow10(0) == rest) by (nonlinear_arith)
            requires
                pow10(0) == 1,
        ;
        while i > 0
            invariant
                i <= 20,
                digits.len() == 20,
                is_digits(digits@),
                forall|j: int| 0 <= j < i ==> digits[j] == 0,
                digits_value(digits@.subrange(i as int, 20)) + rest * pow10((20 - i) as nat) == n,
            decreases i,
        {
            let ghost before = digits@;
            let ghost rest_before = rest;
            i -= 1;
            let d: u8 = (rest % 10) as u8;
            digits.set(i, d);
            rest = rest / 10;
            proof {
                let p = pow10((19 - i) as nat);
                lemma_leading_digit(digits@, i as int);
                assert(digits@.subrange(i + 1, 20) =~= before.subrange(i + 1, 20));
                assert(pow10((20 - i) as nat) == 10 * p);
                assert(d * p + rest * (10 * p) == rest_before * p) by (nonlinear_arith)
                    requires
                        rest_before == d + 10 * rest,
                ;
            }
        }
        proof {
            reveal_with_fuel(pow10, 21);
            assert(pow10(20) == 100_000_000_000_000_000_000);
            assert(digits@.subrange(0, 20) =~= digits@);
            assert(rest == 0) by (nonlinear_arith)
                requires
                    rest * 100_000_000_000_000_000_000 <= n,
                    n <= 0xffff_ffff_ffff_ffff,
                    rest >= 0,
            ;
        }
        Decimal { digits: without_leading_zeros(digits, 0), scale: 0 }
    }

    /// This number times `factor`, written with `shift` more digits behind
    /// the point: the numerator grows by the factor, the scale by the shift.
    pub fn scaled(&self, factor: u128, shift: u8) -> (d: Decimal)
        requires
            factor <= MAX_FACTOR,
        ensures
            d.numer() == self.numer() * factor,
            d.scale() == self.scale() + shift,
    {
        proof {
            use_type_invariant(self);
        }
        // the product has at most 37 digits more than this number, and the
        // digits behind the point may outnumber those there are
        let pad: usize = 37 + shift as usize;
        let mut digits: Vec<u8> = Vec::new();
        let mut k: usize = 0;
        while k < pad
            invariant
                k <= pad,
                digits.len() == k,
                forall|j: int| 0 <= j < k ==> digits[j] == 0,
            decreases pad - k,
        {
            digits.push(0);
            k += 1;
        }
        let ghost zeros = digits@;
        let mut k: usize = 0;
        while k < self.digits.len()
            invariant
                k <= self.digits.len(),
                digits@ =~= zeros + self.digits@.take(k as int),
            decreases self.digits.len() - k,
        {
            digits.push(self.digits[k]);
            k += 1;
        }
        let ghost padded = digits@;
        let len: usize = digits.len();
        let mut carry: u128 = 0;
        let mut i: usize = len;
        proof {
            assert(self.digits@.take(k as int) =~= self.digits@);
            assert(padded =~= zeros + self.digits@);
            lemma_value_zeros(zeros);
            lemma_value_concat(zeros, self.digits@);
            assert(0 * pow10(self.digits@.len()) == 0) by (nonlinear_arith);
            assert(digits_value(padded) == self.numer());
            assert(is_digits(padded));
            assert(padded.subrange(len as int, len as int) =~= Seq::<u8>::empty());
            assert(0 * pow10(0) == 0) by (nonlinear_arith);
            assert(0 * factor == 0) by (nonlinear_arith);
        }
        while i > 0
            invariant
                i <= len,
                digits.len() == len,
                padded.len() == len,
                is_digits(digits@),
                is_digits(padded),
                forall|j: int| 0 <= j < i ==> digits[j] == padded[j],
                carry <= factor,
                factor <= MAX_FACTOR,
                digits_value(digits@.subrange(i as int, len as int)) + carry * pow10(
                    (len - i) as nat,
                ) == digits_value(padded.subrange(i as int, len as int)) * factor,
            decreases i,
        {
            let ghost before = digits@;
            let ghost carry_before = carry;
            i -= 1;
            let digit: u8 = digits[i];
            assert(digit as u128 * factor <= 9 * MAX_FACTOR) by (nonlinear_arith)
                requires
                    digit < 10,
                    factor <= MAX_FACTOR,
            ;
            assert(digit as u128 * factor <= 9 * factor) by (nonlinear_arith)
                requires
                    digit < 10,
            ;
            let cur: u128 = digit as u128 * factor + carry;
            let low: u8 = (cur % 10) as u8;
            digits.set(i, low);
            carry = cur / 10;
            proof {
                let p = pow10((len - i - 1) as nat);
                lemma_leading_digit(digits@, i as int);
                lemma_leading_digit(padded, i as int);
                assert(digits@.subrange(i + 1, len as int) =~= before.subrange(
                    i + 1,
                    len as int,
                ));
                assert(pow10((len - i) as nat) == 10 * p);
                lemma_multiply_step(
                    low as int,
                    carry as int,
                    cur as int,
                    digit as int,
                    factor as int,
                    carry_before as int,
                    p as int,
                    digits_value(before.subrange(i + 1, len as int)) as int,
                    digits_value(padded.subrange(i + 1, len as int)) as int,
                );
            }
        }
        proof {
            assert(digits@.subrange(0, len as int) =~= digits@);
            assert(padded.subrange(0, len as int) =~= padded);
            lemma_value_bound(self.digits@);
            lemma_max_factor();
            lemma_pow10_sum(self.digits@.len(), 37);
            lemma_pow10_sum((self.digits@.len() + 37) as nat, shift as nat);
            lemma_pow10_positive(shift as nat);
            let n = self.numer();
            let top = pow10(len as nat);
            assert(n * factor < top) by (nonlinear_arith)
                requires
                    n < pow10(self.digits@.len()),
                    factor <= pow10(37),
                    top == pow10(self.digits@.len()) * pow10(37) * pow10(shift as nat),
                    pow10(shift as nat) >= 1,
                    pow10(37) >= 1,
            ;
            assert(carry == 0) by (nonlinear_arith)
                requires
                    carry * top <= n * factor,
                    n * factor < top,
                    carry >= 0,
            ;
        }
        let scale: usize = self.scale + shift as usize;
        Decimal { digits: without_leading_zeros(digits, scale), scale }
    }

    /// The number zero.
    pub fn zero() -> (d: Decimal)
        ensures
            d.numer() == 0,
            d.scale() == 0,
    {
        Decimal { digits: Vec::new(), scale: 0 }
    }

    /// Reads a number from its text: decimal digits, at least one, with at
    /// most one point. Any other text writes no number.
    pub fn parse(text: &str) -> (r: Option<Decimal>)
        ensures
            r is Some <==> is_numeral(text@),
            r matches Some(d) ==> d.numer() == numeral_numer(text@) && d.scale() == numeral_scale(
                text@,
            ),
    {
        let len: usize = text.unicode_len();
        let mut digits: Vec<u8> = Vec::new();
        let mut pointed: bool = false;
        let mut behind: usize = 0;
        let mut i: usize = 0;
        assert(text@.take(0) =~= Seq::<char>::empty());
        while i < len
            invariant
                i <= len == text@.len(),
                forall|k: int| 0 <= k < i ==> is_number_char(text@[k]),
                digits@ == written_digits(text@.take(i as int)),
                is_digits(digits@),
                pointed == (count_points(text@.take(i as int)) >= 1),
                count_points(text@.take(i as int)) <= 1,
                behind == count_behind_point(text@.take(i as int)),
                behind <= i,
                pointed ==> behind <= digits.len(),
            decreases len - i,
        {
            let c = text.get_char(i);
            proof {
                let longer = text@.take(i + 1);
                assert(longer.drop_last() =~= text@.take(i as int));
                assert(longer.last() == c);
            }
            if c == '.' {
                if pointed {
                    proof {
                        lemma_count_points_grows(text@, i + 1);
                    }
                    return None;
                }
                pointed = true;
                behind = 0;
            } else {
                match digit_value(c) {
                    Some(d) => {
                        digits.push(d);
                        behind += 1;
                    },
                    None => {
                        return None;
                    },
                }
            }
            i += 1;
        }
        assert(text@.take(len as int) =~= text@);
        if digits.len() == 0 {
            return None;
        }
        let scale: usize = if pointed {
            behind
        } else {
            0
        };
        Some(Decimal { digits, scale })
    }

    /// The number as a `u64`, if it is whole and small enough to be one.
    pub fn to_u64(&self) -> (r: Option<u64>)
        ensures
            match r {
                Some(n) => self.numer() % pow10(self.scale()) == 0 && n == self.numer() / pow10(
                    self.scale(),
                ),
                None => self.numer() % pow10(self.scale()) != 0 || self.numer() / pow10(
                    self.scale(),
                ) > u64::MAX,
            },
    {
        proof {
            use_type_invariant(self);
        }
        let len: usize = self.digits.len();
        let whole: usize = len - self.scale;
        proof {
            lemma_value_split(self.digits@, whole as int);
        }
        let mut j: usize = whole;
        while j < len
            invariant
                whole <= j <= len,
                len == self.digits.len(),
                forall|k: int| whole <= k < j ==> self.digits[k] == 0,
                self.numer() % pow10(self.scale()) == digits_value(self.digits@.skip(whole as int)),
            decreases len - j,
        {
            if self.digits[j] != 0 {
                proof {
                    lemma_value_positive(self.digits@.skip(whole as int), j - whole);
                }
                return None;
            }
            j += 1;
        }
        proof {
            lemma_value_zeros(self.digits@.skip(whole as int));
        }
        let mut acc: u64 = 0;
        let mut i: usize = 0;
        assert(self.digits@.take(0) =~= Seq::<u8>::empty());
        while i < whole
            invariant
                i <= whole <= self.digits.len(),
                is_digits(self.digits@),
                acc == digits_value(self.digits@.take(i as int)),
                self.numer() % pow10(self.scale()) == 0,
                self.numer() / pow10(self.scale()) == digits_value(self.digits@.take(whole as int)),
            decreases whole - i,
        {
            let digit: u8 = self.digits[i];
            proof {
                let shorter = self.digits@.take(i as int);
                let longer = self.digits@.take(i + 1);
                assert(longer.drop_last() =~= shorter);
                assert(longer.last() == digit);
                assert(digits_value(longer) == acc * 10 + digit);
            }
            if acc > (u64::MAX - digit as u64) / 10 {
                proof {
                    let longer = self.digits@.take(i + 1);
                    let rest = self.digits@.subrange(i + 1, whole as int);
                    assert(self.digits@.take(whole as int) =~= longer + rest);
                    lemma_value_concat(longer, rest);
                    lemma_pow10_positive(rest.len());
                    assert(digits_value(longer) * pow10(rest.len()) >= digits_value(longer))
                        by (nonlinear_arith)
                        requires
                            pow10(rest.len()) >= 1,
                    ;
                }
                return None;
            }
            acc = acc * 10 + digit as u64;
            i += 1;
        }
        Some(acc)
    }

    /// The number in decimal digits: its whole part, then, unless the number
    /// is whole, a point and the digits behind it up to the last that is not
    /// zero.
    pub fn text(&self) -> (out: String)
        ensures
            out@ == decimal_text(self.numer(), self.scale()),
    {
        proof {
            use_type_invariant(self);
        }
        let mut end: usize = self.digits.len();
        let mut scale: usize = self.scale;
        assert(self.digits@.take(end as int) =~= self.digits@);
        while scale > 0 && self.digits[end - 1] == 0
            invariant
                scale <= end <= self.digits.len(),
                is_digits(self.digits@),
                decimal_text(digits_value(self.digits@.take(end as int)), scale as nat)
                    == decimal_text(self.numer(), self.scale()),
            decreases scale,
        {
            proof {
                let cur = self.digits@.take(end as int);
                assert(cur.drop_last() =~= self.digits@.take(end - 1));
                assert(cur.last() == 0);
                assert(digits_value(cur) == digits_value(cur.drop_last()) * 10);
            }
            end -= 1;
            scale -= 1;
        }
        let whole: usize = end - scale;
        let mut out = String::new();
        push_whole(&mut out, &self.digits, whole);
        if scale > 0 {
            proof {
                reveal_strlit(".");
            }
            out.append(".");
            push_fraction(&mut out, &self.digits, whole, end);
            proof {
                let cur = self.digits@.take(end as int);
                lemma_value_split(cur, whole as int);
                assert(cur.take(whole as int) =~= self.digits@.take(whole as int));
                assert(cur.skip(whole as int) =~= self.digits@.subrange(whole as int, end as int));
                assert(cur.drop_last() =~= self.digits@.take(end - 1));
                assert(cur.last() != 0);
                assert(digits_value(cur) == digits_value(cur.drop_last()) * 10 + cur.last());
                assert(digits_value(cur) % 10 != 0);
                assert("."@ =~= seq!['.']);
                assert(out@ =~= decimal_text(digits_value(cur), scale as nat));
            }
        } else {
            assert(out@ =~= whole_text(digits_value(self.digits@.take(end as int))));
        }
        out
    }
}

} // verus!
