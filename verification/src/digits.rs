//! Decimal digits and the numbers they write.
use vstd::prelude::*;
use vstd::arithmetic::div_mod::lemma_fundamental_div_mod_converse;

verus! {

/// Ten to the power `n`.
pub open spec fn pow10(n: nat) -> nat
    decreases n,
{
    if n == 0 {
        1
    } else {
        10 * pow10((n - 1) as nat)
    }
}

/// A power of ten is at least one.
pub proof fn lemma_pow10_positive(n: nat)
    ensures
        pow10(n) >= 1,
    decreases n,
{
    if n > 0 {
        lemma_pow10_positive((n - 1) as nat);
    }
}

/// Ten to a sum is the product of the two powers.
pub proof fn lemma_pow10_sum(a: nat, b: nat)
    ensures
        pow10(a + b) == pow10(a) * pow10(b),
    decreases a,
{
    if a > 0 {
        lemma_pow10_sum((a - 1) as nat, b);
        assert(pow10(a + b) == 10 * pow10((a - 1 + b) as nat));
        assert(10 * (pow10((a - 1) as nat) * pow10(b)) == (10 * pow10((a - 1) as nat)) * pow10(b))
            by (nonlinear_arith);
    } else {
        assert(pow10(a) * pow10(b) == pow10(b)) by (nonlinear_arith)
            requires
                pow10(a) == 1,
        ;
    }
}

/// Whether every item of `s` is a decimal digit.
pub open spec fn is_digits(s: Seq<u8>) -> bool {
    forall|i: int| 0 <= i < s.len() ==> s[i] < 10
}

/// The number that the decimal digits `s` write, the first digit weighing
/// most.
pub open spec fn digits_value(s: Seq<u8>) -> nat
    decreases s.len(),
{
    if s.len() == 0 {
        0
    } else {
        digits_value(s.drop_last()) * 10 + s.last() as nat
    }
}

/// Digits written behind others shift those to the left.
pub proof fn lemma_value_concat(a: Seq<u8>, b: Seq<u8>)
    ensures
        digits_value(a + b) == digits_value(a) * pow10(b.len()) + digits_value(b),
    decreases b.len(),
{
    if b.len() == 0 {
        assert(a + b =~= a);
        assert(digits_value(a) * pow10(0) == digits_value(a)) by (nonlinear_arith)
            requires
                pow10(0) == 1,
        ;
    } else {
        let front = b.drop_last();
        assert((a + b).drop_last() =~= a + front);
        assert((a + b).last() == b.last());
        lemma_value_concat(a, front);
        let va = digits_value(a);
        let p = pow10(front.len());
        let vf = digits_value(front);
        assert(pow10(b.len()) == 10 * p);
        assert((va * p + vf) * 10 == va * (10 * p) + vf * 10) by (nonlinear_arith);
    }
}

/// Digits write a number below ten to the power of their count.
pub proof fn lemma_value_bound(s: Seq<u8>)
    requires
        is_digits(s),
    ensures
        digits_value(s) < pow10(s.len()),
    decreases s.len(),
{
    if s.len() > 0 {
        lemma_value_bound(s.drop_last());
    }
}

/// Zeros write zero.
pub proof fn lemma_value_zeros(s: Seq<u8>)
    requires
        forall|i: int| 0 <= i < s.len() ==> s[i] == 0,
    ensures
        digits_value(s) == 0,
    decreases s.len(),
{
    if s.len() > 0 {
        lemma_value_zeros(s.drop_last());
    }
}

/// The digit at `i` weighs ten to the power of the count of digits behind it.
pub proof fn lemma_leading_digit(s: Seq<u8>, i: int)
    requires
        0 <= i < s.len(),
    ensures
        digits_value(s.subrange(i, s.len() as int)) == s[i] * pow10((s.len() - i - 1) as nat)
            + digits_value(s.subrange(i + 1, s.len() as int)),
{
    let head = seq![s[i]];
    let rest = s.subrange(i + 1, s.len() as int);
    assert(s.subrange(i, s.len() as int) =~= head + rest);
    lemma_value_concat(head, rest);
    assert(head.drop_last() =~= Seq::<u8>::empty());
    assert(digits_value(head) == digits_value(head.drop_last()) * 10 + head.last());
    assert(digits_value(head) == s[i]);
}

/// Digits of which one is not zero write a number that is not zero.
pub proof fn lemma_value_positive(s: Seq<u8>, j: int)
    requires
        0 <= j < s.len(),
        s[j] != 0,
    ensures
        digits_value(s) > 0,
    decreases s.len(),
{
    if j < s.len() - 1 {
        lemma_value_positive(s.drop_last(), j);
    }
}

/// The first `w` digits write the quotient by the power of ten of the count
/// of the others, and the others write the remainder.
pub proof fn lemma_value_split(s: Seq<u8>, w: int)
    requires
        is_digits(s),
        0 <= w <= s.len(),
    ensures
        digits_value(s) / pow10((s.len() - w) as nat) == digits_value(s.take(w)),
        digits_value(s) % pow10((s.len() - w) as nat) == digits_value(s.skip(w)),
{
    let front = s.take(w);
    let back = s.skip(w);
    assert(s =~= front + back);
    lemma_value_concat(front, back);
    lemma_value_bound(back);
    lemma_fundamental_div_mod_converse(
        digits_value(s) as int,
        pow10(back.len()) as int,
        digits_value(front) as int,
        digits_value(back) as int,
    );
}

} // verus!
