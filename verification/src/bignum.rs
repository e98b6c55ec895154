//! The arbitrary-precision integers and ratios that the library computes with.
//!
//! The arithmetic itself is done by `num-bigint` and `num-rational`. Everything
//! in this file states what those crates are relied on to do; none of it is
//! proved here. Each statement is phrased over the integer that a big integer
//! denotes, and over the numerator and denominator that a ratio holds.

use crate::rational::Rat;
use num_bigint::BigInt;
use num_bigint::Sign;
use num_rational::Ratio;
use vstd::prelude::*;

verus! {

#[verifier::external_type_specification]
#[verifier::external_body]
pub struct ExBigInt(num_bigint::BigInt);

#[verifier::external_type_specification]
#[verifier::external_body]
#[verifier::reject_recursive_types(T)]
pub struct ExRatio<T>(num_rational::Ratio<T>);

/// The integer that a big integer denotes.
pub uninterp spec fn big_value(b: BigInt) -> int;

/// The numerator that a ratio holds.
pub uninterp spec fn ratio_numer(r: Ratio<BigInt>) -> int;

/// The denominator that a ratio holds.
pub uninterp spec fn ratio_denom(r: Ratio<BigInt>) -> int;

/// The character of a decimal digit.
pub open spec fn digit_char(d: int) -> char {
    if d == 0 {
        '0'
    } else if d == 1 {
        '1'
    } else if d == 2 {
        '2'
    } else if d == 3 {
        '3'
    } else if d == 4 {
        '4'
    } else if d == 5 {
        '5'
    } else if d == 6 {
        '6'
    } else if d == 7 {
        '7'
    } else if d == 8 {
        '8'
    } else {
        '9'
    }
}

/// The decimal digits of a natural number, without leading zeros; one zero
/// for zero.
pub open spec fn digits_text(n: nat) -> Seq<char>
    decreases n,
{
    if n < 10 {
        seq![digit_char(n as int)]
    } else {
        digits_text(n / 10).push(digit_char((n % 10) as int))
    }
}

/// The decimal text of an integer: its digits, behind a minus sign where it
/// is negative.
pub open spec fn decimal_text(v: int) -> Seq<char> {
    if v < 0 {
        seq!['-'] + digits_text((-v) as nat)
    } else {
        digits_text(v as nat)
    }
}

/// The integer that `num-bigint` reads from decimal text, if it reads one.
pub uninterp spec fn parsed_decimal(text: Seq<u8>) -> Option<int>;

/// The numerator and denominator of a ratio, as a rational.
pub open spec fn ratio_view(r: Ratio<BigInt>) -> Rat {
    Rat { num: ratio_numer(r), den: ratio_denom(r) }
}

/// The number that a big-endian sequence of bytes denotes.
pub open spec fn be_value(bytes: Seq<u8>) -> nat
    decreases bytes.len(),
{
    if bytes.len() == 0 {
        0
    } else {
        be_value(bytes.drop_last()) * 256 + bytes.last() as nat
    }
}

/// `BigInt::from` on an `i64`: the big integer with the same value.
#[verifier::external_body]
pub(crate) fn big_from_i64(n: i64) -> (r: BigInt)
    ensures
        big_value(r) == n,
{
    BigInt::from(n)
}

/// `BigInt::from_bytes_be` with `Sign::Plus`: the non-negative integer whose
/// big-endian base-256 digits are `bytes`. No bytes give zero.
#[verifier::external_body]
pub(crate) fn big_from_bytes_be(bytes: &[u8]) -> (r: BigInt)
    ensures
        big_value(r) == be_value(bytes@),
{
    BigInt::from_bytes_be(Sign::Plus, bytes)
}

/// `BigInt::parse_bytes` in radix 10. The result is a function of the text
/// alone; which texts are accepted is left to `num-bigint`.
#[verifier::external_body]
pub(crate) fn big_parse(text: &[u8]) -> (r: Option<BigInt>)
    ensures
        match r {
            Some(b) => parsed_decimal(text@) == Some(big_value(b)),
            None => parsed_decimal(text@) is None,
        },
{
    BigInt::parse_bytes(text, 10)
}

/// Negation of a big integer (`Neg for BigInt`).
#[verifier::external_body]
pub(crate) fn big_neg(b: BigInt) -> (r: BigInt)
    ensures
        big_value(r) == -big_value(b),
{
    -b
}

/// `Signed::abs` of a big integer.
#[verifier::external_body]
pub(crate) fn big_abs(b: &BigInt) -> (r: BigInt)
    ensures
        big_value(r) == crate::rational::magnitude(big_value(*b)),
{
    num_traits::Signed::abs(b)
}

/// `BigInt::sign`, as -1, 0 or 1.
#[verifier::external_body]
pub(crate) fn big_sign(b: &BigInt) -> (r: i32)
    ensures
        r == crate::rational::signum(big_value(*b)),
{
    match b.sign() {
        Sign::Minus => -1,
        Sign::NoSign => 0,
        Sign::Plus => 1,
    }
}

/// `BigInt::to_bytes_be`, the bytes only: the big-endian base-256 digits of
/// the absolute value, at least one of them, and without a leading zero
/// where there are several.
#[verifier::external_body]
pub(crate) fn big_to_bytes_be(b: &BigInt) -> (r: Vec<u8>)
    ensures
        be_value(r@) == crate::rational::magnitude(big_value(*b)),
        r@.len() >= 1,
        r@.len() > 1 ==> r@[0] != 0,
{
    b.to_bytes_be().1
}

/// `ToPrimitive::to_i64`: the value where it fits an `i64`, else nothing.
#[verifier::external_body]
pub(crate) fn big_to_i64(b: &BigInt) -> (r: Option<i64>)
    ensures
        match r {
            Some(v) => v == big_value(*b),
            None => big_value(*b) < i64::MIN || big_value(*b) > i64::MAX,
        },
{
    num_traits::ToPrimitive::to_i64(b)
}

/// `ToPrimitive::to_u32`: the value where it fits a `u32`, else nothing.
#[verifier::external_body]
pub(crate) fn big_to_u32(b: &BigInt) -> (r: Option<u32>)
    ensures
        match r {
            Some(v) => v == big_value(*b),
            None => big_value(*b) < 0 || big_value(*b) > u32::MAX,
        },
{
    num_traits::ToPrimitive::to_u32(b)
}

/// `ToString::to_string` of a big integer: the decimal digits without
/// leading zeros, behind a minus sign for a negative number.
#[verifier::external_body]
pub(crate) fn big_to_string(b: &BigInt) -> (r: String)
    ensures
        r@ == decimal_text(big_value(*b)),
{
    b.to_string()
}

/// `Ratio::new`: the ratio in lowest terms with a positive denominator.
/// It panics on a zero denominator, which is left out.
#[verifier::external_body]
pub(crate) fn ratio_new(numer: BigInt, denom: BigInt) -> (r: Ratio<BigInt>)
    requires
        big_value(denom) != 0,
    ensures
        ratio_view(r) == Rat::canon(big_value(numer), big_value(denom)),
{
    Ratio::new(numer, denom)
}

/// `Ratio::reduced`: a copy in lowest terms with a positive denominator.
/// It panics on a zero denominator, which is left out.
#[verifier::external_body]
pub(crate) fn ratio_reduced(x: &Ratio<BigInt>) -> (r: Ratio<BigInt>)
    requires
        ratio_denom(*x) != 0,
    ensures
        ratio_view(r) == Rat::canon(ratio_numer(*x), ratio_denom(*x)),
{
    x.reduced()
}

/// `Ratio::numer`: the numerator held.
#[verifier::external_body]
pub(crate) fn ratio_numer_ref(x: &Ratio<BigInt>) -> (r: &BigInt)
    ensures
        big_value(*r) == ratio_numer(*x),
{
    x.numer()
}

/// `Ratio::denom`: the denominator held.
#[verifier::external_body]
pub(crate) fn ratio_denom_ref(x: &Ratio<BigInt>) -> (r: &BigInt)
    ensures
        big_value(*r) == ratio_denom(*x),
{
    x.denom()
}

/// `Clone for Ratio`: the same numerator and denominator.
#[verifier::external_body]
pub(crate) fn ratio_clone(x: &Ratio<BigInt>) -> (r: Ratio<BigInt>)
    ensures
        ratio_view(r) == ratio_view(*x),
{
    x.clone()
}

/// `Add for &Ratio`: the sum of two ratios with positive denominators, in
/// lowest terms.
#[verifier::external_body]
pub(crate) fn ratio_plus(x: &Ratio<BigInt>, y: &Ratio<BigInt>) -> (r: Ratio<BigInt>)
    requires
        ratio_denom(*x) > 0,
        ratio_denom(*y) > 0,
    ensures
        ratio_view(r) == ratio_view(*x).plus(ratio_view(*y)),
{
    x + y
}

/// `Sub for &Ratio`: the difference of two ratios with positive denominators,
/// in lowest terms.
#[verifier::external_body]
pub(crate) fn ratio_minus(x: &Ratio<BigInt>, y: &Ratio<BigInt>) -> (r: Ratio<BigInt>)
    requires
        ratio_denom(*x) > 0,
        ratio_denom(*y) > 0,
    ensures
        ratio_view(r) == ratio_view(*x).minus(ratio_view(*y)),
{
    x - y
}

/// `Mul for &Ratio`: the product of two ratios with positive denominators, in
/// lowest terms.
#[verifier::external_body]
pub(crate) fn ratio_times(x: &Ratio<BigInt>, y: &Ratio<BigInt>) -> (r: Ratio<BigInt>)
    requires
        ratio_denom(*x) > 0,
        ratio_denom(*y) > 0,
    ensures
        ratio_view(r) == ratio_view(*x).times(ratio_view(*y)),
{
    x * y
}

/// `Div for &Ratio`: the quotient of two ratios with positive denominators,
/// in lowest terms. It panics on a zero divisor, which is left out.
#[verifier::external_body]
pub(crate) fn ratio_over(x: &Ratio<BigInt>, y: &Ratio<BigInt>) -> (r: Ratio<BigInt>)
    requires
        ratio_denom(*x) > 0,
        ratio_denom(*y) > 0,
        ratio_numer(*y) != 0,
    ensures
        ratio_view(r) == ratio_view(*x).over(ratio_view(*y)),
{
    x / y
}

/// `Neg for &Ratio`: the numerator negated, the denominator kept.
#[verifier::external_body]
pub(crate) fn ratio_negated(x: &Ratio<BigInt>) -> (r: Ratio<BigInt>)
    ensures
        ratio_view(r) == ratio_view(*x).negated(),
{
    -x
}

/// `Signed::abs` of a ratio with a positive denominator: the numerator's
/// absolute value, the denominator kept.
#[verifier::external_body]
pub(crate) fn ratio_absolute(x: &Ratio<BigInt>) -> (r: Ratio<BigInt>)
    requires
        ratio_denom(*x) > 0,
    ensures
        ratio_view(r) == ratio_view(*x).absolute(),
{
    num_traits::Signed::abs(x)
}

/// `Ratio::recip` of a ratio with a positive denominator: numerator and
/// denominator exchanged, the sign kept on the numerator. It panics on zero,
/// which is left out.
#[verifier::external_body]
pub(crate) fn ratio_recip(x: &Ratio<BigInt>) -> (r: Ratio<BigInt>)
    requires
        ratio_denom(*x) > 0,
        ratio_numer(*x) != 0,
    ensures
        ratio_view(r) == ratio_view(*x).inverse(),
{
    x.recip()
}

/// `Ratio::round` of a ratio with a positive denominator: the nearest whole
/// number over one, a tie going away from zero.
#[verifier::external_body]
pub(crate) fn ratio_round(x: &Ratio<BigInt>) -> (r: Ratio<BigInt>)
    requires
        ratio_denom(*x) > 0,
    ensures
        ratio_view(r) == Rat::from_int(ratio_view(*x).rounded()),
{
    x.round()
}

/// `Ord::cmp` of two ratios with positive denominators, as -1, 0 or 1.
#[verifier::external_body]
pub(crate) fn ratio_order(x: &Ratio<BigInt>, y: &Ratio<BigInt>) -> (r: i32)
    requires
        ratio_denom(*x) > 0,
        ratio_denom(*y) > 0,
    ensures
        r == ratio_view(*x).compare(ratio_view(*y)),
{
    match x.cmp(y) {
        std::cmp::Ordering::Less => -1,
        std::cmp::Ordering::Equal => 0,
        std::cmp::Ordering::Greater => 1,
    }
}

} // verus!
