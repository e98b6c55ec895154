//! Decimal numbers in expression text, and the fraction that stands for a
//! decimal in bytecode.
//!
//! A decimal is read exactly, with its exponent of ten where it has one.
//! It is then given the fraction that a musician means by it: a whole
//! number, or one of the common fractions that it is within a millionth of,
//! or the nearest fraction with a denominator of at most 10000.

use crate::fraction::lemma_integer_wf;
use crate::fraction::Fraction;
use crate::rational::magnitude;
use crate::rational::Rat;
use crate::text::all_digits;
use crate::power::rational_int_power;
use crate::text::digits_value;
use crate::text::is_digit;
use crate::text::parse_i32;
use crate::text::slice_of;
use crate::text::spec_parse_i32;
use vstd::arithmetic::power::lemma_pow0;
use vstd::arithmetic::power::lemma_pow1;
use vstd::arithmetic::power::lemma_pow_adds;
use vstd::arithmetic::power::lemma_pow_positive;
use vstd::arithmetic::power::pow;
use vstd::prelude::*;

verus! {

/// The position of the first `.` at or after `i`, or the length of the text.
pub open spec fn point_at(s: Seq<u8>, i: int) -> int
    decreases s.len() - i,
{
    if i < 0 || i >= s.len() {
        s.len() as int
    } else if s[i] == 46 {
        i
    } else {
        point_at(s, i + 1)
    }
}

/// The digits of a decimal without sign: those before the point followed by
/// those behind it, where both parts hold digits only and together at least
/// one. The second number is the count of digits behind the point.
pub open spec fn decimal_digits(body: Seq<u8>) -> Option<(Seq<u8>, nat)> {
    let p = point_at(body, 0);
    let whole = body.subrange(0, p);
    let part = if p < body.len() {
        body.subrange(p + 1, body.len() as int)
    } else {
        Seq::empty()
    };
    if all_digits(whole) && all_digits(part) && whole.len() + part.len() > 0 {
        Some((whole + part, part.len()))
    } else {
        None
    }
}

/// The number that a decimal text without an exponent denotes: digits with
/// at most one point among them, and `+` or `-` allowed in front.
pub open spec fn spec_parse_plain(s: Seq<u8>) -> Option<Rat> {
    let negative = s.len() > 0 && s[0] == 45;
    let body = if s.len() > 0 && (s[0] == 43 || s[0] == 45) {
        s.subrange(1, s.len() as int)
    } else {
        s
    };
    match decimal_digits(body) {
        Some((digits, places)) => Some(
            Rat::canon(
                if negative {
                    -(digits_value(digits) as int)
                } else {
                    digits_value(digits) as int
                },
                pow(10, places),
            ),
        ),
        None => None,
    }
}

/// Ten times a whole number plus a digit, as rationals.
proof fn lemma_shift_digit(a: int, d: int)
    ensures
        Rat::from_int(a).times(Rat::from_int(10)).plus(Rat::from_int(d)) == Rat::from_int(
            10 * a + d,
        ),
        Rat::from_int(a).times(Rat::from_int(10)) == Rat::from_int(10 * a),
{
    lemma_integer_wf(10 * a);
    lemma_integer_wf(10 * a + d);
    assert(a * 10 == 10 * a) by (nonlinear_arith);
    let t = Rat::from_int(a).times(Rat::from_int(10));
    assert(t == Rat::canon(a * 10, 1));
    assert(t.plus(Rat::from_int(d)) == Rat::canon(10 * a * 1 + d * 1, 1int * 1));
}

/// The digits of a text as a fraction, with ten to the number of digits.
fn read_digits(s: &[u8], start: Fraction, scale: Fraction) -> (r: Option<(Fraction, Fraction)>)
    requires
        start@.den == 1,
        scale@.den == 1,
    ensures
        match r {
            Some((value, power)) => all_digits(s@) && value@ == Rat::from_int(
                start@.num * pow(10, s@.len()) + digits_value(s@),
            ) && power@ == Rat::from_int(scale@.num * pow(10, s@.len())),
            None => !all_digits(s@),
        },
{
    let mut value = start;
    let mut power = scale;
    let ten = Fraction::from_int(10);
    let mut i: usize = 0;
    proof {
        lemma_pow0(10);
        assert(s@.take(0) =~= Seq::<u8>::empty());
    }
    while i < s.len()
        invariant
            i <= s.len(),
            ten@ == Rat::from_int(10),
            all_digits(s@.take(i as int)),
            value@ == Rat::from_int(
                start@.num * pow(10, i as nat) + digits_value(s@.take(i as int)),
            ),
            power@ == Rat::from_int(scale@.num * pow(10, i as nat)),
        decreases s.len() - i,
    {
        let b = s[i];
        let ghost next = s@.take(i as int + 1);
        assert(next.drop_last() =~= s@.take(i as int));
        assert(next.last() == b);
        if b < 48 || b > 57 {
            assert(!all_digits(s@)) by {
                assert(!is_digit(s@[i as int]));
            }
            return None;
        }
        let digit = Fraction::from_int((b - 48) as i32);
        proof {
            let a = start@.num * pow(10, i as nat) + digits_value(s@.take(i as int));
            let c = scale@.num * pow(10, i as nat);
            lemma_shift_digit(a, (b - 48) as int);
            lemma_shift_digit(c, 0);
            lemma_pow_adds(10, i as nat, 1);
            lemma_pow1(10);
            assert(10 * a + (b - 48) == start@.num * pow(10, (i + 1) as nat) + digits_value(
                next,
            )) by (nonlinear_arith)
                requires
                    a == start@.num * pow(10, i as nat) + digits_value(s@.take(i as int)),
                    pow(10, (i + 1) as nat) == pow(10, i as nat) * 10,
                    digits_value(next) == digits_value(s@.take(i as int)) * 10 + (b - 48),
            ;
            assert(10 * c == scale@.num * pow(10, (i + 1) as nat)) by (nonlinear_arith)
                requires
                    c == scale@.num * pow(10, i as nat),
                    pow(10, (i + 1) as nat) == pow(10, i as nat) * 10,
            ;
            assert(all_digits(next)) by {
                assert forall|k: int| 0 <= k < next.len() implies is_digit(#[trigger] next[k]) by {
                    if k < i {
                        assert(next[k] == s@.take(i as int)[k]);
                    }
                }
            }
        }
        value = value.mul(&ten).add(&digit);
        power = power.mul(&ten);
        i = i + 1;
    }
    assert(s@.take(s@.len() as int) =~= s@);
    Some((value, power))
}

/// The digits of a concatenation are the digits of its parts, the first
/// shifted by the length of the second.
pub proof fn lemma_digits_concat(a: Seq<u8>, b: Seq<u8>)
    ensures
        digits_value(a + b) == digits_value(a) * pow(10, b.len()) + digits_value(b),
    decreases b.len(),
{
    if b.len() == 0 {
        assert(a + b =~= a);
        lemma_pow0(10);
    } else {
        lemma_digits_concat(a, b.drop_last());
        assert((a + b).drop_last() =~= a + b.drop_last());
        assert((a + b).last() == b.last());
        lemma_pow_adds(10, (b.len() - 1) as nat, 1);
        lemma_pow1(10);
        let x = digits_value(a);
        let p = pow(10, (b.len() - 1) as nat);
        let y = digits_value(b.drop_last());
        let d = (b.last() - 48) as nat;
        assert((x * p + y) * 10 + d == x * (p * 10) + (y * 10 + d)) by (nonlinear_arith);
    }
}

/// Reads a decimal number without an exponent exactly.
pub fn parse_plain(s: &[u8]) -> (r: Option<Fraction>)
    ensures
        match r {
            Some(f) => spec_parse_plain(s@) == Some(f@),
            None => spec_parse_plain(s@) is None,
        },
{
    let negative = s.len() > 0 && s[0] == 45;
    let body = if s.len() > 0 && (s[0] == 43 || s[0] == 45) {
        slice_of(s, 1, s.len())
    } else {
        s
    };
    let mut p: usize = 0;
    while p < body.len() && body[p] != 46
        invariant
            p <= body.len(),
            point_at(body@, 0) == point_at(body@, p as int),
        decreases body.len() - p,
    {
        p = p + 1;
    }
    let whole = slice_of(body, 0, p);
    let part = if p < body.len() {
        slice_of(body, p + 1, body.len())
    } else {
        slice_of(body, 0, 0)
    };
    assert(part@ =~= (if p < body@.len() {
        body@.subrange(p as int + 1, body@.len() as int)
    } else {
        Seq::<u8>::empty()
    }));
    if whole.len() + part.len() == 0 {
        return None;
    }
    let (head, one) = match read_digits(whole, Fraction::zero(), Fraction::one()) {
        Some(pair) => pair,
        None => {
            return None;
        },
    };
    let ghost head_value = digits_value(whole@);
    proof {
        assert(0 * pow(10, whole@.len()) == 0) by (nonlinear_arith);
    }
    let (digits, scale) = match read_digits(part, head, Fraction::one()) {
        Some(pair) => pair,
        None => {
            return None;
        },
    };
    proof {
        lemma_digits_concat(whole@, part@);
        lemma_pow_positive(10, part@.len());
        assert(1 * pow(10, part@.len()) == pow(10, part@.len())) by (nonlinear_arith);
    }
    let signed = if negative {
        digits.neg()
    } else {
        digits
    };
    let value = signed.div(&scale);
    proof {
        let m = signed@.num;
        let q = pow(10, part@.len());
        assert(m * 1 == m && 1 * q == q) by (nonlinear_arith);
    }
    Some(value)
}

/// The position of the first `e` or `E` at or after `i`, or the length of
/// the text.
pub open spec fn exponent_mark(s: Seq<u8>, i: int) -> int
    decreases s.len() - i,
{
    if i < 0 || i >= s.len() {
        s.len() as int
    } else if s[i] == 101 || s[i] == 69 {
        i
    } else {
        exponent_mark(s, i + 1)
    }
}

/// The number that a decimal text denotes: digits with at most one point
/// among them, with `+` or `-` allowed in front, and behind them, if the
/// text goes on with `e` or `E`, the power of ten that the number is
/// multiplied by: a whole number from -1000 to 1000, with `+` or `-`
/// allowed in front.
pub open spec fn spec_parse_decimal(s: Seq<u8>) -> Option<Rat> {
    let k = exponent_mark(s, 0);
    if k >= s.len() {
        spec_parse_plain(s)
    } else {
        match (spec_parse_plain(s.subrange(0, k)), spec_parse_i32(s.subrange(k + 1, s.len() as int))) {
            (Some(m), Some(e)) => if -1000 <= e <= 1000 {
                Some(m.times(Rat::from_int(10).int_power(e as int)))
            } else {
                None
            },
            _ => None,
        }
    }
}

/// Reads a decimal number exactly.
pub fn parse_decimal(s: &[u8]) -> (r: Option<Fraction>)
    ensures
        match r {
            Some(f) => spec_parse_decimal(s@) == Some(f@),
            None => spec_parse_decimal(s@) is None,
        },
{
    let mut k: usize = 0;
    while k < s.len() && s[k] != 101 && s[k] != 69
        invariant
            k <= s.len(),
            exponent_mark(s@, 0) == exponent_mark(s@, k as int),
        decreases s.len() - k,
    {
        k = k + 1;
    }
    if k >= s.len() {
        return parse_plain(s);
    }
    let mantissa = match parse_plain(slice_of(s, 0, k)) {
        Some(m) => m,
        None => {
            return None;
        },
    };
    let exponent = match parse_i32(slice_of(s, k + 1, s.len())) {
        Some(e) => e,
        None => {
            return None;
        },
    };
    if exponent < -1000 || exponent > 1000 {
        return None;
    }
    let scale = rational_int_power(&Fraction::from_int(10), exponent as i64);
    Some(mantissa.mul(&scale))
}

/// The tolerance within which a decimal counts as a whole number, and at
/// which the search for a fraction ends: one in ten thousand million.
pub open spec fn fine_tolerance() -> Rat {
    Rat::canon(1, 10_000_000_000)
}

/// The tolerance within which a decimal counts as a common fraction: one
/// in a million.
pub open spec fn coarse_tolerance() -> Rat {
    Rat::canon(1, 1_000_000)
}

/// The distance between two rationals.
pub open spec fn distance(a: Rat, b: Rat) -> Rat {
    a.minus(b).absolute()
}

/// The common fractions: the decimal that is looked for, as a number of
/// ten-millionths, with the numerator and denominator that it stands for.
pub open spec fn common_fractions() -> Seq<(int, int, int)> {
    seq![
        (2_500_000, 1, 4),
        (5_000_000, 1, 2),
        (7_500_000, 3, 4),
        (1_250_000, 1, 8),
        (3_750_000, 3, 8),
        (6_250_000, 5, 8),
        (8_750_000, 7, 8),
        (2_000_000, 1, 5),
        (4_000_000, 2, 5),
        (6_000_000, 3, 5),
        (8_000_000, 4, 5),
        (3_333_330, 1, 3),
        (6_666_660, 2, 3),
        (1_666_666, 1, 6),
        (8_333_333, 5, 6),
        (12_500_000, 5, 4),
        (15_000_000, 3, 2),
        (17_500_000, 7, 4),
        (25_000_000, 5, 2),
        (1_000_000, 1, 10),
    ]
}

/// The first common fraction from entry `i` on that the magnitude is within
/// a millionth of.
pub open spec fn common_match(abs: Rat, i: int) -> Option<(int, int)>
    decreases common_fractions().len() - i,
{
    if i < 0 || i >= common_fractions().len() {
        None
    } else {
        let entry = common_fractions()[i];
        if distance(abs, Rat::canon(entry.0, 10_000_000)).less_than(coarse_tolerance()) {
            Some((entry.1, entry.2))
        } else {
            common_match(abs, i + 1)
        }
    }
}

/// The error of the best fraction with denominator `d`.
pub open spec fn nearest_with(abs: Rat, d: int) -> (int, Rat) {
    let n = abs.times(Rat::from_int(d)).rounded_i32() as int;
    (n, distance(abs, Rat::canon(n, d)))
}

/// The search for the nearest fraction from denominator `d` on, with the
/// best found so far. A denominator replaces the best only where it is
/// strictly nearer, and ends the search where it is within the fine
/// tolerance.
pub open spec fn search_from(abs: Rat, d: int, num: int, den: int, err: Rat) -> (int, int)
    decreases 10_001 - d,
{
    if d < 1 || d > 10_000 {
        (num, den)
    } else {
        let found = nearest_with(abs, d);
        if found.1.less_than(err) {
            if found.1.less_than(fine_tolerance()) {
                (found.0, d)
            } else {
                search_from(abs, d + 1, found.0, d, found.1)
            }
        } else {
            search_from(abs, d + 1, num, den, err)
        }
    }
}

/// The fraction that stands for a decimal: zero for zero; a whole number
/// for a decimal within the fine tolerance of one; else the first common
/// fraction that it is within a millionth of; else the nearest fraction
/// with a denominator of at most 10000, the smallest such denominator
/// winning. The sign goes to the numerator.
pub open spec fn spec_decimal_to_fraction(v: Rat) -> (int, int) {
    let negative = v.num < 0;
    let abs = v.absolute();
    let whole = abs.rounded_i32() as int;
    if v.num == 0 {
        (0, 1)
    } else if distance(abs, Rat::from_int(abs.rounded())).less_than(fine_tolerance()) {
        (signed(negative, whole), 1)
    } else {
        match common_match(abs, 0) {
            Some((n, d)) => (signed(negative, n), d),
            None => {
                let best = search_from(
                    abs,
                    1,
                    whole,
                    1,
                    distance(abs, Rat::from_int(whole)),
                );
                (signed(negative, best.0), best.1)
            },
        }
    }
}

/// A number with a sign put on it.
pub open spec fn signed(negative: bool, x: int) -> int {
    if negative {
        -x
    } else {
        x
    }
}

/// The table of common fractions.
fn common_table() -> (r: Vec<(i32, i32, i32)>)
    ensures
        r@.len() == common_fractions().len(),
        forall|i: int|
            0 <= i < r@.len() ==> (#[trigger] r@[i]).0 == common_fractions()[i].0 && r@[i].1
                == common_fractions()[i].1 && r@[i].2 == common_fractions()[i].2,
        forall|i: int| 0 <= i < r@.len() ==> 0 < (#[trigger] r@[i]).1 <= 7,
{
    let mut t: Vec<(i32, i32, i32)> = Vec::new();
    t.push((2_500_000, 1, 4));
    t.push((5_000_000, 1, 2));
    t.push((7_500_000, 3, 4));
    t.push((1_250_000, 1, 8));
    t.push((3_750_000, 3, 8));
    t.push((6_250_000, 5, 8));
    t.push((8_750_000, 7, 8));
    t.push((2_000_000, 1, 5));
    t.push((4_000_000, 2, 5));
    t.push((6_000_000, 3, 5));
    t.push((8_000_000, 4, 5));
    t.push((3_333_330, 1, 3));
    t.push((6_666_660, 2, 3));
    t.push((1_666_666, 1, 6));
    t.push((8_333_333, 5, 6));
    t.push((12_500_000, 5, 4));
    t.push((15_000_000, 3, 2));
    t.push((17_500_000, 7, 4));
    t.push((25_000_000, 5, 2));
    t.push((1_000_000, 1, 10));
    t
}

/// A number that is not negative, with a sign put on it.
fn with_sign(negative: bool, x: i32) -> (r: i32)
    requires
        x >= 0,
    ensures
        r == signed(negative, x as int),
{
    if negative {
        -x
    } else {
        x
    }
}

/// The nearest whole number of a rational that is not negative is not
/// negative.
proof fn lemma_rounded_sign(q: Rat)
    requires
        q.num >= 0,
        q.den > 0,
    ensures
        q.rounded() >= 0,
        q.rounded_i32() >= 0,
{
    let m = (2 * magnitude(q.num) + q.den) / (2 * q.den);
    assert(m >= 0) by (nonlinear_arith)
        requires
            m == (2 * magnitude(q.num) + q.den) / (2 * q.den),
            q.den > 0,
    ;
    assert(crate::rational::signum(q.num) * m >= 0) by (nonlinear_arith)
        requires
            m >= 0,
            crate::rational::signum(q.num) >= 0,
    ;
}

/// The fraction that stands for a decimal in bytecode.
pub fn decimal_to_fraction(value: &Fraction) -> (r: (i32, i32))
    ensures
        r.0 == spec_decimal_to_fraction(value@).0,
        r.1 == spec_decimal_to_fraction(value@).1,
{
    if value.is_zero() {
        return (0, 1);
    }
    let negative = value.is_negative();
    let abs = value.abs();
    let fine = Fraction::new_raw(1, 10_000_000_000);
    let coarse = Fraction::new_raw(1, 1_000_000);
    let nearest_whole = abs.round_whole();
    let whole = abs.round_to_i32();
    proof {
        use_type_invariant(&abs);
        lemma_rounded_sign(abs@);
    }
    if abs.sub(&nearest_whole).abs().compare(&fine) < 0 {
        return (with_sign(negative, whole), 1);
    }
    let table = common_table();
    let mut i: usize = 0;
    while i < table.len()
        invariant
            i <= table.len(),
            table@.len() == common_fractions().len(),
            forall|k: int|
                0 <= k < table@.len() ==> (#[trigger] table@[k]).0 == common_fractions()[k].0
                    && table@[k].1 == common_fractions()[k].1 && table@[k].2
                    == common_fractions()[k].2,
            forall|k: int| 0 <= k < table@.len() ==> 0 < (#[trigger] table@[k]).1 <= 7,
            coarse@ == coarse_tolerance(),
            abs@ == value@.absolute(),
            negative == (value@.num < 0),
            value@.num != 0,
            !distance(abs@, Rat::from_int(abs@.rounded())).less_than(fine_tolerance()),
            common_match(abs@, 0) == common_match(abs@, i as int),
        decreases table.len() - i,
    {
        let entry = table[i];
        let dec = Fraction::new_raw(entry.0 as i64, 10_000_000);
        if abs.sub(&dec).abs().compare(&coarse) < 0 {
            return (with_sign(negative, entry.1), entry.2);
        }
        i = i + 1;
    }
    let mut best_num: i32 = whole;
    let mut best_den: i32 = 1;
    let mut best_err = abs.sub(&Fraction::from_int(whole)).abs();
    let mut d: i32 = 1;
    while d <= 10_000
        invariant
            1 <= d <= 10_001,
            0 <= best_num,
            1 <= best_den <= 10_000,
            fine@ == fine_tolerance(),
            abs@.wf(),
            abs@.num >= 0,
            abs@ == value@.absolute(),
            negative == (value@.num < 0),
            value@.num != 0,
            whole == abs@.rounded_i32(),
            !distance(abs@, Rat::from_int(abs@.rounded())).less_than(fine_tolerance()),
            common_match(abs@, 0) is None,
            search_from(abs@, 1, whole as int, 1, distance(abs@, Rat::from_int(whole as int)))
                == search_from(abs@, d as int, best_num as int, best_den as int, best_err@),
        decreases 10_001 - d,
    {
        let scaled = abs.mul(&Fraction::from_int(d));
        let n = scaled.round_to_i32();
        proof {
            use_type_invariant(&scaled);
            assert(abs@.num * d >= 0) by (nonlinear_arith)
                requires
                    abs@.num >= 0,
                    d >= 1,
            ;
            crate::rational::lemma_canon_sign(abs@.num * d, abs@.den * 1);
            lemma_rounded_sign(scaled@);
        }
        let err = abs.sub(&Fraction::new_raw(n as i64, d as i64)).abs();
        if err.compare(&best_err) < 0 {
            best_num = n;
            best_den = d;
            if err.compare(&fine) < 0 {
                return (with_sign(negative, best_num), best_den);
            }
            best_err = err;
        }
        d = d + 1;
    }
    (with_sign(negative, best_num), best_den)
}

} // verus!
