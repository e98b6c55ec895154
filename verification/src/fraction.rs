//! Arbitrary-precision rational numbers in lowest terms.

use crate::bignum::big_abs;
use crate::bignum::big_from_i64;
use crate::bignum::big_sign;
use crate::bignum::big_to_i64;
use crate::bignum::big_to_string;
use crate::bignum::big_to_u32;
use crate::bignum::big_value;
use crate::bignum::decimal_text;
use crate::bignum::ratio_absolute;
use crate::bignum::ratio_clone;
use crate::bignum::ratio_denom;
use crate::bignum::ratio_denom_ref;
use crate::bignum::ratio_minus;
use crate::bignum::ratio_negated;
use crate::bignum::ratio_new;
use crate::bignum::ratio_numer;
use crate::bignum::ratio_numer_ref;
use crate::bignum::ratio_order;
use crate::bignum::ratio_over;
use crate::bignum::ratio_plus;
use crate::bignum::ratio_recip;
use crate::bignum::ratio_reduced;
use crate::bignum::ratio_round;
use crate::bignum::ratio_times;
use crate::bignum::ratio_view;
use crate::rational::gcd;
use crate::rational::lemma_canon_of_wf;
use crate::rational::lemma_canon_scale;
use crate::rational::lemma_canon_wf;
use crate::rational::magnitude;
use crate::rational::signum;
use crate::rational::Rat;
use num_bigint::BigInt;
use num_rational::Ratio;
use vstd::prelude::*;
use vstd::string::StringExecFns;

verus! {

/// An exact rational number. It is always held in lowest terms with a
/// positive denominator, so equal numbers have equal representations.
#[derive(PartialEq, Eq, PartialOrd, Ord, Hash, Debug)]
pub struct Fraction {
    inner: Ratio<BigInt>,
}

impl View for Fraction {
    type V = Rat;

    closed spec fn view(&self) -> Rat {
        ratio_view(self.inner)
    }
}

impl Clone for Fraction {
    fn clone(&self) -> (r: Fraction)
        ensures
            r@ == self@,
    {
        self.clone_fraction()
    }
}

impl Default for Fraction {
    /// Zero.
    fn default() -> (r: Fraction)
        ensures
            r@ == Rat::zero(),
    {
        Fraction::zero()
    }
}

/// Two rationals in lowest terms that denote the same number are the same
/// pair.
pub proof fn lemma_lowest_terms_unique(a: Rat, b: Rat)
    requires
        a.wf(),
        b.wf(),
        a.num * b.den == b.num * a.den,
    ensures
        a == b,
{
    lemma_canon_of_wf(a);
    lemma_canon_of_wf(b);
    lemma_canon_scale(b.den, a.num, a.den);
    lemma_canon_scale(a.den, b.num, b.den);
    assert(b.den * a.num == a.den * b.num) by (nonlinear_arith)
        requires
            a.num * b.den == b.num * a.den,
    ;
    assert(b.den * a.den == a.den * b.den) by (nonlinear_arith);
}

/// An integer over one is in lowest terms.
pub proof fn lemma_integer_wf(n: int)
    ensures
        Rat::from_int(n).wf(),
        Rat::canon(n, 1) == Rat::from_int(n),
{
    let a = magnitude(n);
    assert(gcd(a, 1) == 1) by {
        assert(a % 1 == 0);
        assert(gcd(1, 0) == 1);
    }
    lemma_canon_of_wf(Rat::from_int(n));
}

impl Fraction {
    /// Every fraction is in lowest terms with a positive denominator.
    #[verifier::type_invariant]
    pub open spec fn lowest_terms(self) -> bool {
        self@.wf()
    }

    /// The fraction `num / den` in lowest terms. A zero denominator gives
    /// zero.
    pub fn new_raw(num: i64, den: i64) -> (r: Fraction)
        ensures
            r@ == (if den == 0 {
                Rat::zero()
            } else {
                Rat::canon(num as int, den as int)
            }),
            r@.wf(),
    {
        if den == 0 {
            proof {
                lemma_integer_wf(0);
            }
            Fraction { inner: ratio_new(big_from_i64(0), big_from_i64(1)) }
        } else {
            proof {
                lemma_canon_wf(num as int, den as int);
            }
            Fraction { inner: ratio_new(big_from_i64(num), big_from_i64(den)) }
        }
    }

    /// The fraction that a ratio denotes, in lowest terms. A ratio with a
    /// zero denominator gives zero.
    pub fn from_big_rational(r: Ratio<BigInt>) -> (f: Fraction)
        ensures
            f@ == (if ratio_denom(r) == 0 {
                Rat::zero()
            } else {
                Rat::canon(ratio_numer(r), ratio_denom(r))
            }),
            f@.wf(),
    {
        if big_sign(ratio_denom_ref(&r)) == 0 {
            Fraction::zero()
        } else {
            proof {
                lemma_canon_wf(ratio_numer(r), ratio_denom(r));
            }
            Fraction { inner: ratio_reduced(&r) }
        }
    }

    /// The fraction `num / den` in lowest terms. A zero denominator gives
    /// zero.
    pub fn from_big_ints(num: BigInt, den: BigInt) -> (f: Fraction)
        ensures
            f@ == (if big_value(den) == 0 {
                Rat::zero()
            } else {
                Rat::canon(big_value(num), big_value(den))
            }),
            f@.wf(),
    {
        if big_sign(&den) == 0 {
            Fraction::zero()
        } else {
            proof {
                lemma_canon_wf(big_value(num), big_value(den));
            }
            Fraction { inner: ratio_new(num, den) }
        }
    }

    /// The ratio held.
    pub fn as_big_rational(&self) -> (r: &Ratio<BigInt>)
        ensures
            ratio_view(*r) == self@,
    {
        &self.inner
    }

    /// Whether the denominator is zero. It never is.
    pub fn is_nan(&self) -> (r: bool)
        ensures
            r == (self@.den == 0),
            !r,
    {
        proof {
            use_type_invariant(self);
        }
        big_sign(ratio_denom_ref(&self.inner)) == 0
    }

    /// The fraction `num / den` in lowest terms. A zero denominator gives
    /// zero.
    pub fn new(num: i32, den: i32) -> (r: Fraction)
        ensures
            r@ == (if den == 0 {
                Rat::zero()
            } else {
                Rat::canon(num as int, den as int)
            }),
            r@.wf(),
    {
        Fraction::new_raw(num as i64, den as i64)
    }

    /// The integer `n` as a fraction.
    pub fn from_int(n: i32) -> (r: Fraction)
        ensures
            r@ == Rat::from_int(n as int),
            r@.wf(),
    {
        proof {
            lemma_integer_wf(n as int);
        }
        Fraction::new_raw(n as i64, 1)
    }

    /// The integer `n` as a fraction.
    pub fn from_i64(n: i64) -> (r: Fraction)
        ensures
            r@ == Rat::from_int(n as int),
            r@.wf(),
    {
        proof {
            lemma_integer_wf(n as int);
        }
        Fraction::new_raw(n, 1)
    }

    /// Zero.
    pub fn zero() -> (r: Fraction)
        ensures
            r@ == Rat::zero(),
            r@.wf(),
    {
        Fraction::from_i64(0)
    }

    /// One.
    pub fn one() -> (r: Fraction)
        ensures
            r@ == Rat::one(),
            r@.wf(),
    {
        Fraction::from_i64(1)
    }

    /// The sum of two fractions.
    pub fn add(&self, other: &Fraction) -> (r: Fraction)
        ensures
            r@ == self@.plus(other@),
            r@.wf(),
    {
        proof {
            use_type_invariant(self);
            use_type_invariant(other);
            lemma_denominators_multiply(self@, other@);
            lemma_canon_wf(
                self@.num * other@.den + other@.num * self@.den,
                self@.den * other@.den,
            );
        }
        Fraction { inner: ratio_plus(&self.inner, &other.inner) }
    }

    /// The difference of two fractions.
    pub fn sub(&self, other: &Fraction) -> (r: Fraction)
        ensures
            r@ == self@.minus(other@),
            r@.wf(),
    {
        proof {
            use_type_invariant(self);
            use_type_invariant(other);
            lemma_denominators_multiply(self@, other@);
            lemma_canon_wf(
                self@.num * other@.den - other@.num * self@.den,
                self@.den * other@.den,
            );
        }
        Fraction { inner: ratio_minus(&self.inner, &other.inner) }
    }

    /// The product of two fractions.
    pub fn mul(&self, other: &Fraction) -> (r: Fraction)
        ensures
            r@ == self@.times(other@),
            r@.wf(),
    {
        proof {
            use_type_invariant(self);
            use_type_invariant(other);
            lemma_denominators_multiply(self@, other@);
            lemma_canon_wf(self@.num * other@.num, self@.den * other@.den);
        }
        Fraction { inner: ratio_times(&self.inner, &other.inner) }
    }

    /// The quotient of two fractions. Dividing by zero gives one.
    pub fn div(&self, other: &Fraction) -> (r: Fraction)
        ensures
            r@ == self@.over(other@),
            r@.wf(),
    {
        proof {
            use_type_invariant(self);
            use_type_invariant(other);
        }
        if big_sign(ratio_numer_ref(&other.inner)) == 0 {
            Fraction::one()
        } else {
            proof {
                assert(self@.den * other@.num != 0) by (nonlinear_arith)
                    requires
                        self@.den > 0,
                        other@.num != 0,
                ;
                lemma_canon_wf(self@.num * other@.den, self@.den * other@.num);
            }
            Fraction { inner: ratio_over(&self.inner, &other.inner) }
        }
    }

    /// The fraction with its sign changed.
    pub fn neg(&self) -> (r: Fraction)
        ensures
            r@ == self@.negated(),
            r@.wf(),
    {
        proof {
            use_type_invariant(self);
        }
        Fraction { inner: ratio_negated(&self.inner) }
    }

    /// The absolute value.
    pub fn abs(&self) -> (r: Fraction)
        ensures
            r@ == self@.absolute(),
            r@.wf(),
    {
        proof {
            use_type_invariant(self);
        }
        Fraction { inner: ratio_absolute(&self.inner) }
    }

    /// The reciprocal. The reciprocal of zero is one.
    pub fn inverse(&self) -> (r: Fraction)
        ensures
            r@ == self@.inverse(),
            r@.wf(),
    {
        proof {
            use_type_invariant(self);
        }
        if big_sign(ratio_numer_ref(&self.inner)) == 0 {
            Fraction::one()
        } else {
            proof {
                lemma_inverse_wf(self@);
            }
            Fraction { inner: ratio_recip(&self.inner) }
        }
    }

    /// Whether two fractions are the same number.
    pub fn equals(&self, other: &Fraction) -> (r: bool)
        ensures
            r == (self@ == other@),
    {
        proof {
            use_type_invariant(self);
            use_type_invariant(other);
            if self@.compare(other@) == 0 {
                lemma_lowest_terms_unique(self@, other@);
            }
        }
        ratio_order(&self.inner, &other.inner) == 0
    }

    /// -1, 0 or 1 as this fraction is below, equal to or above the other.
    pub fn compare(&self, other: &Fraction) -> (r: i32)
        ensures
            r == self@.compare(other@),
    {
        proof {
            use_type_invariant(self);
            use_type_invariant(other);
        }
        ratio_order(&self.inner, &other.inner)
    }

    /// The sign: -1, 0 or 1.
    pub fn s(&self) -> (r: i32)
        ensures
            r == signum(self@.num),
    {
        big_sign(ratio_numer_ref(&self.inner))
    }

    /// The absolute value of the numerator, or `u32::MAX` where it is larger.
    pub fn n(&self) -> (r: u32)
        ensures
            r == (if magnitude(self@.num) <= u32::MAX {
                magnitude(self@.num) as int
            } else {
                u32::MAX as int
            }),
    {
        let a = big_abs(ratio_numer_ref(&self.inner));
        match big_to_u32(&a) {
            Some(v) => v,
            None => u32::MAX,
        }
    }

    /// The denominator, or `u32::MAX` where it is larger.
    pub fn d(&self) -> (r: u32)
        ensures
            r == (if self@.den <= u32::MAX {
                self@.den
            } else {
                u32::MAX as int
            }),
    {
        proof {
            use_type_invariant(self);
        }
        match big_to_u32(ratio_denom_ref(&self.inner)) {
            Some(v) => v,
            None => u32::MAX,
        }
    }

    /// The nearest whole number, a tie going away from zero, kept within
    /// the range of `u32`.
    pub fn round_to_u32(&self) -> (r: u32)
        ensures
            r == self@.rounded_u32(),
    {
        proof {
            use_type_invariant(self);
        }
        let whole = ratio_round(&self.inner);
        let n = ratio_numer_ref(&whole);
        match big_to_u32(n) {
            Some(v) => v,
            None => if big_sign(n) < 0 {
                0
            } else {
                u32::MAX
            },
        }
    }

    /// The nearest whole number, a tie going away from zero.
    pub fn round_whole(&self) -> (r: Fraction)
        ensures
            r@ == Rat::from_int(self@.rounded()),
            r@.wf(),
    {
        proof {
            use_type_invariant(self);
            lemma_integer_wf(self@.rounded());
        }
        Fraction { inner: ratio_round(&self.inner) }
    }

    /// The nearest whole number, a tie going away from zero, kept within
    /// the range of `i32`.
    pub fn round_to_i32(&self) -> (r: i32)
        ensures
            r == self@.rounded_i32(),
    {
        proof {
            use_type_invariant(self);
        }
        let whole = ratio_round(&self.inner);
        let n = ratio_numer_ref(&whole);
        match big_to_i64(n) {
            Some(v) => if v < -0x8000_0000 {
                -0x8000_0000
            } else if v > 0x7fff_ffff {
                0x7fff_ffff
            } else {
                v as i32
            },
            None => if big_sign(n) < 0 {
                -0x8000_0000
            } else {
                0x7fff_ffff
            },
        }
    }

    /// The absolute value of the numerator, where it fits a `u32`.
    pub fn numerator_u32(&self) -> (r: Option<u32>)
        ensures
            match r {
                Some(v) => v == magnitude(self@.num),
                None => magnitude(self@.num) > u32::MAX,
            },
    {
        let a = big_abs(ratio_numer_ref(&self.inner));
        big_to_u32(&a)
    }

    /// The denominator, where it fits a `u32`.
    pub fn denominator_u32(&self) -> (r: Option<u32>)
        ensures
            match r {
                Some(v) => v == self@.den,
                None => self@.den > u32::MAX,
            },
    {
        proof {
            use_type_invariant(self);
        }
        big_to_u32(ratio_denom_ref(&self.inner))
    }

    /// The numerator, where it fits an `i64`.
    pub fn numerator_i64(&self) -> (r: Option<i64>)
        ensures
            match r {
                Some(v) => v == self@.num,
                None => self@.num < i64::MIN || self@.num > i64::MAX,
            },
    {
        big_to_i64(ratio_numer_ref(&self.inner))
    }

    /// The denominator, where it fits an `i64`.
    pub fn denominator_i64(&self) -> (r: Option<i64>)
        ensures
            match r {
                Some(v) => v == self@.den,
                None => self@.den > i64::MAX,
            },
            self@.den > 0,
    {
        proof {
            use_type_invariant(self);
        }
        big_to_i64(ratio_denom_ref(&self.inner))
    }

    /// The absolute value of the numerator in decimal.
    pub fn numerator_str(&self) -> (r: String)
        ensures
            r@ == decimal_text(magnitude(self@.num) as int),
    {
        let a = big_abs(ratio_numer_ref(&self.inner));
        big_to_string(&a)
    }

    /// The denominator in decimal.
    pub fn denominator_str(&self) -> (r: String)
        ensures
            r@ == decimal_text(self@.den),
    {
        big_to_string(ratio_denom_ref(&self.inner))
    }

    /// The text of a fraction from the texts of its parts: the numerator
    /// alone for a whole number, numerator and denominator with `/` between
    /// them otherwise.
    pub fn join_text(numer: String, denom: &str, whole: bool) -> (r: String)
        ensures
            r@ == joined_text(numer@, denom@, whole),
    {
        if whole {
            numer
        } else {
            proof {
                reveal_strlit("/");
            }
            let with_bar = numer.concat("/");
            let both = with_bar.concat(denom);
            assert(both@ =~= joined_text(numer@, denom@, whole));
            both
        }
    }

    /// The text `n` for an integer, `n/d` otherwise.
    pub fn to_string_repr(&self) -> (r: String)
        ensures
            r@ == fraction_text(self@),
    {
        let numer = big_to_string(ratio_numer_ref(&self.inner));
        let denom = big_to_string(ratio_denom_ref(&self.inner));
        Fraction::join_text(numer, denom.as_str(), self.is_integer())
    }

    /// A copy of this fraction.
    pub fn clone_fraction(&self) -> (r: Fraction)
        ensures
            r@ == self@,
            r@.wf(),
    {
        proof {
            use_type_invariant(self);
        }
        Fraction { inner: ratio_clone(&self.inner) }
    }

    /// Whether the denominator is one.
    pub fn is_integer(&self) -> (r: bool)
        ensures
            r == self@.is_integer(),
    {
        match big_to_i64(ratio_denom_ref(&self.inner)) {
            Some(v) => v == 1,
            None => false,
        }
    }

    /// Whether this is zero.
    pub fn is_zero(&self) -> (r: bool)
        ensures
            r == (self@.num == 0),
            r == (self@ == Rat::zero()),
    {
        proof {
            use_type_invariant(self);
            if self@.num == 0 {
                assert(gcd(0, self@.den as nat) == self@.den) by {
                    assert(0nat % (self@.den as nat) == 0);
                    assert(gcd(self@.den as nat, 0) == self@.den);
                }
            }
        }
        big_sign(ratio_numer_ref(&self.inner)) == 0
    }

    /// Whether this is one.
    pub fn is_one(&self) -> (r: bool)
        ensures
            r == (self@ == Rat::one()),
    {
        let n = big_to_i64(ratio_numer_ref(&self.inner));
        let d = big_to_i64(ratio_denom_ref(&self.inner));
        match (n, d) {
            (Some(a), Some(b)) => a == 1 && b == 1,
            _ => false,
        }
    }

    /// Whether this is below zero.
    pub fn is_negative(&self) -> (r: bool)
        ensures
            r == (self@.num < 0),
    {
        big_sign(ratio_numer_ref(&self.inner)) < 0
    }

    /// Whether this is above zero.
    pub fn is_positive(&self) -> (r: bool)
        ensures
            r == (self@.num > 0),
    {
        big_sign(ratio_numer_ref(&self.inner)) > 0
    }
}

/// The texts of numerator and denominator joined: the numerator alone for a
/// whole number, both with `/` between them otherwise.
pub open spec fn joined_text(numer: Seq<char>, denom: Seq<char>, whole: bool) -> Seq<char> {
    if whole {
        numer
    } else {
        numer + seq!['/'] + denom
    }
}

/// The text of a rational: `n` for an integer, `n/d` otherwise.
pub open spec fn fraction_text(q: Rat) -> Seq<char> {
    joined_text(decimal_text(q.num), decimal_text(q.den), q.den == 1)
}

/// The product of two positive denominators is positive.
pub proof fn lemma_denominators_multiply(a: Rat, b: Rat)
    requires
        a.den > 0,
        b.den > 0,
    ensures
        a.den * b.den > 0,
{
    assert(a.den * b.den > 0) by (nonlinear_arith)
        requires
            a.den > 0,
            b.den > 0,
    ;
}

/// The reciprocal of a nonzero rational in lowest terms is in lowest terms.
pub proof fn lemma_inverse_wf(a: Rat)
    requires
        a.wf(),
        a.num != 0,
    ensures
        a.inverse().wf(),
{
    let n = magnitude(a.num);
    let d = a.den as nat;
    crate::rational::lemma_gcd_symmetric(n, d);
    assert(magnitude(signum(a.num) * a.den) == d) by (nonlinear_arith)
        requires
            a.den > 0,
            a.num != 0,
            d == a.den,
    ;
}

} // verus!
