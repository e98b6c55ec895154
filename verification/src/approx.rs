//! The inexact numbers that stand in for irrational values.
//!
//! The library computes exactly wherever it can. Where a value has no exact
//! form it is carried as an approximation of a type chosen by the caller,
//! typically a hardware floating-point number. The library never inspects
//! an approximation itself; it only combines approximations through the
//! operations below, and promises nothing about what they return. What it
//! does promise is which operation it applies to which operands: the
//! predicates at the end of this file say that an approximation is a
//! possible result of one operation on given operands.

use crate::fraction::Fraction;
use crate::rational::Rat;
use vstd::prelude::*;

verus! {

/// Approximate arithmetic on inexact numbers.
pub trait Approx: Sized {
    /// The approximation nearest to an exact fraction.
    fn from_fraction(value: &Fraction) -> Self;

    /// A fraction close to this approximation.
    fn to_fraction(&self) -> Fraction;

    /// A copy of this approximation.
    fn duplicate(&self) -> Self;

    fn plus(&self, rhs: &Self) -> Self;

    fn minus(&self, rhs: &Self) -> Self;

    fn times(&self, rhs: &Self) -> Self;

    fn over(&self, rhs: &Self) -> Self;

    fn negated(&self) -> Self;

    fn absolute(&self) -> Self;

    /// This approximation raised to the power `exponent`.
    fn power(&self, exponent: &Self) -> Self;

    /// Whether this approximation is exactly zero.
    fn is_zero(&self) -> bool;

    /// -1 below zero, 1 above zero, 0 otherwise.
    fn sign(&self) -> i32;

    /// The nearest whole number, kept within the range of `u32`.
    fn round_to_u32(&self) -> u32;
}

/// Whether `r` is an approximation that `from_fraction` may give for the
/// fraction `f`.
pub open spec fn approximates<A: Approx>(f: Fraction, r: A) -> bool {
    call_ensures(A::from_fraction, (&f,), r)
}

/// Whether `r` is an approximation that `from_fraction` may give for a
/// fraction that denotes `q`.
pub open spec fn approximates_rational<A: Approx>(q: Rat, r: A) -> bool {
    exists|f: Fraction| f@ == q && #[trigger] approximates(f, r)
}

/// Whether `r` is a copy that `duplicate` may give of `v`.
pub open spec fn duplicates<A: Approx>(v: A, r: A) -> bool {
    call_ensures(A::duplicate, (&v,), r)
}

/// Whether `r` is a sum that `plus` may give for `a` and `b`.
pub open spec fn adds<A: Approx>(a: A, b: A, r: A) -> bool {
    call_ensures(A::plus, (&a, &b), r)
}

/// Whether `r` is a difference that `minus` may give for `a` and `b`.
pub open spec fn subtracts<A: Approx>(a: A, b: A, r: A) -> bool {
    call_ensures(A::minus, (&a, &b), r)
}

/// Whether `r` is a quotient that `over` may give for `a` and `b`.
pub open spec fn divides<A: Approx>(a: A, b: A, r: A) -> bool {
    call_ensures(A::over, (&a, &b), r)
}

/// Whether `r` is what `negated` may give for `a`.
pub open spec fn negates<A: Approx>(a: A, r: A) -> bool {
    call_ensures(A::negated, (&a,), r)
}

/// Whether `r` is what `absolute` may give for `a`.
pub open spec fn takes_absolute<A: Approx>(a: A, r: A) -> bool {
    call_ensures(A::absolute, (&a,), r)
}

/// Whether `r` is a product that `times` may give for `a` and `b`.
pub open spec fn multiplies<A: Approx>(a: A, b: A, r: A) -> bool {
    call_ensures(A::times, (&a, &b), r)
}

/// Whether `r` is a power that `power` may give for `base` and `exponent`.
pub open spec fn raises<A: Approx>(base: A, exponent: A, r: A) -> bool {
    call_ensures(A::power, (&base, &exponent), r)
}

} // verus!
