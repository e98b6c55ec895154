//! The mathematics of exact rational numbers.
//!
//! A rational is modelled as a pair of integers in lowest terms with a
//! positive denominator. Every operation re-normalises its result, so two
//! rationals denote the same number exactly when they are the same pair.

use vstd::arithmetic::div_mod::lemma_div_multiples_vanish;
use vstd::arithmetic::div_mod::lemma_fundamental_div_mod;
use vstd::arithmetic::div_mod::lemma_small_mod;
use vstd::arithmetic::div_mod::lemma_truncate_middle;
use vstd::prelude::*;

verus! {

/// The absolute value of an integer.
pub open spec fn magnitude(x: int) -> nat {
    if x < 0 {
        (-x) as nat
    } else {
        x as nat
    }
}

/// The sign of an integer: -1, 0 or 1.
pub open spec fn signum(x: int) -> int {
    if x < 0 {
        -1
    } else if x == 0 {
        0
    } else {
        1
    }
}

/// The greatest common divisor, by Euclid's algorithm. `gcd(0, 0)` is 0.
pub open spec fn gcd(a: nat, b: nat) -> nat
    decreases b,
{
    if b == 0 {
        a
    } else {
        gcd(b, a % b)
    }
}

/// An exact rational number `num / den`.
pub struct Rat {
    pub num: int,
    pub den: int,
}

impl Rat {
    /// Lowest terms and a positive denominator.
    pub open spec fn wf(self) -> bool {
        self.den > 0 && gcd(magnitude(self.num), self.den as nat) == 1
    }

    /// The rational `n / d` in lowest terms. `d` must not be zero.
    pub open spec fn canon(n: int, d: int) -> Rat {
        let g = gcd(magnitude(n), magnitude(d)) as int;
        Rat { num: signum(n) * signum(d) * (magnitude(n) as int / g), den: magnitude(d) as int / g }
    }

    pub open spec fn zero() -> Rat {
        Rat { num: 0, den: 1 }
    }

    pub open spec fn one() -> Rat {
        Rat { num: 1, den: 1 }
    }

    pub open spec fn from_int(n: int) -> Rat {
        Rat { num: n, den: 1 }
    }

    pub open spec fn plus(self, rhs: Rat) -> Rat {
        Rat::canon(self.num * rhs.den + rhs.num * self.den, self.den * rhs.den)
    }

    pub open spec fn minus(self, rhs: Rat) -> Rat {
        Rat::canon(self.num * rhs.den - rhs.num * self.den, self.den * rhs.den)
    }

    pub open spec fn times(self, rhs: Rat) -> Rat {
        Rat::canon(self.num * rhs.num, self.den * rhs.den)
    }

    /// Division. Dividing by zero gives one.
    pub open spec fn over(self, rhs: Rat) -> Rat {
        if rhs.num == 0 {
            Rat::one()
        } else {
            Rat::canon(self.num * rhs.den, self.den * rhs.num)
        }
    }

    pub open spec fn negated(self) -> Rat {
        Rat { num: -self.num, den: self.den }
    }

    pub open spec fn absolute(self) -> Rat {
        Rat { num: magnitude(self.num) as int, den: self.den }
    }

    /// The reciprocal. The reciprocal of zero is one.
    pub open spec fn inverse(self) -> Rat {
        if self.num == 0 {
            Rat::one()
        } else {
            Rat { num: signum(self.num) * self.den, den: magnitude(self.num) as int }
        }
    }

    /// Strict order of two rationals with positive denominators.
    pub open spec fn less_than(self, rhs: Rat) -> bool {
        self.num * rhs.den < rhs.num * self.den
    }

    /// -1, 0 or 1 as `self` is below, equal to or above `rhs`.
    pub open spec fn compare(self, rhs: Rat) -> int {
        if self.less_than(rhs) {
            -1
        } else if rhs.less_than(self) {
            1
        } else {
            0
        }
    }

    /// The nearest whole number, a tie going away from zero.
    pub open spec fn rounded(self) -> int {
        signum(self.num) * ((2 * magnitude(self.num) + self.den) / (2 * self.den))
    }

    /// The nearest whole number, kept within the range of `u32`.
    pub open spec fn rounded_u32(self) -> u32 {
        let r = self.rounded();
        if r < 0 {
            0
        } else if r > u32::MAX {
            u32::MAX
        } else {
            r as u32
        }
    }

    /// The nearest whole number, kept within the range of `i32`.
    pub open spec fn rounded_i32(self) -> i32 {
        let r = self.rounded();
        if r < i32::MIN {
            i32::MIN
        } else if r > i32::MAX {
            i32::MAX
        } else {
            r as i32
        }
    }

    pub open spec fn is_integer(self) -> bool {
        self.den == 1
    }

    /// `self` raised to a natural power, by repeated multiplication.
    pub open spec fn nat_power(self, n: nat) -> Rat
        decreases n,
    {
        if n == 0 {
            Rat::one()
        } else {
            self.nat_power((n - 1) as nat).times(self)
        }
    }

    /// `self` raised to an integer power. A negative power is the reciprocal
    /// of the positive one, so a negative power of zero is one.
    pub open spec fn int_power(self, n: int) -> Rat {
        if n >= 0 {
            self.nat_power(n as nat)
        } else {
            self.nat_power((-n) as nat).inverse()
        }
    }
}

/// Witnesses that the greatest common divisor divides both arguments.
pub proof fn lemma_gcd_divides(a: nat, b: nat) -> (q: (nat, nat))
    ensures
        a == gcd(a, b) * q.0,
        b == gcd(a, b) * q.1,
    decreases b,
{
    if b == 0 {
        (1, 0)
    } else {
        let r = lemma_gcd_divides(b, a % b);
        let g = gcd(a, b);
        assert(g == gcd(b, a % b));
        lemma_fundamental_div_mod(a as int, b as int);
        let k = (a / b) as nat;
        assert(a == g * (r.0 * k + r.1)) by (nonlinear_arith)
            requires
                a == b * k + a % b,
                b == g * r.0,
                a % b == g * r.1,
        ;
        ((r.0 * k + r.1) as nat, r.0)
    }
}

/// The greatest common divisor is positive unless both arguments are zero.
pub proof fn lemma_gcd_positive(a: nat, b: nat)
    requires
        a > 0 || b > 0,
    ensures
        gcd(a, b) > 0,
    decreases b,
{
    if b != 0 {
        lemma_gcd_positive(b, a % b);
    }
}

/// The greatest common divisor does not depend on the order of its arguments.
pub proof fn lemma_gcd_symmetric(a: nat, b: nat)
    ensures
        gcd(a, b) == gcd(b, a),
{
    if a == 0 || b == 0 {
        assert(gcd(0, 0) == 0);
        if a != 0 {
            assert(0nat % a == 0);
            assert(gcd(0, a) == gcd(a, 0));
        }
        if b != 0 {
            assert(0nat % b == 0);
            assert(gcd(0, b) == gcd(b, 0));
        }
    } else if a < b {
        lemma_small_mod(a, b);
        assert(gcd(a, b) == gcd(b, a % b));
    } else if b < a {
        lemma_small_mod(b, a);
        assert(gcd(b, a) == gcd(a, b % a));
    }
}

/// Scaling both arguments scales the greatest common divisor.
pub proof fn lemma_gcd_scale(k: nat, a: nat, b: nat)
    requires
        k > 0,
    ensures
        gcd(k * a, k * b) == k * gcd(a, b),
    decreases b,
{
    if b == 0 {
        assert(k * b == 0) by (nonlinear_arith)
            requires
                b == 0,
        ;
    } else {
        assert(k * b > 0) by (nonlinear_arith)
            requires
                k > 0,
                b > 0,
        ;
        lemma_truncate_middle(a as int, k as int, b as int);
        assert((k * a) % (k * b) == k * (a % b));
        lemma_gcd_scale(k, b, a % b);
    }
}

/// A pair of integers reduced by its greatest common divisor is in lowest
/// terms.
pub proof fn lemma_canon_wf(n: int, d: int)
    requires
        d != 0,
    ensures
        Rat::canon(n, d).wf(),
{
    let a = magnitude(n);
    let b = magnitude(d);
    let g = gcd(a, b);
    lemma_gcd_positive(a, b);
    let q = lemma_gcd_divides(a, b);
    lemma_gcd_scale(g, q.0, q.1);
    assert(g * gcd(q.0, q.1) == g);
    assert(gcd(q.0, q.1) == 1) by (nonlinear_arith)
        requires
            g * gcd(q.0, q.1) == g,
            g > 0,
    ;
    lemma_quotient(a, g, q.0);
    lemma_quotient(b, g, q.1);
    assert(q.1 > 0) by (nonlinear_arith)
        requires
            b == g * q.1,
            b > 0,
    ;
    let r = Rat::canon(n, d);
    assert(r.den == q.1);
    assert(magnitude(r.num) == q.0) by (nonlinear_arith)
        requires
            r.num == signum(n) * signum(d) * (q.0 as int),
            d != 0,
            n == 0 ==> q.0 == 0,
            a == g * q.0,
            a == magnitude(n),
            g > 0,
    {
        if n == 0 {
        } else if signum(n) * signum(d) == 1 {
        } else {
            assert(signum(n) * signum(d) == -1);
        }
    }
}

/// The normal form of a fraction of two numbers that are not negative has a
/// numerator that is not negative.
pub proof fn lemma_canon_sign(n: int, d: int)
    requires
        n >= 0,
        d > 0,
    ensures
        Rat::canon(n, d).num >= 0,
{
    let g = gcd(magnitude(n), magnitude(d));
    lemma_gcd_positive(magnitude(n), magnitude(d));
    let q = magnitude(n) as int / g as int;
    assert(q >= 0) by (nonlinear_arith)
        requires
            q == magnitude(n) as int / g as int,
            g > 0,
    ;
    assert(signum(n) * signum(d) * q >= 0) by (nonlinear_arith)
        requires
            n >= 0,
            d > 0,
            q >= 0,
            signum(n) >= 0,
            signum(d) == 1,
    ;
}

/// Dividing a product by one of its positive factors gives the other.
pub proof fn lemma_quotient(a: nat, g: nat, q: nat)
    requires
        g > 0,
        a == g * q,
    ensures
        a as int / g as int == q,
{
    lemma_div_multiples_vanish(q as int, g as int);
    assert(g * q == q * g) by (nonlinear_arith);
}

/// A rational in lowest terms is its own normal form.
pub proof fn lemma_canon_of_wf(r: Rat)
    requires
        r.wf(),
    ensures
        Rat::canon(r.num, r.den) == r,
{
    let a = magnitude(r.num);
    assert(magnitude(r.den) == r.den);
    assert(a as int / 1 == a);
    assert(r.den / 1 == r.den);
    assert(signum(r.den) == 1);
    assert(signum(r.num) * 1 * (a as int) == r.num) by (nonlinear_arith)
        requires
            a == magnitude(r.num),
    ;
}

/// Multiplying numerator and denominator by the same nonzero integer does
/// not change the normal form.
pub proof fn lemma_canon_scale(k: int, n: int, d: int)
    requires
        k != 0,
        d != 0,
    ensures
        Rat::canon(k * n, k * d) == Rat::canon(n, d),
{
    let a = magnitude(n);
    let b = magnitude(d);
    let m = magnitude(k);
    let g = gcd(a, b);
    lemma_gcd_positive(a, b);
    let q = lemma_gcd_divides(a, b);
    lemma_gcd_scale(m, a, b);
    assert(magnitude(k * n) == m * a) by (nonlinear_arith)
        requires
            a == magnitude(n),
            m == magnitude(k),
    ;
    assert(magnitude(k * d) == m * b) by (nonlinear_arith)
        requires
            b == magnitude(d),
            m == magnitude(k),
    ;
    assert(signum(k * n) * signum(k * d) == signum(n) * signum(d)) by (nonlinear_arith)
        requires
            k != 0,
    ;
    let mg = m * g;
    assert(mg > 0) by (nonlinear_arith)
        requires
            mg == m * g,
            m > 0,
            g > 0,
    ;
    assert(m * a == mg * q.0) by (nonlinear_arith)
        requires
            a == g * q.0,
            mg == m * g,
    ;
    assert(m * b == mg * q.1) by (nonlinear_arith)
        requires
            b == g * q.1,
            mg == m * g,
    ;
    lemma_quotient(m * a, mg, q.0);
    lemma_quotient(m * b, mg, q.1);
    lemma_quotient(a, g, q.0);
    lemma_quotient(b, g, q.1);
}

/// The normal form of `n / d` denotes the same number as `n / d`.
pub proof fn lemma_canon_value(n: int, d: int)
    requires
        d != 0,
    ensures
        Rat::canon(n, d).num * d == n * Rat::canon(n, d).den,
{
    let a = magnitude(n);
    let b = magnitude(d);
    let g = gcd(a, b);
    lemma_gcd_positive(a, b);
    let q = lemma_gcd_divides(a, b);
    lemma_quotient(a, g, q.0);
    lemma_quotient(b, g, q.1);
    let r = Rat::canon(n, d);
    assert(r.num * d == n * r.den) by (nonlinear_arith)
        requires
            r.num == signum(n) * signum(d) * (q.0 as int),
            r.den == q.1,
            a == g * q.0,
            b == g * q.1,
            a == magnitude(n),
            b == magnitude(d),
            d != 0,
    {
        assert(n == signum(n) * a);
        assert(d == signum(d) * b);
        assert(signum(d) * signum(d) == 1);
    }
}

/// Addition of rationals is commutative.
pub proof fn lemma_plus_commutative(a: Rat, b: Rat)
    ensures
        a.plus(b) == b.plus(a),
{
    assert(a.den * b.den == b.den * a.den) by (nonlinear_arith);
}

/// Multiplication of rationals is commutative.
pub proof fn lemma_times_commutative(a: Rat, b: Rat)
    ensures
        a.times(b) == b.times(a),
{
    assert(a.den * b.den == b.den * a.den) by (nonlinear_arith);
    assert(a.num * b.num == b.num * a.num) by (nonlinear_arith);
}

/// Reducing one operand of a sum before adding does not change the sum.
proof fn lemma_plus_absorbs_canon(n: int, d: int, c: Rat)
    requires
        d != 0,
        c.den > 0,
    ensures
        Rat::canon(n, d).plus(c) == Rat::canon(n * c.den + c.num * d, d * c.den),
{
    let a = magnitude(n);
    let b = magnitude(d);
    let g = gcd(a, b);
    lemma_gcd_positive(a, b);
    let q = lemma_gcd_divides(a, b);
    lemma_quotient(a, g, q.0);
    lemma_quotient(b, g, q.1);
    let r = Rat::canon(n, d);
    let k = signum(d) * (g as int);
    assert(k != 0) by (nonlinear_arith)
        requires
            k == signum(d) * (g as int),
            g > 0,
            d != 0,
    ;
    assert(k * r.num == n && k * r.den == d) by (nonlinear_arith)
        requires
            k == signum(d) * (g as int),
            r.num == signum(n) * signum(d) * (q.0 as int),
            r.den == q.1,
            a == g * q.0,
            b == g * q.1,
            a == magnitude(n),
            b == magnitude(d),
            d != 0,
    {
        assert(n == signum(n) * a);
        assert(d == signum(d) * b);
        assert(signum(d) * signum(d) == 1);
    }
    assert(r.den > 0) by (nonlinear_arith)
        requires
            r.den == q.1,
            b == g * q.1,
            b > 0,
    ;
    assert(r.den * c.den != 0) by (nonlinear_arith)
        requires
            r.den > 0,
            c.den > 0,
    ;
    lemma_canon_scale(k, r.num * c.den + c.num * r.den, r.den * c.den);
    assert(k * (r.num * c.den + c.num * r.den) == n * c.den + c.num * d) by (nonlinear_arith)
        requires
            k * r.num == n,
            k * r.den == d,
    ;
    assert(k * (r.den * c.den) == d * c.den) by (nonlinear_arith)
        requires
            k * r.den == d,
    ;
}

/// Addition of rationals is associative.
pub proof fn lemma_plus_associative(a: Rat, b: Rat, c: Rat)
    requires
        a.den > 0,
        b.den > 0,
        c.den > 0,
    ensures
        a.plus(b).plus(c) == a.plus(b.plus(c)),
{
    let n1 = a.num * b.den + b.num * a.den;
    let d1 = a.den * b.den;
    let n2 = b.num * c.den + c.num * b.den;
    let d2 = b.den * c.den;
    assert(d1 > 0) by (nonlinear_arith)
        requires
            d1 == a.den * b.den,
            a.den > 0,
            b.den > 0,
    ;
    assert(d2 > 0) by (nonlinear_arith)
        requires
            d2 == b.den * c.den,
            b.den > 0,
            c.den > 0,
    ;
    lemma_plus_absorbs_canon(n1, d1, c);
    lemma_plus_absorbs_canon(n2, d2, a);
    lemma_plus_commutative(a, Rat::canon(n2, d2));
    let t1 = a.num * (b.den * c.den);
    let t2 = b.num * (a.den * c.den);
    let t3 = c.num * (a.den * b.den);
    assert(n1 * c.den == t1 + t2) by (nonlinear_arith)
        requires
            n1 == a.num * b.den + b.num * a.den,
            t1 == a.num * (b.den * c.den),
            t2 == b.num * (a.den * c.den),
    ;
    assert(n2 * a.den == t2 + t3) by (nonlinear_arith)
        requires
            n2 == b.num * c.den + c.num * b.den,
            t2 == b.num * (a.den * c.den),
            t3 == c.num * (a.den * b.den),
    ;
    assert(d1 * c.den == d2 * a.den) by (nonlinear_arith)
        requires
            d1 == a.den * b.den,
            d2 == b.den * c.den,
    ;
}

/// Reducing one operand of a product before multiplying does not change
/// the product.
proof fn lemma_times_absorbs_canon(n: int, d: int, c: Rat)
    requires
        d != 0,
        c.den > 0,
    ensures
        Rat::canon(n, d).times(c) == Rat::canon(n * c.num, d * c.den),
{
    let a = magnitude(n);
    let b = magnitude(d);
    let g = gcd(a, b);
    lemma_gcd_positive(a, b);
    let q = lemma_gcd_divides(a, b);
    lemma_quotient(a, g, q.0);
    lemma_quotient(b, g, q.1);
    let r = Rat::canon(n, d);
    let k = signum(d) * (g as int);
    assert(k != 0) by (nonlinear_arith)
        requires
            k == signum(d) * (g as int),
            g > 0,
            d != 0,
    ;
    assert(k * r.num == n && k * r.den == d) by (nonlinear_arith)
        requires
            k == signum(d) * (g as int),
            r.num == signum(n) * signum(d) * (q.0 as int),
            r.den == q.1,
            a == g * q.0,
            b == g * q.1,
            a == magnitude(n),
            b == magnitude(d),
            d != 0,
    {
        assert(n == signum(n) * a);
        assert(d == signum(d) * b);
        assert(signum(d) * signum(d) == 1);
    }
    assert(r.den > 0) by (nonlinear_arith)
        requires
            r.den == q.1,
            b == g * q.1,
            b > 0,
    ;
    assert(r.den * c.den != 0) by (nonlinear_arith)
        requires
            r.den > 0,
            c.den > 0,
    ;
    lemma_canon_scale(k, r.num * c.num, r.den * c.den);
    assert(k * (r.num * c.num) == n * c.num) by (nonlinear_arith)
        requires
            k * r.num == n,
    ;
    assert(k * (r.den * c.den) == d * c.den) by (nonlinear_arith)
        requires
            k * r.den == d,
    ;
}

/// Multiplication of rationals is associative.
pub proof fn lemma_times_associative(a: Rat, b: Rat, c: Rat)
    requires
        a.den > 0,
        b.den > 0,
        c.den > 0,
    ensures
        a.times(b).times(c) == a.times(b.times(c)),
{
    let d1 = a.den * b.den;
    let d2 = b.den * c.den;
    assert(d1 > 0) by (nonlinear_arith)
        requires
            d1 == a.den * b.den,
            a.den > 0,
            b.den > 0,
    ;
    assert(d2 > 0) by (nonlinear_arith)
        requires
            d2 == b.den * c.den,
            b.den > 0,
            c.den > 0,
    ;
    lemma_times_absorbs_canon(a.num * b.num, d1, c);
    lemma_times_absorbs_canon(b.num * c.num, d2, a);
    lemma_times_commutative(a, b.times(c));
    assert((a.num * b.num) * c.num == (b.num * c.num) * a.num) by (nonlinear_arith);
    assert(d1 * c.den == d2 * a.den) by (nonlinear_arith)
        requires
            d1 == a.den * b.den,
            d2 == b.den * c.den,
    ;
}

/// One is the unit of multiplication.
pub proof fn lemma_times_one(a: Rat)
    requires
        a.wf(),
    ensures
        a.times(Rat::one()) == a,
        Rat::one().times(a) == a,
{
    lemma_canon_of_wf(a);
    lemma_times_commutative(a, Rat::one());
    assert(a.num * 1 == a.num && a.den * 1 == a.den);
}

/// One is in lowest terms.
pub proof fn lemma_one_wf()
    ensures
        Rat::one().wf(),
{
    assert(gcd(1, 1) == 1) by {
        assert(1nat % 1nat == 0);
        assert(gcd(1, 0) == 1);
    }
}

/// A natural power of a rational with a positive denominator is in lowest
/// terms.
pub proof fn lemma_nat_power_wf(a: Rat, n: nat)
    requires
        a.den > 0,
    ensures
        a.nat_power(n).wf(),
    decreases n,
{
    if n == 0 {
        lemma_one_wf();
    } else {
        lemma_nat_power_wf(a, (n - 1) as nat);
        let p = a.nat_power((n - 1) as nat);
        assert(p.den * a.den > 0) by (nonlinear_arith)
            requires
                p.den > 0,
                a.den > 0,
        ;
        lemma_canon_wf(p.num * a.num, p.den * a.den);
    }
}

/// The square raised to a power is the number raised to twice that power.
pub proof fn lemma_nat_power_of_square(a: Rat, k: nat)
    requires
        a.den > 0,
    ensures
        a.times(a).nat_power(k) == a.nat_power(2 * k),
    decreases k,
{
    if k > 0 {
        lemma_nat_power_of_square(a, (k - 1) as nat);
        let p = a.nat_power((2 * k - 2) as nat);
        lemma_nat_power_wf(a, (2 * k - 2) as nat);
        lemma_times_associative(p, a, a);
        assert(a.nat_power((2 * k - 1) as nat) == p.times(a));
        assert(a.nat_power(2 * k) == a.nat_power((2 * k - 1) as nat).times(a));
    }
}

} // verus!
