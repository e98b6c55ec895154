//! Exact powers and roots: integer powers of fractions by repeated squaring,
//! and roots that are taken only where they come out exactly.

use crate::fraction::Fraction;
use crate::rational::lemma_nat_power_of_square;
use crate::rational::lemma_nat_power_wf;
use crate::rational::lemma_times_associative;
use crate::rational::lemma_times_commutative;
use crate::rational::lemma_times_one;
use crate::rational::magnitude;
use crate::rational::signum;
use crate::rational::Rat;
use vstd::arithmetic::power::lemma0_pow;
use vstd::arithmetic::power::lemma1_pow;
use vstd::arithmetic::power::lemma_pow0;
use vstd::arithmetic::power::lemma_pow1;
use vstd::arithmetic::power::lemma_pow_adds;
use vstd::arithmetic::power::lemma_pow_increases;
use vstd::arithmetic::power::lemma_pow_positive;
use vstd::arithmetic::power::pow;
use vstd::prelude::*;

verus! {

/// A larger base gives a power at least as large.
pub proof fn lemma_pow_base_increases(a: nat, b: nat, n: nat)
    requires
        a <= b,
    ensures
        pow(a as int, n) <= pow(b as int, n),
    decreases n,
{
    if n == 0 {
        lemma_pow0(a as int);
        lemma_pow0(b as int);
    } else {
        lemma_pow_base_increases(a, b, (n - 1) as nat);
        lemma_pow_adds(a as int, (n - 1) as nat, 1);
        lemma_pow_adds(b as int, (n - 1) as nat, 1);
        lemma_pow1(a as int);
        lemma_pow1(b as int);
        let x = pow(a as int, (n - 1) as nat);
        let y = pow(b as int, (n - 1) as nat);
        assert(x >= 0) by {
            if a == 0 {
                if n - 1 == 0 {
                    lemma_pow0(0);
                } else {
                    lemma0_pow((n - 1) as nat);
                }
            } else {
                lemma_pow_positive(a as int, (n - 1) as nat);
            }
        }
        assert(x * a <= y * b) by (nonlinear_arith)
            requires
                0 <= x <= y,
                0 <= a <= b,
        ;
    }
}

/// A strictly larger base gives a strictly larger power, for a positive
/// exponent.
pub proof fn lemma_pow_base_strictly_increases(a: nat, b: nat, n: nat)
    requires
        a < b,
        n >= 1,
    ensures
        pow(a as int, n) < pow(b as int, n),
{
    lemma_pow_base_increases(a, b, (n - 1) as nat);
    lemma_pow_adds(a as int, (n - 1) as nat, 1);
    lemma_pow_adds(b as int, (n - 1) as nat, 1);
    lemma_pow1(a as int);
    lemma_pow1(b as int);
    lemma_pow_positive(b as int, (n - 1) as nat);
    let x = pow(a as int, (n - 1) as nat);
    let y = pow(b as int, (n - 1) as nat);
    assert(x >= 0) by {
        if a == 0 {
            if n - 1 == 0 {
                lemma_pow0(0);
            } else {
                lemma0_pow((n - 1) as nat);
            }
        } else {
            lemma_pow_positive(a as int, (n - 1) as nat);
        }
    }
    assert(x * a < y * b) by (nonlinear_arith)
        requires
            0 <= x <= y,
            0 < y,
            0 <= a < b,
    ;
}

/// `base` raised to `exp`, where the power fits 64 bits.
pub fn checked_power(base: u64, exp: u64) -> (r: Option<u64>)
    ensures
        match r {
            Some(v) => v == pow(base as int, exp as nat),
            None => pow(base as int, exp as nat) > u64::MAX,
        },
{
    if exp == 0 {
        proof {
            lemma_pow0(base as int);
        }
        return Some(1);
    }
    if base == 0 {
        proof {
            lemma0_pow(exp as nat);
        }
        return Some(0);
    }
    if base == 1 {
        proof {
            lemma1_pow(exp as nat);
        }
        return Some(1);
    }
    let mut acc: u64 = 1;
    let mut i: u64 = 0;
    proof {
        lemma_pow0(base as int);
    }
    while i < exp
        invariant
            i <= exp,
            base >= 2,
            acc == pow(base as int, i as nat),
            acc >= 1,
        decreases exp - i,
    {
        proof {
            lemma_pow_adds(base as int, i as nat, 1);
            lemma_pow1(base as int);
        }
        if acc > u64::MAX / base {
            proof {
                assert(acc * base > u64::MAX) by (nonlinear_arith)
                    requires
                        acc > u64::MAX / base,
                        base >= 2,
                ;
                lemma_pow_increases(base as nat, (i + 1) as nat, exp as nat);
            }
            return None;
        }
        assert(1 <= acc * base <= u64::MAX) by (nonlinear_arith)
            requires
                1 <= acc <= u64::MAX / base,
                base >= 2,
        ;
        acc = acc * base;
        i = i + 1;
    }
    Some(acc)
}

/// The exact `n`-th root of `value`, if it is a whole number. Zero and one
/// are their own roots for every `n`, and every number is its own first
/// root.
pub fn integer_nth_root(value: u64, n: u64) -> (r: Option<u64>)
    ensures
        value == 0 ==> r == Some(0u64),
        value != 0 && (value == 1 || n == 1) ==> r == Some(value),
        value >= 2 && n != 1 ==> match r {
            Some(root) => pow(root as int, n as nat) == value,
            None => forall|c: nat| pow(c as int, n as nat) != value,
        },
{
    if value == 0 {
        return Some(0);
    }
    if value == 1 || n == 1 {
        return Some(value);
    }
    if n == 0 {
        proof {
            assert forall|c: nat| pow(c as int, 0) != value by {
                lemma_pow0(c as int);
            }
        }
        return None;
    }
    let mut lo: u64 = 1;
    let mut hi: u64 = 0x1_0000_0000;
    proof {
        lemma1_pow(n as nat);
        lemma_pow_increases(0x1_0000_0000, 2, n as nat);
        lemma_pow_adds(0x1_0000_0000, 1, 1);
        lemma_pow1(0x1_0000_0000);
    }
    while hi - lo > 1
        invariant
            1 <= lo < hi <= 0x1_0000_0000,
            n >= 2,
            pow(lo as int, n as nat) <= value,
            pow(hi as int, n as nat) > value,
        decreases hi - lo,
    {
        let mid = lo + (hi - lo) / 2;
        match checked_power(mid, n) {
            Some(v) => {
                if v <= value {
                    lo = mid;
                } else {
                    hi = mid;
                }
            },
            None => {
                hi = mid;
            },
        }
    }
    let found = match checked_power(lo, n) {
        Some(v) => v == value,
        None => false,
    };
    if found {
        Some(lo)
    } else {
        proof {
            assert forall|c: nat| pow(c as int, n as nat) != value by {
                if c <= lo {
                    lemma_pow_base_increases(c, lo as nat, n as nat);
                } else {
                    lemma_pow_base_increases(hi as nat, c, n as nat);
                }
            }
        }
        None
    }
}

/// `base` raised to the natural power `n`, by repeated squaring.
pub fn rational_nat_power(base: &Fraction, n: u64) -> (r: Fraction)
    ensures
        r@ == base@.nat_power(n as nat),
        r@.wf(),
{
    let mut result = Fraction::one();
    let mut current = base.clone_fraction();
    let mut remaining = n;
    proof {
        lemma_nat_power_wf(base@, n as nat);
        lemma_times_one(base@.nat_power(n as nat));
    }
    while remaining > 0
        invariant
            result@.wf(),
            current@.wf(),
            base@.nat_power(n as nat).wf(),
            result@.times(current@.nat_power(remaining as nat)) == base@.nat_power(n as nat),
        decreases remaining,
    {
        let ghost k = (remaining / 2) as nat;
        let ghost cur = current@;
        let ghost res = result@;
        proof {
            lemma_nat_power_of_square(cur, k);
            lemma_nat_power_wf(cur, 2 * k);
        }
        if remaining % 2 == 1 {
            proof {
                let p = cur.nat_power(2 * k);
                assert(cur.nat_power(remaining as nat) == p.times(cur));
                lemma_times_commutative(p, cur);
                lemma_times_associative(res, cur, p);
            }
            result = result.mul(&current);
        }
        current = current.mul(&current);
        remaining = remaining / 2;
    }
    proof {
        lemma_times_one(result@);
    }
    result
}

/// `base` raised to the integer power `n`. A negative power is the
/// reciprocal of the positive one.
pub fn rational_int_power(base: &Fraction, n: i64) -> (r: Fraction)
    ensures
        r@ == base@.int_power(n as int),
        r@.wf(),
{
    if n >= 0 {
        rational_nat_power(base, n as u64)
    } else {
        let m: u64 = if n == i64::MIN {
            0x8000_0000_0000_0000
        } else {
            (-n) as u64
        };
        rational_nat_power(base, m).inverse()
    }
}

/// Whether both parts of a rational fit 64-bit signed integers.
pub open spec fn fits_i64(q: Rat) -> bool {
    i64::MIN <= q.num <= i64::MAX && i64::MIN <= q.den <= i64::MAX
}

/// Whether `a` and `b` are the exact `n`-th roots of the numerator's
/// magnitude and of the denominator of `q`, and the root is real: an even
/// root of a negative number is none.
pub open spec fn exact_roots(a: nat, b: nat, q: Rat, n: nat) -> bool {
    &&& fits_i64(q)
    &&& pow(a as int, n) == magnitude(q.num)
    &&& pow(b as int, n) == q.den
    &&& (q.num < 0 ==> n % 2 == 1)
}

/// What taking the exact `n`-th root of `q` may return: nothing for the
/// zeroth root, `q` itself for the first, and otherwise the quotient of the
/// exact roots of numerator and denominator where both exist.
pub open spec fn is_perfect_root_outcome(r: Option<Rat>, q: Rat, n: nat) -> bool {
    match r {
        Some(root) => (n == 1 && root == q) || (n >= 2 && exists|a: nat, b: nat|
            #[trigger] exact_roots(a, b, q, n) && root == Rat::canon(signum(q.num) * a, b as int)),
        None => n == 0 || (n >= 2 && forall|a: nat, b: nat| !#[trigger] exact_roots(a, b, q, n)),
    }
}

/// The exact `n`-th root of a fraction, if it is rational and the parts of
/// the fraction fit 64 bits.
pub fn try_perfect_nth_root(value: &Fraction, n: u64) -> (r: Option<Fraction>)
    ensures
        is_perfect_root_outcome(
            match r {
                Some(f) => Some(f@),
                None => None,
            },
            value@,
            n as nat,
        ),
        r matches Some(f) ==> f@.wf(),
{
    if n == 0 {
        return None;
    }
    if n == 1 {
        return Some(value.clone_fraction());
    }
    let num = match value.numerator_i64() {
        Some(v) => v,
        None => {
            return None;
        },
    };
    let den = match value.denominator_i64() {
        Some(v) => v,
        None => {
            return None;
        },
    };
    let num_abs: u64 = if num == i64::MIN {
        0x8000_0000_0000_0000
    } else if num < 0 {
        (-num) as u64
    } else {
        num as u64
    };
    let den_abs: u64 = den as u64;
    let num_root = match integer_nth_root(num_abs, n) {
        Some(v) => v,
        None => {
            proof {
                lemma_root_of_small(n as nat);
            }
            return None;
        },
    };
    let den_root = match integer_nth_root(den_abs, n) {
        Some(v) => v,
        None => {
            proof {
                lemma_root_of_small(n as nat);
            }
            return None;
        },
    };
    proof {
        lemma_root_of_small(n as nat);
        lemma_root_is_small(num_root as nat, num_abs as nat, n as nat);
        lemma_root_is_small(den_root as nat, den_abs as nat, n as nat);
    }
    if num < 0 && n % 2 == 0 {
        return None;
    }
    assert(exact_roots(num_root as nat, den_root as nat, value@, n as nat));
    assert(den_root != 0) by {
        if den_root == 0 {
            lemma0_pow(n as nat);
        }
    }
    let signed_root: i64 = if num < 0 {
        -(num_root as i64)
    } else {
        num_root as i64
    };
    assert(signed_root == signum(value@.num) * num_root) by {
        if num == 0 {
            if num_root != 0 {
                lemma_pow_positive(num_root as int, n as nat);
            }
        }
    }
    Some(Fraction::new_raw(signed_root, den_root as i64))
}

/// Zero and one are their own roots.
proof fn lemma_root_of_small(n: nat)
    requires
        n >= 1,
    ensures
        pow(0, n) == 0,
        pow(1, n) == 1,
{
    lemma0_pow(n);
    lemma1_pow(n);
}

/// A square or higher root of a number below 2^64 is below 2^32.
proof fn lemma_root_is_small(root: nat, value: nat, n: nat)
    requires
        n >= 2,
        value <= u64::MAX,
        pow(root as int, n) == value,
    ensures
        root < 0x1_0000_0000,
{
    if root >= 0x1_0000_0000 {
        lemma_pow_base_increases(0x1_0000_0000, root, n);
        lemma_pow_increases(0x1_0000_0000, 2, n);
        lemma_pow_adds(0x1_0000_0000, 1, 1);
        lemma_pow1(0x1_0000_0000);
    }
}

/// What raising `base` to the rational power `exp` exactly may return.
/// Nothing where the exponent's parts do not fit 64 bits; one for a zero
/// exponent; the integer power for a whole exponent; otherwise the exact
/// root of the integer power, where it exists.
pub open spec fn is_rational_power_outcome(r: Option<Rat>, base: Rat, exp: Rat) -> bool {
    if !fits_i64(exp) {
        r is None
    } else if exp.num == 0 {
        r == Some(Rat::one())
    } else if exp.den == 1 {
        r == Some(base.int_power(exp.num))
    } else {
        is_perfect_root_outcome(r, base.int_power(exp.num), exp.den as nat)
    }
}

/// Two numbers with the same positive power are the same number.
pub proof fn lemma_root_unique(a: nat, b: nat, n: nat)
    requires
        n >= 1,
        pow(a as int, n) == pow(b as int, n),
    ensures
        a == b,
{
    if a < b {
        lemma_pow_base_strictly_increases(a, b, n);
    } else if b < a {
        lemma_pow_base_strictly_increases(b, a, n);
    }
}

/// An exact rational power, where there is one, is determined by base and
/// exponent.
pub proof fn lemma_rational_power_unique(base: Rat, exp: Rat, c: Rat, d: Rat)
    requires
        is_rational_power_outcome(Some(c), base, exp),
        is_rational_power_outcome(Some(d), base, exp),
    ensures
        c == d,
{
    if fits_i64(exp) && exp.num != 0 && exp.den != 1 {
        let q = base.int_power(exp.num);
        let n = exp.den as nat;
        if n >= 2 {
            let (a1, b1) = choose|a: nat, b: nat|
                #[trigger] exact_roots(a, b, q, n) && c == Rat::canon(
                    signum(q.num) * a,
                    b as int,
                );
            let (a2, b2) = choose|a: nat, b: nat|
                #[trigger] exact_roots(a, b, q, n) && d == Rat::canon(
                    signum(q.num) * a,
                    b as int,
                );
            lemma_root_unique(a1, a2, n);
            lemma_root_unique(b1, b2, n);
        }
    }
}

/// The exact value of `base` raised to `exp`, where the rules above give
/// one.
pub open spec fn exact_power(base: Rat, exp: Rat) -> Option<Rat> {
    if exists|c: Rat| is_rational_power_outcome(Some(c), base, exp) {
        Some(choose|c: Rat| is_rational_power_outcome(Some(c), base, exp))
    } else {
        None
    }
}

/// Every outcome that the rules allow is the exact power.
pub proof fn lemma_exact_power(o: Option<Rat>, base: Rat, exp: Rat)
    requires
        is_rational_power_outcome(o, base, exp),
    ensures
        o == exact_power(base, exp),
{
    match o {
        Some(c) => {
            let d = choose|d: Rat| is_rational_power_outcome(Some(d), base, exp);
            lemma_rational_power_unique(base, exp, c, d);
        },
        None => {
            assert forall|c: Rat| !is_rational_power_outcome(Some(c), base, exp) by {
                if is_rational_power_outcome(Some(c), base, exp) {
                    let q = base.int_power(exp.num);
                    let n = exp.den as nat;
                    let (a, b) = choose|a: nat, b: nat|
                        #[trigger] exact_roots(a, b, q, n) && c == Rat::canon(
                            signum(q.num) * a,
                            b as int,
                        );
                    assert(exact_roots(a, b, q, n));
                }
            }
        },
    }
}

/// A whole power that fits 64 bits is always exact.
pub proof fn lemma_whole_power_is_exact(base: Rat, exp: Rat)
    requires
        fits_i64(exp),
        exp.den == 1,
    ensures
        exact_power(base, exp) == Some(
            if exp.num == 0 {
                Rat::one()
            } else {
                base.int_power(exp.num)
            },
        ),
{
    let c = if exp.num == 0 {
        Rat::one()
    } else {
        base.int_power(exp.num)
    };
    lemma_exact_power(Some(c), base, exp);
}

/// `base` raised to the rational power `exp`, if the result is rational.
pub fn try_rational_power(base: &Fraction, exp: &Fraction) -> (r: Option<Fraction>)
    ensures
        is_rational_power_outcome(
            match r {
                Some(f) => Some(f@),
                None => None,
            },
            base@,
            exp@,
        ),
        match r {
            Some(f) => exact_power(base@, exp@) == Some(f@),
            None => exact_power(base@, exp@) is None,
        },
        r matches Some(f) ==> f@.wf(),
{
    proof {
        assert forall|o: Option<Rat>| is_rational_power_outcome(o, base@, exp@) implies o
            == exact_power(base@, exp@) by {
            lemma_exact_power(o, base@, exp@);
        }
    }
    let exp_num = match exp.numerator_i64() {
        Some(v) => v,
        None => {
            return None;
        },
    };
    let exp_den = match exp.denominator_i64() {
        Some(v) => v,
        None => {
            return None;
        },
    };
    if exp_num == 0 {
        return Some(Fraction::one());
    }
    if exp_den == 1 {
        return Some(rational_int_power(base, exp_num));
    }
    let base_powered = rational_int_power(base, exp_num);
    try_perfect_nth_root(&base_powered, exp_den as u64)
}

} // verus!
