//! The numeric value of the evaluator: exact where possible.
//!
//! A value is a rational, a symbolic product of powers, or an approximation.
//! Arithmetic keeps a value exact as long as it can: products and quotients
//! of rationals and symbolic powers stay exact, sums involving anything but
//! rationals do not.

use crate::approx::Approx;
use crate::bytecode::Op;
use crate::fraction::Fraction;
use crate::power::exact_power;
use crate::power::fits_i64;
use crate::power::lemma_whole_power_is_exact;
use crate::power::try_rational_power;
use crate::rational::magnitude;
use crate::rational::signum;
use crate::rational::Rat;
use crate::symbolic::collected;
use crate::symbolic::is_kept;
use crate::symbolic::joined;
use crate::symbolic::lemma_terms_of;
use crate::symbolic::lists_kept;
use crate::symbolic::normalized;
use crate::symbolic::scale_exponents;
use crate::symbolic::PowerTerm;
use crate::symbolic::SymView;
use crate::symbolic::SymbolicPower;
use crate::symbolic::TermView;
use vstd::prelude::*;

verus! {

/// A rational, an approximation, or a symbolic product of powers.
#[derive(Debug)]
pub enum Value<A> {
    /// An exact rational.
    Rational(Fraction),
    /// An approximation of a number without an exact form.
    Irrational(A),
    /// An exact product of rational powers.
    Symbolic(SymbolicPower),
}

/// The exact content of a value. An approximation has none.
pub enum ValueView {
    Rational(Rat),
    Irrational,
    Symbolic(SymView),
}

impl<A> View for Value<A> {
    type V = ValueView;

    open spec fn view(&self) -> ValueView {
        match self {
            Value::Rational(f) => ValueView::Rational(f@),
            Value::Irrational(_) => ValueView::Irrational,
            Value::Symbolic(sp) => ValueView::Symbolic(sp@),
        }
    }
}

impl<A: Approx> Clone for Value<A> {
    fn clone(&self) -> (r: Value<A>)
        ensures
            r@ == self@,
    {
        match self {
            Value::Rational(f) => Value::Rational(f.clone_fraction()),
            Value::Irrational(v) => Value::Irrational(v.duplicate()),
            Value::Symbolic(sp) => Value::Symbolic(sp.clone()),
        }
    }
}

impl<A: Approx> Default for Value<A> {
    fn default() -> (r: Value<A>)
        ensures
            r@ == ValueView::Rational(Rat::zero()),
    {
        Value::Rational(Fraction::zero())
    }
}

/// A symbolic result folded back to a rational where every exponent is a
/// whole number that fits 64 bits.
pub open spec fn fold_outcome(sym: SymView) -> ValueView {
    if sym.foldable() {
        ValueView::Rational(sym.folded())
    } else {
        ValueView::Symbolic(sym)
    }
}

/// Whether a rational can be the base of a symbolic power: a whole number
/// from 1 to `u32::MAX`.
pub open spec fn is_symbolic_base(b: Rat) -> bool {
    b.den == 1 && 0 < b.num <= u32::MAX
}

/// The rational without terms, as a symbolic power.
pub open spec fn sym_of_rational(q: Rat) -> SymView {
    SymView { coefficient: q, powers: Seq::empty() }
}

/// The sum: exact for two rationals, an approximation otherwise.
pub open spec fn spec_add(a: ValueView, b: ValueView) -> ValueView {
    match (a, b) {
        (ValueView::Rational(x), ValueView::Rational(y)) => ValueView::Rational(x.plus(y)),
        _ => ValueView::Irrational,
    }
}

/// The difference: exact for two rationals, an approximation otherwise.
pub open spec fn spec_sub(a: ValueView, b: ValueView) -> ValueView {
    match (a, b) {
        (ValueView::Rational(x), ValueView::Rational(y)) => ValueView::Rational(x.minus(y)),
        _ => ValueView::Irrational,
    }
}

/// The product: exact unless an approximation is involved.
pub open spec fn spec_mul(a: ValueView, b: ValueView) -> ValueView {
    match (a, b) {
        (ValueView::Rational(x), ValueView::Rational(y)) => ValueView::Rational(x.times(y)),
        (ValueView::Symbolic(s), ValueView::Symbolic(t)) => fold_outcome(s.times(t)),
        (ValueView::Symbolic(s), ValueView::Rational(f)) => fold_outcome(s.scaled(f)),
        (ValueView::Rational(f), ValueView::Symbolic(s)) => fold_outcome(s.scaled(f)),
        _ => ValueView::Irrational,
    }
}

/// The quotient: exact unless an approximation is involved. With an
/// approximation the result depends on whether the divisor is zero, which
/// the exact content does not tell.
pub open spec fn spec_div(a: ValueView, b: ValueView) -> Option<ValueView> {
    match (a, b) {
        (ValueView::Rational(x), ValueView::Rational(y)) => Some(ValueView::Rational(x.over(y))),
        (ValueView::Symbolic(s), ValueView::Symbolic(t)) => Some(fold_outcome(s.over(t))),
        (ValueView::Symbolic(s), ValueView::Rational(f)) => Some(
            fold_outcome(s.scaled(f.inverse())),
        ),
        (ValueView::Rational(f), ValueView::Symbolic(s)) => Some(
            fold_outcome(sym_of_rational(f).over(s)),
        ),
        _ => None,
    }
}

/// The negation.
pub open spec fn spec_neg(a: ValueView) -> ValueView {
    match a {
        ValueView::Rational(x) => ValueView::Rational(x.negated()),
        ValueView::Irrational => ValueView::Irrational,
        ValueView::Symbolic(s) => ValueView::Symbolic(s.scaled(Rat::from_int(-1))),
    }
}

/// The absolute value.
pub open spec fn spec_abs(a: ValueView) -> ValueView {
    match a {
        ValueView::Rational(x) => ValueView::Rational(x.absolute()),
        ValueView::Irrational => ValueView::Irrational,
        ValueView::Symbolic(s) => if s.coefficient.num < 0 {
            ValueView::Symbolic(s.scaled(Rat::from_int(-1)))
        } else {
            ValueView::Symbolic(s)
        },
    }
}

/// The reciprocal. The reciprocal of an approximation depends on whether it
/// is zero, which the exact content does not tell.
pub open spec fn spec_inverse(a: ValueView) -> Option<ValueView> {
    match a {
        ValueView::Rational(x) => Some(ValueView::Rational(x.inverse())),
        ValueView::Irrational => None,
        ValueView::Symbolic(s) => Some(ValueView::Symbolic(sym_of_rational(Rat::one()).over(s))),
    }
}

/// The power. A rational to a rational power is the exact power where
/// there is one, else a single symbolic term where the base is a whole
/// number of at least one, else an approximation. A symbolic power to a
/// rational power has its exponents scaled; its coefficient is determined
/// only where the coefficient's power is exact. Every other power is an
/// approximation.
pub open spec fn spec_pow(base: ValueView, exponent: ValueView) -> Option<ValueView> {
    match (base, exponent) {
        (ValueView::Rational(b), ValueView::Rational(e)) => match exact_power(b, e) {
            Some(c) => Some(ValueView::Rational(c)),
            None => if is_symbolic_base(b) {
                Some(
                    ValueView::Symbolic(
                        SymView {
                            coefficient: Rat::one(),
                            powers: seq![TermView { base: b.num as u32, exponent: e }],
                        },
                    ),
                )
            } else {
                Some(ValueView::Irrational)
            },
        },
        (ValueView::Symbolic(s), ValueView::Rational(e)) => match exact_power(s.coefficient, e) {
            Some(c) => Some(
                fold_outcome(
                    SymView { coefficient: c, powers: normalized(scale_exponents(s.powers, e)) },
                ),
            ),
            None => None,
        },
        _ => Some(ValueView::Irrational),
    }
}

impl ValueView {
    /// Whether the value has lost exact rationality.
    pub open spec fn is_corrupted(self) -> bool {
        !(self is Rational)
    }
}

impl<A: Approx> Value<A> {
    /// The rational `num / den`. A zero denominator gives zero.
    pub fn rational(num: i32, den: i32) -> (r: Value<A>)
        ensures
            r@ == ValueView::Rational(
                if den == 0 {
                    Rat::zero()
                } else {
                    Rat::canon(num as int, den as int)
                },
            ),
    {
        Value::Rational(Fraction::new(num, den))
    }

    /// An approximation.
    pub fn irrational(v: A) -> (r: Value<A>)
        ensures
            r@ == ValueView::Irrational,
            r == Value::Irrational(v),
    {
        Value::Irrational(v)
    }

    /// A symbolic power.
    pub fn symbolic(sp: SymbolicPower) -> (r: Value<A>)
        ensures
            r == Value::<A>::Symbolic(sp),
    {
        Value::Symbolic(sp)
    }

    /// A rational.
    pub fn from_fraction(f: Fraction) -> (r: Value<A>)
        ensures
            r == Value::<A>::Rational(f),
    {
        Value::Rational(f)
    }

    /// Whether the value is not an exact rational.
    pub fn is_corrupted(&self) -> (r: bool)
        ensures
            r == self@.is_corrupted(),
    {
        match self {
            Value::Rational(_) => false,
            _ => true,
        }
    }

    /// Whether the value is an exact rational.
    pub fn is_rational(&self) -> (r: bool)
        ensures
            r == (self@ is Rational),
    {
        match self {
            Value::Rational(_) => true,
            _ => false,
        }
    }

    /// Whether the value is a symbolic power.
    pub fn is_symbolic(&self) -> (r: bool)
        ensures
            r == (self@ is Symbolic),
    {
        match self {
            Value::Symbolic(_) => true,
            _ => false,
        }
    }

    /// The value as a symbolic power. A rational becomes a coefficient
    /// without terms, and so does a fraction close to an approximation.
    pub fn to_symbolic(&self) -> (r: SymbolicPower)
        ensures
            match self@ {
                ValueView::Symbolic(s) => r@ == s,
                ValueView::Rational(q) => r@ == sym_of_rational(q),
                ValueView::Irrational => r@.powers == Seq::<TermView>::empty(),
            },
    {
        match self {
            Value::Symbolic(sp) => sp.clone(),
            Value::Rational(f) => SymbolicPower::from_rational(f.clone_fraction()),
            Value::Irrational(v) => SymbolicPower::from_rational(v.to_fraction()),
        }
    }

    /// An approximation of the value: see [`value_approximated`].
    pub fn to_approx(&self) -> (r: A)
        ensures
            value_approximated(*self, r),
    {
        match self {
            Value::Rational(f) => A::from_fraction(f),
            Value::Irrational(v) => v.duplicate(),
            Value::Symbolic(sp) => sp.to_approx::<A>(),
        }
    }

    /// The fraction held, if the value is an exact rational.
    pub fn as_fraction(&self) -> (r: Option<&Fraction>)
        ensures
            match self {
                Value::Rational(f) => r == Some(f),
                _ => r is None,
            },
    {
        match self {
            Value::Rational(f) => Some(f),
            _ => None,
        }
    }

    /// The value as a fraction: exact for a rational and for a symbolic
    /// power that folds to one, a fraction close to the approximation
    /// otherwise.
    pub fn to_fraction(&self) -> (r: Fraction)
        ensures
            match self@ {
                ValueView::Rational(q) => r@ == q,
                ValueView::Symbolic(s) => s.foldable() ==> r@ == s.folded(),
                ValueView::Irrational => true,
            },
            r@.wf(),
    {
        let r = match self {
            Value::Rational(f) => f.clone_fraction(),
            Value::Irrational(v) => v.to_fraction(),
            Value::Symbolic(sp) => match sp.to_rational_fraction() {
                Some(rational) => rational,
                None => sp.to_approx::<A>().to_fraction(),
            },
        };
        proof {
            use_type_invariant(&r);
        }
        r
    }

    /// A symbolic result as a value: a rational where it folds to one.
    fn folded(result: SymbolicPower) -> (r: Value<A>)
        ensures
            r@ == fold_outcome(result@),
    {
        match result.to_rational_fraction() {
            Some(rational) => Value::Rational(rational),
            None => Value::Symbolic(result),
        }
    }

    /// The sum. Two rationals add exactly; every other sum is an
    /// approximation.
    pub fn add(&self, other: &Value<A>) -> (r: Value<A>)
        ensures
            r@ == spec_add(self@, other@),
            r matches Value::Irrational(x) ==> combined(Op::Add, *self, *other, x),
    {
        match (self, other) {
            (Value::Rational(a), Value::Rational(b)) => Value::Rational(a.add(b)),
            _ => {
                let p = self.to_approx();
                let q = other.to_approx();
                let x = p.plus(&q);
                assert(applied(Op::Add, p, q, x));
                Value::Irrational(x)
            },
        }
    }

    /// The difference. Two rationals subtract exactly; every other
    /// difference is an approximation.
    pub fn sub(&self, other: &Value<A>) -> (r: Value<A>)
        ensures
            r@ == spec_sub(self@, other@),
            r matches Value::Irrational(x) ==> combined(Op::Sub, *self, *other, x),
    {
        match (self, other) {
            (Value::Rational(a), Value::Rational(b)) => Value::Rational(a.sub(b)),
            _ => {
                let p = self.to_approx();
                let q = other.to_approx();
                let x = p.minus(&q);
                assert(applied(Op::Sub, p, q, x));
                Value::Irrational(x)
            },
        }
    }

    /// The product. Rationals and symbolic powers multiply exactly; a
    /// product with an approximation is an approximation.
    pub fn mul(&self, other: &Value<A>) -> (r: Value<A>)
        ensures
            r@ == spec_mul(self@, other@),
            r matches Value::Irrational(x) ==> combined(Op::Mul, *self, *other, x),
    {
        match (self, other) {
            (Value::Rational(a), Value::Rational(b)) => Value::Rational(a.mul(b)),
            (Value::Symbolic(a), Value::Symbolic(b)) => Value::folded(a.mul(b)),
            (Value::Symbolic(sp), Value::Rational(f)) => Value::folded(sp.mul_rational(f)),
            (Value::Rational(f), Value::Symbolic(sp)) => Value::folded(sp.mul_rational(f)),
            _ => {
                let p = self.to_approx();
                let q = other.to_approx();
                let x = p.times(&q);
                assert(applied(Op::Mul, p, q, x));
                Value::Irrational(x)
            },
        }
    }

    /// The quotient. Rationals and symbolic powers divide exactly, a zero
    /// divisor giving one where the divisor is rational. A quotient with an
    /// approximation is one where the divisor's approximation is zero, and
    /// an approximation otherwise.
    pub fn div(&self, other: &Value<A>) -> (r: Value<A>)
        ensures
            match spec_div(self@, other@) {
                Some(v) => r@ == v,
                None => r@ == ValueView::Rational(Rat::one()) || r@ == ValueView::Irrational,
            },
            r matches Value::Irrational(x) ==> combined(Op::Div, *self, *other, x),
    {
        match (self, other) {
            (Value::Rational(a), Value::Rational(b)) => Value::Rational(a.div(b)),
            (Value::Symbolic(a), Value::Symbolic(b)) => Value::folded(a.div(b)),
            (Value::Symbolic(sp), Value::Rational(f)) => Value::folded(
                sp.mul_rational(&f.inverse()),
            ),
            (Value::Rational(f), Value::Symbolic(sp)) => {
                let num = SymbolicPower::from_rational(f.clone_fraction());
                Value::folded(num.div(sp))
            },
            _ => {
                let divisor = other.to_approx();
                if divisor.is_zero() {
                    Value::Rational(Fraction::one())
                } else {
                    let p = self.to_approx();
                    let x = p.over(&divisor);
                    assert(applied(Op::Div, p, divisor, x));
                    Value::Irrational(x)
                }
            },
        }
    }

    /// The negation.
    pub fn neg(&self) -> (r: Value<A>)
        ensures
            r@ == spec_neg(self@),
            r matches Value::Irrational(x) ==> negation_of(*self, x),
    {
        match self {
            Value::Rational(f) => Value::Rational(f.neg()),
            Value::Irrational(v) => Value::Irrational(v.negated()),
            Value::Symbolic(sp) => Value::Symbolic(sp.mul_rational(&Fraction::from_int(-1))),
        }
    }

    /// This value raised to the power `exponent`.
    pub fn pow(&self, exponent: &Value<A>) -> (r: Value<A>)
        ensures
            match spec_pow(self@, exponent@) {
                Some(v) => r@ == v,
                None => r@ is Rational || r@ is Symbolic,
            },
            r matches Value::Irrational(x) ==> combined(Op::Pow, *self, *exponent, x),
    {
        match (self, exponent) {
            (Value::Rational(base), Value::Rational(exp)) => {
                match try_rational_power(base, exp) {
                    Some(result) => Value::Rational(result),
                    None => {
                        let whole = if base.is_integer() {
                            base.numerator_i64()
                        } else {
                            None
                        };
                        match whole {
                            Some(n) => {
                                if 0 < n && n <= 0xffff_ffff {
                                    let sp = SymbolicPower::from_power(
                                        n as u32,
                                        exp.clone_fraction(),
                                    );
                                    return Value::Symbolic(sp);
                                }
                            },
                            None => {},
                        }
                        let p = A::from_fraction(base);
                        let q = A::from_fraction(exp);
                        let x = p.power(&q);
                        assert(applied(Op::Pow, p, q, x));
                        Value::Irrational(x)
                    },
                }
            },
            (Value::Symbolic(sp), Value::Rational(exp)) => Value::folded(sp.pow::<A>(exp)),
            _ => {
                let p = self.to_approx();
                let q = exponent.to_approx();
                let x = p.power(&q);
                assert(applied(Op::Pow, p, q, x));
                Value::Irrational(x)
            },
        }
    }

    /// The absolute value.
    pub fn abs(&self) -> (r: Value<A>)
        ensures
            r@ == spec_abs(self@),
            r matches Value::Irrational(x) ==> absolute_of(*self, x),
    {
        match self {
            Value::Rational(f) => Value::Rational(f.abs()),
            Value::Irrational(v) => Value::Irrational(v.absolute()),
            Value::Symbolic(sp) => {
                if sp.coefficient.s() < 0 {
                    Value::Symbolic(sp.mul_rational(&Fraction::from_int(-1)))
                } else {
                    Value::Symbolic(sp.clone())
                }
            },
        }
    }

    /// The reciprocal. The reciprocal of a rational zero is one, and so is
    /// that of an approximation that is zero.
    pub fn inverse(&self) -> (r: Value<A>)
        ensures
            match spec_inverse(self@) {
                Some(v) => r@ == v,
                None => r@ == ValueView::Rational(Rat::one()) || r@ == ValueView::Irrational,
            },
            r matches Value::Irrational(x) ==> inverted(*self, x),
    {
        match self {
            Value::Rational(f) => Value::Rational(f.inverse()),
            Value::Irrational(v) => {
                if v.is_zero() {
                    Value::Rational(Fraction::one())
                } else {
                    let unit = Fraction::one();
                    let one = A::from_fraction(&unit);
                    let x = one.over(v);
                    assert(crate::approx::approximates(unit, one));
                    assert(crate::approx::approximates_rational(Rat::one(), one));
                    assert(crate::approx::divides(one, *v, x));
                    Value::Irrational(x)
                }
            },
            Value::Symbolic(sp) => {
                let one = SymbolicPower::from_rational(Fraction::one());
                Value::Symbolic(one.div(sp))
            },
        }
    }
}

/// Rationals multiply and add to rationals, and a rational raised to a
/// whole power that fits 64 bits is a rational.
pub proof fn lemma_exactness_preserved(a: Rat, b: Rat)
    ensures
        spec_mul(ValueView::Rational(a), ValueView::Rational(b)) is Rational,
        spec_add(ValueView::Rational(a), ValueView::Rational(b)) is Rational,
        spec_sub(ValueView::Rational(a), ValueView::Rational(b)) is Rational,
        spec_div(ValueView::Rational(a), ValueView::Rational(b)) matches Some(v) && v is Rational,
        fits_i64(b) && b.den == 1 ==> spec_pow(ValueView::Rational(a), ValueView::Rational(b))
            == Some(
            ValueView::Rational(
                if b.num == 0 {
                    Rat::one()
                } else {
                    a.int_power(b.num)
                },
            ),
        ),
{
    if fits_i64(b) && b.den == 1 {
        lemma_whole_power_is_exact(a, b);
    }
}

/// The single power `base ^ exponent`.
pub open spec fn single_power(base: u32, exponent: Rat) -> SymView {
    SymView { coefficient: Rat::one(), powers: seq![TermView { base, exponent }] }
}

/// Powers of one base multiply by adding their exponents. Where the
/// exponents cancel, the product is the rational one.
pub proof fn lemma_like_bases_combine(base: u32, a: Rat, b: Rat)
    ensures
        a.plus(b).num != 0 ==> single_power(base, a).times(single_power(base, b)) == single_power(
            base,
            a.plus(b),
        ),
        a.plus(b).num == 0 ==> spec_mul(
            ValueView::Symbolic(single_power(base, a)),
            ValueView::Symbolic(single_power(base, b)),
        ) == ValueView::Rational(Rat::one()),
{
    let x = TermView { base, exponent: a };
    let y = TermView { base, exponent: b };
    let both = TermView { base, exponent: a.plus(b) };
    let none = Seq::<TermView>::empty();
    assert(seq![x].drop_last() =~= none);
    assert(seq![y].drop_last() =~= none);
    let first = collected(seq![x]);
    assert(collected(none) =~= Map::<u32, Rat>::empty());
    assert(seq![x].last() == x);
    assert(first =~= Map::<u32, Rat>::empty().insert(base, a));
    assert(joined(first, none, false) == first);
    assert(seq![y].last() == y);
    let m = joined(first, seq![y], false);
    assert(m =~= first.insert(base, a.plus(b)));
    crate::rational::lemma_one_wf();
    crate::rational::lemma_times_one(Rat::one());
    let product = single_power(base, a).times(single_power(base, b));
    if a.plus(b).num != 0 {
        assert(lists_kept(m, seq![both], 0x1_0000_0000)) by {
            assert forall|c: u32| c < 0x1_0000_0000 && #[trigger] is_kept(m, c) implies exists|
                i: int,
            | 0 <= i < seq![both].len() && (#[trigger] seq![both][i]).base == c by {
                assert(seq![both][0].base == c);
            }
        }
        lemma_terms_of(m, seq![both]);
    } else {
        assert(lists_kept(m, none, 0x1_0000_0000));
        lemma_terms_of(m, none);
        assert(product.foldable());
        assert(product.folded() == Rat::one());
    }
}

/// A sum or difference with anything but two rationals is an approximation.
pub proof fn lemma_sums_degrade(a: ValueView, b: ValueView)
    requires
        !(a is Rational) || !(b is Rational),
    ensures
        spec_add(a, b) == ValueView::Irrational,
        spec_sub(a, b) == ValueView::Irrational,
{
}

/// A number without sign in 32 bits: itself where it fits, else `u32::MAX`.
pub open spec fn saturated(v: int) -> u32 {
    if 0 <= v <= u32::MAX {
        v as u32
    } else if v < 0 {
        0u32
    } else {
        u32::MAX
    }
}

/// A fraction as sign, magnitude of the numerator and denominator, each in
/// 32 bits.
#[derive(Clone, Copy, Debug, PartialEq, Eq, Structural)]
pub struct SimpleFraction {
    pub s: i32,
    pub n: u32,
    pub d: u32,
}

impl SimpleFraction {
    /// The rational `s * n / d`. A zero denominator gives zero.
    pub open spec fn value(self) -> Rat {
        if self.d == 0 {
            Rat::zero()
        } else {
            Rat::canon(self.s as int * self.n as int, self.d as int)
        }
    }

    /// The parts of a rational. Parts above `u32::MAX` are cut to it.
    pub open spec fn of(q: Rat) -> SimpleFraction {
        SimpleFraction {
            s: signum(q.num) as i32,
            n: saturated(magnitude(q.num) as int),
            d: saturated(q.den),
        }
    }

    /// The parts of a fraction. Parts above `u32::MAX` are cut to it.
    pub fn from_fraction(f: &Fraction) -> (r: SimpleFraction)
        ensures
            r == SimpleFraction::of(f@),
    {
        SimpleFraction { s: f.s(), n: f.n(), d: f.d() }
    }

    /// The parts of a rational in lowest terms denote it again, as long as
    /// they fit 32 bits.
    pub proof fn lemma_parts_denote(q: Rat)
        requires
            q.wf(),
            magnitude(q.num) <= u32::MAX,
            q.den <= u32::MAX,
        ensures
            SimpleFraction::of(q).value() == q,
    {
        let p = SimpleFraction::of(q);
        assert(p.s as int * p.n as int == q.num) by (nonlinear_arith)
            requires
                p.s as int == signum(q.num),
                p.n as int == magnitude(q.num),
                signum(q.num) == (if q.num > 0 {
                    1int
                } else if q.num < 0 {
                    -1int
                } else {
                    0int
                }),
                magnitude(q.num) == (if q.num < 0 {
                    -q.num
                } else {
                    q.num
                }),
        ;
        crate::rational::lemma_canon_of_wf(q);
    }

    /// The fraction `s * n / d`. A zero denominator gives zero.
    pub fn to_fraction(&self) -> (r: Fraction)
        ensures
            r@ == self.value(),
            r@.wf(),
    {
        if self.d == 0 {
            Fraction::zero()
        } else {
            assert(i64::MIN <= (self.s as int) * (self.n as int) <= i64::MAX) by (nonlinear_arith)
                requires
                    -0x8000_0000 <= self.s as int <= 0x7fff_ffff,
                    0 <= self.n as int <= 0xffff_ffff,
            ;
            let num: i64 = (self.s as i64) * (self.n as i64);
            Fraction::new_raw(num, self.d as i64)
        }
    }
}

/// One power term in 32-bit parts.
#[derive(Clone, Copy, Debug, PartialEq, Eq, Structural)]
pub struct PowerTermData {
    pub base: u32,
    pub exp: SimpleFraction,
}

/// A symbolic power in 32-bit parts.
#[derive(Clone, Debug)]
pub struct SymbolicPowerData {
    pub coefficient: SimpleFraction,
    pub powers: Vec<PowerTermData>,
}

impl SymbolicPowerData {
    /// The symbolic power that the parts denote.
    pub open spec fn value(self) -> SymView {
        SymView {
            coefficient: self.coefficient.value(),
            powers: self.powers@.map_values(
                |p: PowerTermData| TermView { base: p.base, exponent: p.exp.value() },
            ),
        }
    }

    /// Whether these are the parts of a symbolic power: those of its
    /// coefficient, and those of each term in turn.
    pub open spec fn records(self, sym: SymView) -> bool {
        &&& self.coefficient == SimpleFraction::of(sym.coefficient)
        &&& self.powers@ == sym.powers.map_values(
            |t: TermView| PowerTermData { base: t.base, exp: SimpleFraction::of(t.exponent) },
        )
    }

    /// The parts of a symbolic power, term by term.
    pub fn from_symbolic(sp: &SymbolicPower) -> (r: SymbolicPowerData)
        ensures
            r.records(sp@),
    {
        let mut powers: Vec<PowerTermData> = Vec::new();
        let mut i: usize = 0;
        while i < sp.powers.len()
            invariant
                i <= sp.powers.len(),
                powers.len() == i,
                forall|k: int|
                    0 <= k < i ==> #[trigger] powers@[k] == (PowerTermData {
                        base: sp.powers@[k].base,
                        exp: SimpleFraction::of(sp.powers@[k].exponent@),
                    }),
            decreases sp.powers.len() - i,
        {
            let p = &sp.powers[i];
            powers.push(
                PowerTermData { base: p.base, exp: SimpleFraction::from_fraction(&p.exponent) },
            );
            i = i + 1;
        }
        let r = SymbolicPowerData {
            coefficient: SimpleFraction::from_fraction(&sp.coefficient),
            powers,
        };
        assert(r.powers@ =~= sp@.powers.map_values(
            |t: TermView| PowerTermData { base: t.base, exp: SimpleFraction::of(t.exponent) },
        ));
        r
    }

    /// The symbolic power that the parts denote.
    pub fn to_symbolic(&self) -> (r: SymbolicPower)
        ensures
            r@ == self.value(),
    {
        let mut powers: Vec<PowerTerm> = Vec::new();
        let mut i: usize = 0;
        while i < self.powers.len()
            invariant
                i <= self.powers.len(),
                powers.len() == i,
                forall|k: int|
                    0 <= k < i ==> (#[trigger] powers@[k])@ == (TermView {
                        base: self.powers@[k].base,
                        exponent: self.powers@[k].exp.value(),
                    }),
            decreases self.powers.len() - i,
        {
            let p = &self.powers[i];
            powers.push(PowerTerm { base: p.base, exponent: p.exp.to_fraction() });
            i = i + 1;
        }
        let r = SymbolicPower { coefficient: self.coefficient.to_fraction(), powers };
        assert(r@.powers =~= self.value().powers);
        r
    }
}

/// A value as a record of plain parts: sign, numerator and denominator for an
/// exact rational; an approximation, and the symbolic form where there is
/// one, for a value that has lost exactness.
#[derive(Debug)]
pub struct ValueData<A> {
    pub s: Option<i32>,
    pub n: Option<u32>,
    pub d: Option<u32>,
    pub f: Option<A>,
    pub corrupted: bool,
    pub symbolic: Option<SymbolicPowerData>,
}

impl<A: Approx> Default for ValueData<A> {
    fn default() -> (r: ValueData<A>)
        ensures
            r.s == Some(0i32),
            r.n == Some(0u32),
            r.d == Some(1u32),
            r.f is None,
            !r.corrupted,
            r.symbolic is None,
    {
        ValueData { s: Some(0), n: Some(0), d: Some(1), f: None, corrupted: false, symbolic: None }
    }
}

impl<A: Approx> ValueData<A> {
    /// Whether this is a record of a value with the given content: the
    /// three parts for a rational and nothing else; for any other value an
    /// approximation, and the symbolic form where the value has one.
    pub open spec fn records(self, v: ValueView) -> bool {
        &&& self.corrupted == v.is_corrupted()
        &&& (self.f is Some) == v.is_corrupted()
        &&& match v {
            ValueView::Rational(q) => {
                &&& self.s == Some(SimpleFraction::of(q).s)
                &&& self.n == Some(SimpleFraction::of(q).n)
                &&& self.d == Some(SimpleFraction::of(q).d)
                &&& self.symbolic is None
            },
            ValueView::Irrational => {
                &&& self.s is None
                &&& self.n is None
                &&& self.d is None
                &&& self.symbolic is None
            },
            ValueView::Symbolic(sym) => {
                &&& self.s is None
                &&& self.n is None
                &&& self.d is None
                &&& (self.symbolic matches Some(parts) && parts.records(sym))
            },
        }
    }

    /// The record of a value.
    pub fn from_value(v: &Value<A>) -> (r: ValueData<A>)
        ensures
            r.records(v@),
    {
        match v {
            Value::Rational(frac) => ValueData::from_fraction(frac),
            Value::Irrational(val) => ValueData {
                s: None,
                n: None,
                d: None,
                f: Some(val.duplicate()),
                corrupted: true,
                symbolic: None,
            },
            Value::Symbolic(sp) => ValueData {
                s: None,
                n: None,
                d: None,
                f: Some(sp.to_approx::<A>()),
                corrupted: true,
                symbolic: Some(SymbolicPowerData::from_symbolic(sp)),
            },
        }
    }

    /// The value of a record: the symbolic form where there is one; else
    /// the approximation where the record is marked inexact; else the
    /// rational of the three parts; else zero.
    pub fn to_value(&self) -> (r: Value<A>)
        ensures
            match self.symbolic {
                Some(sym) => r@ == ValueView::Symbolic(sym.value()),
                None => if self.corrupted {
                    r@ == ValueView::Irrational
                } else {
                    match (self.s, self.n, self.d) {
                        (Some(s), Some(n), Some(d)) => r@ == ValueView::Rational(
                            (SimpleFraction { s, n, d }).value(),
                        ),
                        _ => r@ == ValueView::Rational(Rat::zero()),
                    }
                },
            },
    {
        match &self.symbolic {
            Some(symbolic) => {
                return Value::Symbolic(symbolic.to_symbolic());
            },
            None => {},
        }
        if self.corrupted {
            match &self.f {
                Some(v) => Value::Irrational(v.duplicate()),
                None => Value::Irrational(A::from_fraction(&Fraction::zero())),
            }
        } else {
            match (self.s, self.n, self.d) {
                (Some(s), Some(n), Some(d)) => Value::Rational(
                    (SimpleFraction { s, n, d }).to_fraction(),
                ),
                _ => Value::Rational(Fraction::zero()),
            }
        }
    }

    /// An approximation of the record: the one held, else that of the
    /// rational of the three parts, else zero.
    pub fn to_approx(&self) -> (r: A)
        ensures
            match self.f {
                Some(v) => crate::approx::duplicates(v, r),
                None => crate::approx::approximates_rational(self.rational_of_parts(), r),
            },
    {
        match &self.f {
            Some(v) => v.duplicate(),
            None => match (self.s, self.n, self.d) {
                (Some(s), Some(n), Some(d)) => {
                    let exact = (SimpleFraction { s, n, d }).to_fraction();
                    let r = A::from_fraction(&exact);
                    assert(crate::approx::approximates(exact, r));
                    r
                },
                _ => {
                    let zero = Fraction::zero();
                    let r = A::from_fraction(&zero);
                    assert(crate::approx::approximates(zero, r));
                    r
                },
            },
        }
    }

    /// The rational of the three parts, or zero where one of them is
    /// missing.
    pub open spec fn rational_of_parts(self) -> Rat {
        match (self.s, self.n, self.d) {
            (Some(s), Some(n), Some(d)) => (SimpleFraction { s, n, d }).value(),
            _ => Rat::zero(),
        }
    }

    /// The record of an exact fraction.
    pub fn from_fraction(f: &Fraction) -> (r: ValueData<A>)
        ensures
            r.records(ValueView::Rational(f@)),
    {
        ValueData {
            s: Some(f.s()),
            n: Some(f.n()),
            d: Some(f.d()),
            f: None,
            corrupted: false,
            symbolic: None,
        }
    }

    /// The record as a fraction: the rational of the three parts where they
    /// are there, else a fraction close to the approximation, else zero.
    pub fn to_fraction(&self) -> (r: Fraction)
        ensures
            match (self.s, self.n, self.d) {
                (Some(s), Some(n), Some(d)) => r@ == (SimpleFraction { s, n, d }).value(),
                _ => self.f is None ==> r@ == Rat::zero(),
            },
            r@.wf(),
    {
        let r = match (self.s, self.n, self.d) {
            (Some(s), Some(n), Some(d)) => (SimpleFraction { s, n, d }).to_fraction(),
            _ => match &self.f {
                Some(v) => v.to_fraction(),
                None => Fraction::zero(),
            },
        };
        proof {
            use_type_invariant(&r);
        }
        r
    }
}

/// The flag of the start time in a note's corruption mask.
pub const CORRUPT_START_TIME: u8 = 0x01;

/// The flag of the duration.
pub const CORRUPT_DURATION: u8 = 0x02;

/// The flag of the frequency.
pub const CORRUPT_FREQUENCY: u8 = 0x04;

/// The flag of the tempo.
pub const CORRUPT_TEMPO: u8 = 0x08;

/// The flag of the beats per measure.
pub const CORRUPT_BEATS_PER_MEASURE: u8 = 0x10;

/// The flag of the measure length.
pub const CORRUPT_MEASURE_LENGTH: u8 = 0x20;

/// The flag of the variable with a given index; zero for indices above 5.
pub open spec fn spec_corruption_flag(var_index: u8) -> u8 {
    if var_index == 0 {
        0x01
    } else if var_index == 1 {
        0x02
    } else if var_index == 2 {
        0x04
    } else if var_index == 3 {
        0x08
    } else if var_index == 4 {
        0x10
    } else if var_index == 5 {
        0x20
    } else {
        0
    }
}

/// The flag of the variable with a given index; zero for indices above 5.
pub fn corruption_flag_for_var(var_index: u8) -> (r: u8)
    ensures
        r == spec_corruption_flag(var_index),
{
    match var_index {
        0 => CORRUPT_START_TIME,
        1 => CORRUPT_DURATION,
        2 => CORRUPT_FREQUENCY,
        3 => CORRUPT_TEMPO,
        4 => CORRUPT_BEATS_PER_MEASURE,
        5 => CORRUPT_MEASURE_LENGTH,
        _ => 0,
    }
}

/// Whether `r` is what `negated` may give for the approximation that `a`
/// holds.
pub open spec fn negation_of<A: Approx>(a: Value<A>, r: A) -> bool {
    match a {
        Value::Irrational(v) => crate::approx::negates(v, r),
        _ => false,
    }
}

/// Whether `r` is what `absolute` may give for the approximation that `a`
/// holds.
pub open spec fn absolute_of<A: Approx>(a: Value<A>, r: A) -> bool {
    match a {
        Value::Irrational(v) => crate::approx::takes_absolute(v, r),
        _ => false,
    }
}

/// Whether `r` is what `over` may give for an approximation of one and the
/// approximation that `a` holds.
pub open spec fn inverted<A: Approx>(a: Value<A>, r: A) -> bool {
    match a {
        Value::Irrational(v) => exists|one: A|
            crate::approx::approximates_rational(Rat::one(), one) && #[trigger] crate::approx::divides(
                one,
                v,
                r,
            ),
        _ => false,
    }
}

/// Whether `r` is what the operation `op` of the approximations may give
/// for `p` and `q`: `plus`, `minus`, `times`, `over`, and `power` for every
/// other operation.
pub open spec fn applied<A: Approx>(op: Op, p: A, q: A, r: A) -> bool {
    match op {
        Op::Add => crate::approx::adds(p, q, r),
        Op::Sub => crate::approx::subtracts(p, q, r),
        Op::Mul => crate::approx::multiplies(p, q, r),
        Op::Div => crate::approx::divides(p, q, r),
        _ => crate::approx::raises(p, q, r),
    }
}

/// Whether `r` is what an operation may give for an approximation of `a`
/// and an approximation of `b`.
pub open spec fn combined<A: Approx>(op: Op, a: Value<A>, b: Value<A>, r: A) -> bool {
    exists|p: A, q: A|
        value_approximated(a, p) && value_approximated(b, q) && #[trigger] applied(op, p, q, r)
}

/// Whether `r` approximates a value: the approximation of the fraction for
/// a rational, a copy of the approximation held, or the approximation of
/// the product for a symbolic power.
pub open spec fn value_approximated<A: Approx>(v: Value<A>, r: A) -> bool {
    match v {
        Value::Rational(f) => crate::approx::approximates(f, r),
        Value::Irrational(held) => crate::approx::duplicates(held, r),
        Value::Symbolic(sp) => crate::symbolic::product_approximated(sp.coefficient, sp.powers@, r),
    }
}

} // verus!
