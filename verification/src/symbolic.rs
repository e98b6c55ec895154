//! Products of rational powers of whole numbers, kept in algebraic form.
//!
//! A symbolic power is a rational coefficient times a product of terms
//! `base ^ exponent`. Multiplying and dividing combine terms of the same base
//! by adding and subtracting exponents, so that a product such as
//! `2^(1/12) * 2^(1/12)` stays exact.

use crate::approx::Approx;
use crate::fraction::Fraction;
use crate::power::exact_power;
use crate::power::rational_nat_power;
use crate::power::try_rational_power;
use crate::rational::Rat;
use crate::sets::keys_of;
use crate::sets::sort_ascending;
use std::collections::HashMap;
use vstd::prelude::*;
use vstd::std_specs::hash::group_hash_axioms;

verus! {

broadcast use group_hash_axioms;

/// One term `base ^ exponent`.
#[derive(Debug)]
pub struct PowerTerm {
    pub base: u32,
    pub exponent: Fraction,
}

/// The mathematical content of a term.
pub struct TermView {
    pub base: u32,
    pub exponent: Rat,
}

impl View for PowerTerm {
    type V = TermView;

    open spec fn view(&self) -> TermView {
        TermView { base: self.base, exponent: self.exponent@ }
    }
}

impl Clone for PowerTerm {
    fn clone(&self) -> (r: PowerTerm)
        ensures
            r@ == self@,
    {
        PowerTerm { base: self.base, exponent: self.exponent.clone_fraction() }
    }
}

/// A coefficient times a product of power terms.
#[derive(Debug)]
pub struct SymbolicPower {
    pub coefficient: Fraction,
    pub powers: Vec<PowerTerm>,
}

/// The mathematical content of a symbolic power.
pub struct SymView {
    pub coefficient: Rat,
    pub powers: Seq<TermView>,
}

/// The contents of a sequence of terms.
pub open spec fn term_views(terms: Seq<PowerTerm>) -> Seq<TermView> {
    terms.map_values(|t: PowerTerm| t@)
}

impl View for SymbolicPower {
    type V = SymView;

    open spec fn view(&self) -> SymView {
        SymView { coefficient: self.coefficient@, powers: term_views(self.powers@) }
    }
}

impl Clone for SymbolicPower {
    fn clone(&self) -> (r: SymbolicPower)
        ensures
            r@ == self@,
    {
        SymbolicPower {
            coefficient: self.coefficient.clone_fraction(),
            powers: clone_terms(&self.powers),
        }
    }
}

/// The terms whose exponent is not zero, in their order.
pub open spec fn keep_nonzero(s: Seq<TermView>) -> Seq<TermView>
    decreases s.len(),
{
    if s.len() == 0 {
        s
    } else if s.last().exponent.num != 0 {
        keep_nonzero(s.drop_last()).push(s.last())
    } else {
        keep_nonzero(s.drop_last())
    }
}

/// A term put into a list sorted by base, behind the terms of the same base.
pub open spec fn insert_by_base(s: Seq<TermView>, t: TermView) -> Seq<TermView>
    decreases s.len(),
{
    if s.len() == 0 {
        seq![t]
    } else if s.last().base <= t.base {
        s.push(t)
    } else {
        insert_by_base(s.drop_last(), t).push(s.last())
    }
}

/// The terms sorted by ascending base; terms of one base keep their order.
pub open spec fn sort_by_base(s: Seq<TermView>) -> Seq<TermView>
    decreases s.len(),
{
    if s.len() == 0 {
        s
    } else {
        insert_by_base(sort_by_base(s.drop_last()), s.last())
    }
}

/// The normal form of a term list: no zero exponents, ascending bases.
pub open spec fn normalized(s: Seq<TermView>) -> Seq<TermView> {
    sort_by_base(keep_nonzero(s))
}

/// Every exponent multiplied by `factor`.
pub open spec fn scale_exponents(s: Seq<TermView>, factor: Rat) -> Seq<TermView> {
    s.map_values(|t: TermView| TermView { base: t.base, exponent: t.exponent.times(factor) })
}

/// Bases ascend, possibly with repetition.
pub open spec fn ascending(s: Seq<TermView>) -> bool {
    forall|i: int, j: int| 0 <= i < j < s.len() ==> s[i].base <= s[j].base
}

/// No exponent is zero.
pub open spec fn all_nonzero(s: Seq<TermView>) -> bool {
    forall|i: int| 0 <= i < s.len() ==> (#[trigger] s[i]).exponent.num != 0
}

/// No base is above `limit`.
pub open spec fn bases_within(s: Seq<TermView>, limit: u32) -> bool {
    forall|i: int| 0 <= i < s.len() ==> (#[trigger] s[i]).base <= limit
}

/// Inserting a term adds it to the list and leaves the other terms as
/// they are: bounds on the bases and exponents other than zero stay.
proof fn lemma_insert_keeps(s: Seq<TermView>, t: TermView, limit: u32)
    ensures
        bases_within(s, limit) && t.base <= limit ==> bases_within(insert_by_base(s, t), limit),
        all_nonzero(s) && t.exponent.num != 0 ==> all_nonzero(insert_by_base(s, t)),
    decreases s.len(),
{
    if s.len() > 0 && s.last().base > t.base {
        lemma_insert_keeps(s.drop_last(), t, limit);
        if bases_within(s, limit) && t.base <= limit {
            assert(bases_within(s.drop_last(), limit));
            assert(s.last().base <= limit);
        }
        if all_nonzero(s) && t.exponent.num != 0 {
            assert(all_nonzero(s.drop_last()));
            assert(s.last().exponent.num != 0);
        }
    }
}

/// Inserting a term into an ascending list gives an ascending list.
proof fn lemma_insert_ascends(s: Seq<TermView>, t: TermView)
    requires
        ascending(s),
    ensures
        ascending(insert_by_base(s, t)),
    decreases s.len(),
{
    if s.len() > 0 && s.last().base > t.base {
        let rest = s.drop_last();
        assert(ascending(rest));
        lemma_insert_ascends(rest, t);
        assert(bases_within(rest, s.last().base)) by {
            assert forall|i: int| 0 <= i < rest.len() implies (#[trigger] rest[i]).base
                <= s.last().base by {
                assert(s[i].base <= s[s.len() - 1].base);
            }
        }
        lemma_insert_keeps(rest, t, s.last().base);
    }
}

/// Bases ascend without repetition.
pub open spec fn strictly_ascending(s: Seq<TermView>) -> bool {
    forall|i: int, j: int| 0 <= i < j < s.len() ==> s[i].base < s[j].base
}

/// The exponent of every base of a term list. Where a base occurs more
/// than once, its last exponent counts.
pub open spec fn collected(terms: Seq<TermView>) -> Map<u32, Rat>
    decreases terms.len(),
{
    if terms.len() == 0 {
        Map::empty()
    } else {
        collected(terms.drop_last()).insert(terms.last().base, terms.last().exponent)
    }
}

/// The exponent that a base has once a term of it has been joined to the
/// exponent held, or to none: the sum or the difference, or the exponent of
/// the term, with its sign changed for a difference.
pub open spec fn joined_exponent(held: Option<Rat>, e: Rat, subtract: bool) -> Rat {
    match held {
        Some(h) => if subtract {
            h.minus(e)
        } else {
            h.plus(e)
        },
        None => if subtract {
            e.negated()
        } else {
            e
        },
    }
}

/// The exponents of `m` with the terms of a second operand joined to them
/// one after the other: added for a product, subtracted for a quotient.
pub open spec fn joined(m: Map<u32, Rat>, terms: Seq<TermView>, subtract: bool) -> Map<u32, Rat>
    decreases terms.len(),
{
    if terms.len() == 0 {
        m
    } else {
        let before = joined(m, terms.drop_last(), subtract);
        let t = terms.last();
        let held = if before.contains_key(t.base) {
            Some(before[t.base])
        } else {
            None
        };
        before.insert(t.base, joined_exponent(held, t.exponent, subtract))
    }
}

/// Whether a base has an exponent other than zero.
pub open spec fn is_kept(m: Map<u32, Rat>, base: u32) -> bool {
    m.contains_key(base) && m[base].num != 0
}

/// The terms of the bases below `n` that have an exponent other than zero,
/// by ascending base.
pub open spec fn listed(m: Map<u32, Rat>, n: nat) -> Seq<TermView>
    decreases n,
{
    if n == 0 {
        Seq::empty()
    } else {
        let base = (n - 1) as u32;
        let before = listed(m, (n - 1) as nat);
        if n <= 0x1_0000_0000 && is_kept(m, base) {
            before.push(TermView { base, exponent: m[base] })
        } else {
            before
        }
    }
}

/// The terms of all bases that have an exponent other than zero, by
/// ascending base.
pub open spec fn terms_of(m: Map<u32, Rat>) -> Seq<TermView> {
    listed(m, 0x1_0000_0000)
}

/// Whether `s` lists, by strictly ascending base, exactly the bases below
/// `n` that have an exponent other than zero, each with its exponent.
pub open spec fn lists_kept(m: Map<u32, Rat>, s: Seq<TermView>, n: nat) -> bool {
    &&& strictly_ascending(s)
    &&& forall|i: int|
        0 <= i < s.len() ==> (#[trigger] s[i]).base < n && is_kept(m, s[i].base) && s[i].exponent
            == m[s[i].base]
    &&& forall|b: u32|
        b < n && #[trigger] is_kept(m, b) ==> exists|i: int|
            0 <= i < s.len() && (#[trigger] s[i]).base == b
}

/// The listed terms are the kept ones, by strictly ascending base.
pub proof fn lemma_listed(m: Map<u32, Rat>, n: nat)
    requires
        n <= 0x1_0000_0000,
    ensures
        lists_kept(m, listed(m, n), n),
    decreases n,
{
    if n > 0 {
        lemma_listed(m, (n - 1) as nat);
        let base = (n - 1) as u32;
        let before = listed(m, (n - 1) as nat);
        let s = listed(m, n);
        if is_kept(m, base) {
            assert(s == before.push(TermView { base, exponent: m[base] }));
            assert forall|i: int, j: int| 0 <= i < j < s.len() implies s[i].base < s[j].base by {
                if j < before.len() {
                    assert(before[i].base < before[j].base);
                } else {
                    assert(before[i].base < n - 1);
                }
            }
            assert forall|i: int| 0 <= i < s.len() implies (#[trigger] s[i]).base < n && is_kept(
                m,
                s[i].base,
            ) && s[i].exponent == m[s[i].base] by {
                if i < before.len() {
                    assert(before[i].base < n - 1);
                }
            }
        } else {
            assert(s == before);
            assert forall|i: int| 0 <= i < s.len() implies (#[trigger] s[i]).base < n && is_kept(
                m,
                s[i].base,
            ) && s[i].exponent == m[s[i].base] by {
                assert(before[i].base < n - 1);
            }
        }
        assert forall|b: u32| b < n && #[trigger] is_kept(m, b) implies exists|i: int|
            0 <= i < s.len() && (#[trigger] s[i]).base == b by {
            if b < n - 1 {
                let i = choose|i: int| 0 <= i < before.len() && (#[trigger] before[i]).base == b;
                assert(s[i].base == b);
            } else {
                assert(s[s.len() - 1].base == b);
            }
        }
    }
}

/// There is one list of the kept terms by strictly ascending base.
pub proof fn lemma_lists_unique(m: Map<u32, Rat>, s: Seq<TermView>, t: Seq<TermView>, n: nat)
    requires
        lists_kept(m, s, n),
        lists_kept(m, t, n),
    ensures
        s == t,
    decreases s.len(),
{
    if s.len() == 0 {
        if t.len() > 0 {
            assert(is_kept(m, t[0].base));
        }
        assert(s =~= t);
    } else {
        let top = s.last();
        assert(is_kept(m, s[s.len() - 1].base));
        let k = choose|k: int| 0 <= k < t.len() && (#[trigger] t[k]).base == top.base;
        assert(is_kept(m, t[t.len() - 1].base));
        let j = choose|j: int| 0 <= j < s.len() && (#[trigger] s[j]).base == t.last().base;
        assert(top.base == t.last().base) by {
            if k < t.len() - 1 {
                assert(t[k].base < t[t.len() - 1].base);
            }
            if j < s.len() - 1 {
                assert(s[j].base < s[s.len() - 1].base);
            }
        }
        assert(top == t.last());
        let below = top.base as nat;
        let s2 = s.drop_last();
        let t2 = t.drop_last();
        assert(lists_kept(m, s2, below)) by {
            assert forall|i: int| 0 <= i < s2.len() implies (#[trigger] s2[i]).base < below
                && is_kept(m, s2[i].base) && s2[i].exponent == m[s2[i].base] by {
                assert(s[i].base < s[s.len() - 1].base);
            }
            assert forall|b: u32| b < below && #[trigger] is_kept(m, b) implies exists|i: int|
                0 <= i < s2.len() && (#[trigger] s2[i]).base == b by {
                let i = choose|i: int| 0 <= i < s.len() && (#[trigger] s[i]).base == b;
                assert(s2[i].base == b);
            }
        }
        assert(lists_kept(m, t2, below)) by {
            assert forall|i: int| 0 <= i < t2.len() implies (#[trigger] t2[i]).base < below
                && is_kept(m, t2[i].base) && t2[i].exponent == m[t2[i].base] by {
                assert(t[i].base < t[t.len() - 1].base);
            }
            assert forall|b: u32| b < below && #[trigger] is_kept(m, b) implies exists|i: int|
                0 <= i < t2.len() && (#[trigger] t2[i]).base == b by {
                let i = choose|i: int| 0 <= i < t.len() && (#[trigger] t[i]).base == b;
                assert(t2[i].base == b);
            }
        }
        lemma_lists_unique(m, s2, t2, below);
        assert(s =~= s2.push(top));
        assert(t =~= t2.push(top));
    }
}

/// A list of the kept terms by strictly ascending base is the list of the
/// terms of the map.
pub proof fn lemma_terms_of(m: Map<u32, Rat>, s: Seq<TermView>)
    requires
        lists_kept(m, s, 0x1_0000_0000),
    ensures
        terms_of(m) == s,
{
    lemma_listed(m, 0x1_0000_0000);
    lemma_lists_unique(m, terms_of(m), s, 0x1_0000_0000);
}

/// Leaving out the zero exponents keeps an upper bound on the bases, and
/// keeps strictly ascending bases strictly ascending.
proof fn lemma_kept_strict(s: Seq<TermView>, limit: u32)
    requires
        strictly_ascending(s),
        bases_within(s, limit),
    ensures
        strictly_ascending(keep_nonzero(s)),
        bases_within(keep_nonzero(s), limit),
    decreases s.len(),
{
    if s.len() > 0 {
        let rest = s.drop_last();
        assert(strictly_ascending(rest));
        assert(bases_within(rest, limit));
        lemma_kept_strict(rest, limit);
        if s.len() > 1 {
            let below = rest.last().base;
            assert(bases_within(rest, below)) by {
                assert forall|i: int| 0 <= i < rest.len() implies (#[trigger] rest[i]).base
                    <= below by {
                    if i < rest.len() - 1 {
                        assert(rest[i].base < rest[rest.len() - 1].base);
                    }
                }
            }
            lemma_kept_strict(rest, below);
            assert(s[s.len() - 2].base < s[s.len() - 1].base);
        }
        assert(s.last().base <= limit);
        let kept = keep_nonzero(rest);
        if s.last().exponent.num != 0 {
            let all = kept.push(s.last());
            assert forall|i: int, j: int| 0 <= i < j < all.len() implies all[i].base
                < all[j].base by {
                if j < kept.len() {
                    assert(kept[i].base < kept[j].base);
                } else {
                    assert(kept[i].base <= rest.last().base);
                }
            }
        }
    }
}

/// Sorting an ascending list leaves it as it is.
proof fn lemma_sort_ascending(s: Seq<TermView>)
    requires
        ascending(s),
    ensures
        sort_by_base(s) == s,
    decreases s.len(),
{
    if s.len() > 0 {
        let rest = s.drop_last();
        assert(ascending(rest));
        lemma_sort_ascending(rest);
        if rest.len() > 0 {
            assert(s[s.len() - 2].base <= s[s.len() - 1].base);
        }
        assert(rest.push(s.last()) =~= s);
    }
}

/// The normal form of a list with strictly ascending bases has strictly
/// ascending bases.
pub proof fn lemma_normal_form_strict(s: Seq<TermView>)
    requires
        strictly_ascending(s),
    ensures
        strictly_ascending(normalized(s)),
        normalized(s) == keep_nonzero(s),
{
    lemma_kept_strict(s, u32::MAX);
    let kept = keep_nonzero(s);
    assert(ascending(kept)) by {
        assert forall|i: int, j: int| 0 <= i < j < kept.len() implies kept[i].base
            <= kept[j].base by {
            assert(kept[i].base < kept[j].base);
        }
    }
    lemma_sort_ascending(kept);
}

impl SymView {
    /// The invariant of a symbolic power in normal form: no base occurs
    /// twice, the bases ascend, and no exponent is zero.
    pub open spec fn is_normal(self) -> bool {
        strictly_ascending(self.powers) && all_nonzero(self.powers)
    }

    /// Products and quotients of symbolic powers are in normal form,
    /// whatever the operands. A symbolic power in normal form stays in
    /// normal form where it is raised to a power or scaled by a rational.
    pub proof fn lemma_normal_form_kept(self, rhs: SymView, factor: Rat)
        ensures
            self.times(rhs).is_normal(),
            self.over(rhs).is_normal(),
            self.is_normal() ==> self.scaled(factor).is_normal(),
            self.is_normal() ==> strictly_ascending(
                normalized(scale_exponents(self.powers, factor)),
            ),
            all_nonzero(normalized(scale_exponents(self.powers, factor))),
    {
        lemma_listed(joined(collected(self.powers), rhs.powers, false), 0x1_0000_0000);
        lemma_listed(joined(collected(self.powers), rhs.powers, true), 0x1_0000_0000);
        let scaled = scale_exponents(self.powers, factor);
        if self.is_normal() {
            assert(strictly_ascending(scaled)) by {
                assert forall|i: int, j: int| 0 <= i < j < scaled.len() implies scaled[i].base
                    < scaled[j].base by {
                    assert(self.powers[i].base < self.powers[j].base);
                }
            }
            lemma_normal_form_strict(scaled);
        }
        lemma_normal_form(scaled);
    }
}

/// The normal form of a term list holds no zero exponent, and its bases
/// ascend.
pub proof fn lemma_normal_form(s: Seq<TermView>)
    ensures
        all_nonzero(normalized(s)),
        ascending(normalized(s)),
{
    lemma_kept_nonzero(s);
    lemma_sorted(keep_nonzero(s));
}

/// What is kept holds no zero exponent.
proof fn lemma_kept_nonzero(s: Seq<TermView>)
    ensures
        all_nonzero(keep_nonzero(s)),
    decreases s.len(),
{
    if s.len() > 0 {
        lemma_kept_nonzero(s.drop_last());
    }
}

/// Sorting gives ascending bases and keeps exponents other than zero.
proof fn lemma_sorted(s: Seq<TermView>)
    ensures
        ascending(sort_by_base(s)),
        all_nonzero(s) ==> all_nonzero(sort_by_base(s)),
    decreases s.len(),
{
    if s.len() > 0 {
        lemma_sorted(s.drop_last());
        lemma_insert_ascends(sort_by_base(s.drop_last()), s.last());
        if all_nonzero(s) {
            assert(all_nonzero(s.drop_last()));
            lemma_insert_keeps(sort_by_base(s.drop_last()), s.last(), 0);
        }
    }
}

/// The rational `acc` multiplied by one term with a whole exponent: by the
/// power for an exponent of zero or more, divided by it otherwise.
pub open spec fn apply_term(acc: Rat, t: TermView) -> Rat {
    let b = Rat::from_int(t.base as int);
    if t.exponent.num >= 0 {
        acc.times(b.nat_power(t.exponent.num as nat))
    } else {
        acc.over(b.nat_power((-t.exponent.num) as nat))
    }
}

/// The rational `acc` multiplied by every term in turn.
pub open spec fn fold_terms(acc: Rat, s: Seq<TermView>) -> Rat
    decreases s.len(),
{
    if s.len() == 0 {
        acc
    } else {
        apply_term(fold_terms(acc, s.drop_last()), s.last())
    }
}

/// Every exponent is a whole number.
pub open spec fn all_whole(s: Seq<TermView>) -> bool {
    forall|i: int| 0 <= i < s.len() ==> (#[trigger] s[i]).exponent.den == 1
}

/// Every exponent's numerator fits 64 bits.
pub open spec fn all_small(s: Seq<TermView>) -> bool {
    forall|i: int| 0 <= i < s.len() ==> i64::MIN <= (#[trigger] s[i]).exponent.num <= i64::MAX
}

impl SymView {
    /// Whether every exponent is a whole number, so that the product is a
    /// rational.
    pub open spec fn is_rational(self) -> bool {
        all_whole(self.powers)
    }

    /// Whether the product can be computed as a fraction: every exponent is
    /// a whole number that fits 64 bits.
    pub open spec fn foldable(self) -> bool {
        all_whole(self.powers) && all_small(self.powers)
    }

    /// The rational that a foldable product denotes.
    pub open spec fn folded(self) -> Rat {
        fold_terms(self.coefficient, self.powers)
    }

    /// The same product with its terms in normal form.
    pub open spec fn normalized(self) -> SymView {
        SymView { coefficient: self.coefficient, powers: normalized(self.powers) }
    }

    /// The product of two symbolic powers: the coefficients multiplied,
    /// the exponents of like bases added, the terms by ascending base.
    pub open spec fn times(self, rhs: SymView) -> SymView {
        SymView {
            coefficient: self.coefficient.times(rhs.coefficient),
            powers: terms_of(joined(collected(self.powers), rhs.powers, false)),
        }
    }

    /// The quotient of two symbolic powers: the coefficients divided,
    /// the exponents of like bases subtracted, the terms by ascending base.
    pub open spec fn over(self, rhs: SymView) -> SymView {
        SymView {
            coefficient: self.coefficient.over(rhs.coefficient),
            powers: terms_of(joined(collected(self.powers), rhs.powers, true)),
        }
    }

    /// The product of a symbolic power and a rational.
    pub open spec fn scaled(self, factor: Rat) -> SymView {
        SymView { coefficient: self.coefficient.times(factor), powers: self.powers }
    }
}

/// Inserting into a list whose tail from `j` on has larger bases, and whose
/// element before `j` has not, puts the term at `j`.
proof fn lemma_insert_position(s: Seq<TermView>, t: TermView, j: int)
    requires
        0 <= j <= s.len(),
        forall|k: int| j <= k < s.len() ==> (#[trigger] s[k]).base > t.base,
        j > 0 ==> s[j - 1].base <= t.base,
    ensures
        insert_by_base(s, t) == s.insert(j, t),
    decreases s.len() - j,
{
    if s.len() == 0 {
        assert(seq![t] =~= s.insert(j, t));
    } else if j == s.len() {
        assert(s.push(t) =~= s.insert(j, t));
    } else {
        assert(s.last().base > t.base);
        lemma_insert_position(s.drop_last(), t, j);
        assert(s.drop_last().insert(j, t).push(s.last()) =~= s.insert(j, t));
    }
}

/// Puts a term into a list sorted by base, behind the terms of its base.
fn insert_term(out: &mut Vec<PowerTerm>, t: PowerTerm)
    ensures
        term_views(final(out)@) == insert_by_base(term_views(old(out)@), t@),
{
    let mut j: usize = out.len();
    while j > 0 && out[j - 1].base > t.base
        invariant
            j <= out.len(),
            forall|k: int| j <= k < out.len() ==> (#[trigger] out@[k]).base > t.base,
        decreases j,
    {
        j = j - 1;
    }
    let ghost before = term_views(out@);
    proof {
        assert forall|k: int| j <= k < before.len() implies (#[trigger] before[k]).base
            > t.base by {
            assert(before[k] == out@[k]@);
        }
        if j > 0 {
            assert(before[j - 1] == out@[j - 1]@);
        }
        lemma_insert_position(before, t@, j as int);
    }
    let ghost tv = t@;
    out.insert(j, t);
    assert(term_views(out@) =~= before.insert(j as int, tv));
}

/// A copy of a list of terms.
fn clone_terms(terms: &Vec<PowerTerm>) -> (r: Vec<PowerTerm>)
    ensures
        term_views(r@) == term_views(terms@),
{
    let mut out: Vec<PowerTerm> = Vec::new();
    let mut i: usize = 0;
    while i < terms.len()
        invariant
            i <= terms.len(),
            out.len() == i,
            forall|k: int| 0 <= k < i ==> (#[trigger] out@[k])@ == terms@[k]@,
        decreases terms.len() - i,
    {
        out.push(terms[i].clone());
        i = i + 1;
    }
    assert(term_views(out@) =~= term_views(terms@));
    out
}

/// The exponents that a map of fractions holds.
pub open spec fn exponents_of(m: Map<u32, Fraction>) -> Map<u32, Rat> {
    m.map_values(|f: Fraction| f@)
}

/// The terms of a product or a quotient: the exponents of the first
/// operand are collected by base, those of the second are added to them or
/// subtracted from them, and the bases whose exponent is not zero are listed
/// in ascending order.
fn combine_terms(a: &Vec<PowerTerm>, b: &Vec<PowerTerm>, subtract: bool) -> (r: Vec<PowerTerm>)
    ensures
        term_views(r@) == terms_of(joined(collected(term_views(a@)), term_views(b@), subtract)),
{
    let ghost av = term_views(a@);
    let ghost bv = term_views(b@);
    let mut map: HashMap<u32, Fraction> = HashMap::new();
    let mut i: usize = 0;
    assert(av.take(0) =~= Seq::<TermView>::empty());
    assert(exponents_of(map@) =~= collected(av.take(0)));
    while i < a.len()
        invariant
            i <= a.len(),
            av == term_views(a@),
            exponents_of(map@) == collected(av.take(i as int)),
        decreases a.len() - i,
    {
        let ghost before = map@;
        map.insert(a[i].base, a[i].exponent.clone_fraction());
        proof {
            let next = av.take(i as int + 1);
            assert(next.drop_last() =~= av.take(i as int));
            assert(next.last() == a@[i as int]@);
            assert(exponents_of(map@) =~= exponents_of(before).insert(
                a@[i as int].base,
                a@[i as int].exponent@,
            ));
        }
        i = i + 1;
    }
    assert(av.take(a@.len() as int) =~= av);
    let ghost first = collected(av);
    let mut j: usize = 0;
    assert(bv.take(0) =~= Seq::<TermView>::empty());
    while j < b.len()
        invariant
            j <= b.len(),
            bv == term_views(b@),
            exponents_of(map@) == joined(first, bv.take(j as int), subtract),
        decreases b.len() - j,
    {
        let ghost before = map@;
        let base = b[j].base;
        let exponent = match map.remove(&base) {
            Some(held) => if subtract {
                held.sub(&b[j].exponent)
            } else {
                held.add(&b[j].exponent)
            },
            None => if subtract {
                b[j].exponent.neg()
            } else {
                b[j].exponent.clone_fraction()
            },
        };
        let ghost e = exponent@;
        map.insert(base, exponent);
        proof {
            let next = bv.take(j as int + 1);
            assert(next.drop_last() =~= bv.take(j as int));
            assert(next.last() == b@[j as int]@);
            assert(exponents_of(before).contains_key(base) <==> before.contains_key(base));
            assert(exponents_of(map@) =~= exponents_of(before).insert(base, e));
        }
        j = j + 1;
    }
    assert(bv.take(b@.len() as int) =~= bv);
    let ghost m = exponents_of(map@);
    let bases = sort_ascending(&keys_of(&map));
    let mut out: Vec<PowerTerm> = Vec::new();
    let mut k: usize = 0;
    while k < bases.len()
        invariant
            k <= bases.len(),
            m == exponents_of(map@),
            crate::sets::strictly_ascending(bases@),
            bases@.to_set() == map@.dom(),
            strictly_ascending(term_views(out@)),
            forall|i: int|
                0 <= i < out@.len() ==> is_kept(m, (#[trigger] out@[i]).base) && out@[i].exponent@
                    == m[out@[i].base] && exists|x: int| 0 <= x < k && bases@[x] == out@[i].base,
            forall|x: int|
                0 <= x < k && is_kept(m, #[trigger] bases@[x]) ==> exists|i: int|
                    0 <= i < out@.len() && (#[trigger] out@[i]).base == bases@[x],
        decreases bases.len() - k,
    {
        let base = bases[k];
        let ghost listed_before = out@;
        assert(bases@.to_set().contains(base));
        match map.get(&base) {
            Some(exponent) => {
                if !exponent.is_zero() {
                    out.push(PowerTerm { base, exponent: exponent.clone_fraction() });
                    proof {
                        let views = term_views(out@);
                        assert forall|i: int, j: int| 0 <= i < j < views.len() implies views[i].base
                            < views[j].base by {
                            if j < listed_before.len() {
                                assert(term_views(listed_before)[i].base < term_views(
                                    listed_before,
                                )[j].base);
                            } else {
                                let x = choose|x: int|
                                    0 <= x < k && bases@[x] == listed_before[i].base;
                                assert(bases@[x] < bases@[k as int]);
                            }
                        }
                        assert forall|i: int| 0 <= i < out@.len() implies is_kept(
                            m,
                            (#[trigger] out@[i]).base,
                        ) && out@[i].exponent@ == m[out@[i].base] && exists|x: int|
                            0 <= x < k + 1 && bases@[x] == out@[i].base by {
                            if i < listed_before.len() {
                                let x = choose|x: int|
                                    0 <= x < k && bases@[x] == listed_before[i].base;
                                assert(bases@[x] == out@[i].base);
                            } else {
                                assert(bases@[k as int] == out@[i].base);
                            }
                        }
                        assert forall|x: int|
                            0 <= x < k + 1 && is_kept(m, #[trigger] bases@[x]) implies exists|
                            i: int,
                        | 0 <= i < out@.len() && (#[trigger] out@[i]).base == bases@[x] by {
                            if x < k {
                                let i = choose|i: int|
                                    0 <= i < listed_before.len() && (
                                    #[trigger] listed_before[i]).base == bases@[x];
                                assert(out@[i].base == bases@[x]);
                            } else {
                                assert(out@[out@.len() - 1].base == bases@[x]);
                            }
                        }
                    }
                }
            },
            None => {},
        }
        k = k + 1;
    }
    proof {
        let views = term_views(out@);
        assert forall|i: int| 0 <= i < views.len() implies (#[trigger] views[i]).base
            < 0x1_0000_0000 && is_kept(m, views[i].base) && views[i].exponent == m[views[i].base] by {
            assert(views[i] == out@[i]@);
        }
        assert forall|base: u32| base < 0x1_0000_0000 && #[trigger] is_kept(m, base) implies exists|
            i: int,
        | 0 <= i < views.len() && (#[trigger] views[i]).base == base by {
            assert(map@.dom().contains(base));
            assert(bases@.to_set().contains(base));
            let x = choose|x: int| 0 <= x < bases@.len() && bases@[x] == base;
            assert(is_kept(m, bases@[x]));
            let i = choose|i: int| 0 <= i < out@.len() && (#[trigger] out@[i]).base == bases@[x];
            assert(views[i].base == base);
        }
        lemma_terms_of(m, views);
    }
    out
}

/// The terms without zero exponents, sorted by ascending base.
fn normalize_terms(terms: &Vec<PowerTerm>) -> (r: Vec<PowerTerm>)
    ensures
        term_views(r@) == normalized(term_views(terms@)),
{
    let mut out: Vec<PowerTerm> = Vec::new();
    let mut i: usize = 0;
    let ghost all = term_views(terms@);
    assert(all.take(0) =~= Seq::<TermView>::empty());
    assert(term_views(out@) =~= Seq::<TermView>::empty());
    while i < terms.len()
        invariant
            i <= terms.len(),
            all == term_views(terms@),
            term_views(out@) == normalized(all.take(i as int)),
        decreases terms.len() - i,
    {
        proof {
            let next = all.take(i as int + 1);
            let kept = keep_nonzero(all.take(i as int));
            assert(next.drop_last() =~= all.take(i as int));
            assert(next.last() == terms@[i as int]@);
            assert(kept.push(next.last()).drop_last() =~= kept);
            assert(kept.push(next.last()).last() == next.last());
        }
        if !terms[i].exponent.is_zero() {
            insert_term(&mut out, terms[i].clone());
        }
        i = i + 1;
    }
    assert(all.take(terms.len() as int) =~= all);
    out
}

impl SymbolicPower {
    /// A symbolic power with the given coefficient and terms, as they are.
    pub fn new(coefficient: Fraction, powers: Vec<PowerTerm>) -> (r: SymbolicPower)
        ensures
            r.coefficient == coefficient,
            r.powers == powers,
    {
        SymbolicPower { coefficient, powers }
    }

    /// The single power `base ^ exponent`.
    pub fn from_power(base: u32, exponent: Fraction) -> (r: SymbolicPower)
        ensures
            r@ == (SymView {
                coefficient: Rat::one(),
                powers: seq![TermView { base, exponent: exponent@ }],
            }),
    {
        let ghost e = exponent@;
        let mut powers: Vec<PowerTerm> = Vec::new();
        powers.push(PowerTerm { base, exponent });
        let r = SymbolicPower { coefficient: Fraction::one(), powers };
        assert(r@.powers =~= seq![TermView { base, exponent: e }]);
        r
    }

    /// A rational as a symbolic power without terms.
    pub fn from_rational(frac: Fraction) -> (r: SymbolicPower)
        ensures
            r@ == (SymView { coefficient: frac@, powers: Seq::empty() }),
    {
        let r = SymbolicPower { coefficient: frac, powers: Vec::new() };
        assert(r@.powers =~= Seq::<TermView>::empty());
        r
    }

    /// An approximation of the value: see [`product_approximated`].
    pub fn to_approx<A: Approx>(&self) -> (r: A)
        ensures
            product_approximated(self.coefficient, self.powers@, r),
    {
        let mut result = A::from_fraction(&self.coefficient);
        let mut i: usize = 0;
        assert(self.powers@.take(0) =~= Seq::<PowerTerm>::empty());
        while i < self.powers.len()
            invariant
                i <= self.powers.len(),
                product_approximated(self.coefficient, self.powers@.take(i as int), result),
            decreases self.powers.len() - i,
        {
            let ghost before = result;
            let whole = Fraction::from_i64(self.powers[i].base as i64);
            let base = A::from_fraction(&whole);
            let exponent = A::from_fraction(&self.powers[i].exponent);
            let power = base.power(&exponent);
            result = result.times(&power);
            proof {
                let next = self.powers@.take(i as int + 1);
                assert(next.drop_last() =~= self.powers@.take(i as int));
                assert(next.last() == self.powers@[i as int]);
                assert(crate::approx::approximates(whole, base));
                assert(crate::approx::raises(base, exponent, power));
                assert(term_approximated(next.last(), power));
                assert(crate::approx::multiplies(before, power, result));
            }
            i = i + 1;
        }
        assert(self.powers@.take(self.powers@.len() as int) =~= self.powers@);
        result
    }

    /// Whether every exponent is a whole number.
    pub fn is_rational(&self) -> (r: bool)
        ensures
            r == self@.is_rational(),
    {
        let mut i: usize = 0;
        while i < self.powers.len()
            invariant
                i <= self.powers.len(),
                forall|k: int| 0 <= k < i ==> (#[trigger] self@.powers[k]).exponent.den == 1,
            decreases self.powers.len() - i,
        {
            if !self.powers[i].exponent.is_integer() {
                assert(self@.powers[i as int] == self.powers@[i as int]@);
                return false;
            }
            assert(self@.powers[i as int] == self.powers@[i as int]@);
            i = i + 1;
        }
        true
    }

    /// The value as a fraction, where every exponent is a whole number that
    /// fits 64 bits.
    pub fn to_rational_fraction(&self) -> (r: Option<Fraction>)
        ensures
            match r {
                Some(f) => self@.foldable() && f@ == self@.folded(),
                None => !self@.foldable(),
            },
    {
        let mut result = self.coefficient.clone_fraction();
        let mut i: usize = 0;
        let ghost all = self@.powers;
        assert(all.take(0) =~= Seq::<TermView>::empty());
        while i < self.powers.len()
            invariant
                i <= self.powers.len(),
                all == self@.powers,
                all_whole(all.take(i as int)),
                all_small(all.take(i as int)),
                result@ == fold_terms(self@.coefficient, all.take(i as int)),
            decreases self.powers.len() - i,
        {
            let term = &self.powers[i];
            proof {
                assert(all[i as int] == self.powers@[i as int]@);
                let next = all.take(i as int + 1);
                assert(next.drop_last() =~= all.take(i as int));
                assert(next.last() == all[i as int]);
            }
            if !term.exponent.is_integer() {
                return None;
            }
            let e = match term.exponent.numerator_i64() {
                Some(v) => v,
                None => {
                    return None;
                },
            };
            let base = Fraction::from_i64(term.base as i64);
            if e >= 0 {
                let p = rational_nat_power(&base, e as u64);
                result = result.mul(&p);
            } else {
                let m: u64 = if e == i64::MIN {
                    0x8000_0000_0000_0000
                } else {
                    (-e) as u64
                };
                let p = rational_nat_power(&base, m);
                result = result.div(&p);
            }
            proof {
                let next = all.take(i as int + 1);
                assert forall|k: int| 0 <= k < next.len() implies (#[trigger] next[k]).exponent.den
                    == 1 by {
                    if k < i {
                        assert(next[k] == all.take(i as int)[k]);
                    }
                }
                assert forall|k: int| 0 <= k < next.len() implies i64::MIN <= (
                #[trigger] next[k]).exponent.num <= i64::MAX by {
                    if k < i {
                        assert(next[k] == all.take(i as int)[k]);
                    }
                }
            }
            i = i + 1;
        }
        assert(all.take(self.powers.len() as int) =~= all);
        Some(result)
    }

    /// The same value with its terms in normal form: terms with a zero
    /// exponent removed, the others sorted by ascending base.
    pub fn normalize(self) -> (r: SymbolicPower)
        ensures
            r@ == self@.normalized(),
    {
        let powers = normalize_terms(&self.powers);
        SymbolicPower { coefficient: self.coefficient, powers }
    }

    /// The product: coefficients multiplied, exponents of like bases added,
    /// terms in normal form.
    pub fn mul(&self, other: &SymbolicPower) -> (r: SymbolicPower)
        ensures
            r@ == self@.times(other@),
    {
        let coefficient = self.coefficient.mul(&other.coefficient);
        let combined = combine_terms(&self.powers, &other.powers, false);
        SymbolicPower::new(coefficient, combined)
    }

    /// The quotient: coefficients divided, exponents of like bases
    /// subtracted, terms in normal form.
    pub fn div(&self, other: &SymbolicPower) -> (r: SymbolicPower)
        ensures
            r@ == self@.over(other@),
    {
        let coefficient = self.coefficient.div(&other.coefficient);
        let combined = combine_terms(&self.powers, &other.powers, true);
        SymbolicPower::new(coefficient, combined)
    }

    /// This value raised to a rational power: every exponent multiplied by
    /// it, terms in normal form. The coefficient is raised exactly where
    /// its power is rational, and approximately otherwise.
    pub fn pow<A: Approx>(&self, exponent: &Fraction) -> (r: SymbolicPower)
        ensures
            r@.powers == normalized(scale_exponents(self@.powers, exponent@)),
            exact_power(self@.coefficient, exponent@) matches Some(c) ==> r@.coefficient == c,
    {
        let coefficient = match try_rational_power(&self.coefficient, exponent) {
            Some(c) => c,
            None => {
                let base = A::from_fraction(&self.coefficient);
                base.power(&A::from_fraction(exponent)).to_fraction()
            },
        };
        let mut scaled: Vec<PowerTerm> = Vec::new();
        let mut i: usize = 0;
        while i < self.powers.len()
            invariant
                i <= self.powers.len(),
                scaled.len() == i,
                forall|k: int|
                    0 <= k < i ==> (#[trigger] scaled@[k])@ == (TermView {
                        base: self.powers@[k].base,
                        exponent: self.powers@[k].exponent@.times(exponent@),
                    }),
            decreases self.powers.len() - i,
        {
            let t = &self.powers[i];
            scaled.push(PowerTerm { base: t.base, exponent: t.exponent.mul(exponent) });
            i = i + 1;
        }
        assert(term_views(scaled@) =~= scale_exponents(self@.powers, exponent@));
        SymbolicPower::new(coefficient, scaled).normalize()
    }

    /// The product with a rational: the coefficient multiplied, the terms
    /// kept.
    pub fn mul_rational(&self, frac: &Fraction) -> (r: SymbolicPower)
        ensures
            r@ == self@.scaled(frac@),
    {
        SymbolicPower::new(self.coefficient.mul(frac), clone_terms(&self.powers))
    }
}

/// Whether `p` approximates the power that a term denotes: the
/// approximation of its base, raised to the approximation of its exponent.
pub open spec fn term_approximated<A: Approx>(t: PowerTerm, p: A) -> bool {
    exists|base: A, exponent: A|
        crate::approx::approximates_rational(Rat::from_int(t.base as int), base)
            && crate::approx::approximates(t.exponent, exponent) && #[trigger] crate::approx::raises(
            base,
            exponent,
            p,
        )
}

/// Whether `r` approximates the product of a coefficient and terms: the
/// approximation of the coefficient, multiplied in turn by an approximation
/// of the power of every term.
pub open spec fn product_approximated<A: Approx>(
    coefficient: Fraction,
    terms: Seq<PowerTerm>,
    r: A,
) -> bool
    decreases terms.len(),
{
    if terms.len() == 0 {
        crate::approx::approximates(coefficient, r)
    } else {
        exists|before: A, p: A|
            product_approximated(coefficient, terms.drop_last(), before) && term_approximated(
                terms.last(),
                p,
            ) && #[trigger] crate::approx::multiplies(before, p, r)
    }
}

} // verus!
