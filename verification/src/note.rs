//! The evaluated values of one note, and the record in which a value leaves
//! the library.

use crate::approx::Approx;
use crate::bytecode::Var;
use crate::fraction::Fraction;
use crate::rational::signum;
use crate::rational::Rat;
use crate::value::SimpleFraction;
use crate::value::SymbolicPowerData;
use crate::value::Value;
use crate::value::ValueView;
use vstd::prelude::*;

verus! {

/// What the exact model knows of a value: its exact content, or nothing
/// where the value hangs on an approximation.
pub type Known = Option<ValueView>;

/// The values of the six variables of a note, each absent or present.
pub struct NoteView {
    pub start_time: Option<Known>,
    pub duration: Option<Known>,
    pub frequency: Option<Known>,
    pub tempo: Option<Known>,
    pub beats_per_measure: Option<Known>,
    pub measure_length: Option<Known>,
}

impl NoteView {
    /// The note without any value.
    pub open spec fn empty() -> NoteView {
        NoteView {
            start_time: None,
            duration: None,
            frequency: None,
            tempo: None,
            beats_per_measure: None,
            measure_length: None,
        }
    }

    /// The value of a variable, if the note has one.
    pub open spec fn get(self, var: Var) -> Option<Known> {
        match var {
            Var::StartTime => self.start_time,
            Var::Duration => self.duration,
            Var::Frequency => self.frequency,
            Var::Tempo => self.tempo,
            Var::BeatsPerMeasure => self.beats_per_measure,
            Var::MeasureLength => self.measure_length,
        }
    }

    /// The note with one variable set or cleared.
    pub open spec fn with(self, var: Var, value: Option<Known>) -> NoteView {
        match var {
            Var::StartTime => NoteView { start_time: value, ..self },
            Var::Duration => NoteView { duration: value, ..self },
            Var::Frequency => NoteView { frequency: value, ..self },
            Var::Tempo => NoteView { tempo: value, ..self },
            Var::BeatsPerMeasure => NoteView { beats_per_measure: value, ..self },
            Var::MeasureLength => NoteView { measure_length: value, ..self },
        }
    }
}

/// Whether a modelled slot agrees with an actual one: both absent, or both
/// present with the modelled value, where known, being the actual value.
pub open spec fn known_agrees(model: Option<Known>, actual: Option<Known>) -> bool {
    match (model, actual) {
        (None, None) => true,
        (Some(m), Some(a)) => m is Some ==> m == a,
        _ => false,
    }
}

/// The content of an optional value.
pub open spec fn slot_view<A>(slot: Option<Value<A>>) -> Option<Known> {
    match slot {
        Some(v) => Some(Some(v@)),
        None => None,
    }
}

/// The corruption flag that a slot contributes: the flag of its variable
/// where the slot holds a value that is not an exact rational.
pub open spec fn slot_flag<A>(slot: Option<Value<A>>, flag: u8) -> u8 {
    match slot {
        Some(v) => if v@.is_corrupted() {
            flag
        } else {
            0
        },
        None => 0,
    }
}

/// The evaluated values of one note. A variable without a value inherits
/// from the base note where that is the rule, and has its default otherwise.
#[derive(Debug)]
pub struct EvaluatedNote<A> {
    pub start_time: Option<Value<A>>,
    pub duration: Option<Value<A>>,
    pub frequency: Option<Value<A>>,
    pub tempo: Option<Value<A>>,
    pub beats_per_measure: Option<Value<A>>,
    pub measure_length: Option<Value<A>>,
    /// One bit for each variable whose value is not an exact rational.
    pub corruption_flags: u8,
}

impl<A> View for EvaluatedNote<A> {
    type V = NoteView;

    open spec fn view(&self) -> NoteView {
        NoteView {
            start_time: slot_view(self.start_time),
            duration: slot_view(self.duration),
            frequency: slot_view(self.frequency),
            tempo: slot_view(self.tempo),
            beats_per_measure: slot_view(self.beats_per_measure),
            measure_length: slot_view(self.measure_length),
        }
    }
}

impl<A: Approx> Default for EvaluatedNote<A> {
    fn default() -> (r: EvaluatedNote<A>)
        ensures
            r@ == NoteView::empty(),
            r.corruption_flags == 0,
    {
        EvaluatedNote {
            start_time: None,
            duration: None,
            frequency: None,
            tempo: None,
            beats_per_measure: None,
            measure_length: None,
            corruption_flags: 0,
        }
    }
}

/// A copy of an optional value.
fn clone_slot<A: Approx>(slot: &Option<Value<A>>) -> (r: Option<Value<A>>)
    ensures
        slot_view(r) == slot_view(*slot),
{
    match slot {
        Some(v) => Some(v.clone()),
        None => None,
    }
}

impl<A: Approx> Clone for EvaluatedNote<A> {
    fn clone(&self) -> (r: EvaluatedNote<A>)
        ensures
            r@ == self@,
            r.corruption_flags == self.corruption_flags,
    {
        EvaluatedNote {
            start_time: clone_slot(&self.start_time),
            duration: clone_slot(&self.duration),
            frequency: clone_slot(&self.frequency),
            tempo: clone_slot(&self.tempo),
            beats_per_measure: clone_slot(&self.beats_per_measure),
            measure_length: clone_slot(&self.measure_length),
            corruption_flags: self.corruption_flags,
        }
    }
}

impl<A: Approx> EvaluatedNote<A> {
    /// The flags that the values held call for: for each variable whose
    /// value is not an exact rational, its bit.
    pub open spec fn flags_of_values(self) -> int {
        slot_flag(self.start_time, 0x01) + slot_flag(self.duration, 0x02) + slot_flag(
            self.frequency,
            0x04,
        ) + slot_flag(self.tempo, 0x08) + slot_flag(self.beats_per_measure, 0x10) + slot_flag(
            self.measure_length,
            0x20,
        )
    }

    /// The value of a variable, if the note has one.
    pub fn get_var(&self, var: Var) -> (r: Option<&Value<A>>)
        ensures
            match r {
                Some(v) => self@.get(var) == Some(Some(v@)),
                None => self@.get(var) is None,
            },
    {
        match var {
            Var::StartTime => self.start_time.as_ref(),
            Var::Duration => self.duration.as_ref(),
            Var::Frequency => self.frequency.as_ref(),
            Var::Tempo => self.tempo.as_ref(),
            Var::BeatsPerMeasure => self.beats_per_measure.as_ref(),
            Var::MeasureLength => self.measure_length.as_ref(),
        }
    }

    /// Sets the value of a variable. The other variables and the flags stay.
    pub fn set_var(&mut self, var: Var, value: Value<A>)
        ensures
            final(self)@ == old(self)@.with(var, Some(Some(value@))),
            final(self).corruption_flags == old(self).corruption_flags,
    {
        match var {
            Var::StartTime => self.start_time = Some(value),
            Var::Duration => self.duration = Some(value),
            Var::Frequency => self.frequency = Some(value),
            Var::Tempo => self.tempo = Some(value),
            Var::BeatsPerMeasure => self.beats_per_measure = Some(value),
            Var::MeasureLength => self.measure_length = Some(value),
        }
    }
}

/// A value as a record of plain parts, as it is handed to a host. For an
/// exact rational whose parts fit 32 bits, sign, numerator and denominator
/// are authoritative. Otherwise the record is marked corrupted and the
/// approximation is authoritative, with the symbolic form beside it where
/// the value has one.
#[derive(Debug)]
pub struct FractionData<A> {
    pub s: i32,
    pub n: u32,
    pub d: u32,
    pub f: Option<A>,
    pub corrupted: bool,
    pub symbolic: Option<SymbolicPowerData>,
}

impl<A: Approx> Default for FractionData<A> {
    fn default() -> (r: FractionData<A>)
        ensures
            r.s == 0,
            r.n == 0,
            r.d == 1,
            r.f is None,
            !r.corrupted,
            r.symbolic is None,
    {
        FractionData { s: 0, n: 0, d: 1, f: None, corrupted: false, symbolic: None }
    }
}

/// Whether both parts of a rational fit 32 bits without sign.
pub open spec fn fits_u32(q: Rat) -> bool {
    -(u32::MAX as int) <= q.num <= u32::MAX && q.den <= u32::MAX
}

impl<A: Approx> FractionData<A> {
    /// The parts of an approximation: its sign, and its magnitude in
    /// millionths.
    fn approximate(v: A, symbolic: Option<SymbolicPowerData>) -> (r: FractionData<A>)
        ensures
            r.corrupted,
            r.d == 1_000_000,
            r.f is Some,
            r.symbolic == symbolic,
    {
        let million = A::from_fraction(&Fraction::from_int(1_000_000));
        let numer = v.absolute().times(&million).round_to_u32();
        FractionData {
            s: v.sign(),
            n: numer,
            d: 1_000_000,
            f: Some(v),
            corrupted: true,
            symbolic,
        }
    }

    /// The record of a fraction. Where a part does not fit 32 bits the
    /// record is marked corrupted and carries an approximation.
    pub fn from_fraction(f: &Fraction) -> (r: FractionData<A>)
        ensures
            r.corrupted == !fits_u32(f@),
            r.symbolic is None,
            !r.corrupted ==> r.s == signum(f@.num) && r.n == crate::rational::magnitude(f@.num)
                && r.d == f@.den && r.f is None,
            r.corrupted ==> r.f is Some && r.d == 1_000_000,
    {
        match (f.numerator_u32(), f.denominator_u32()) {
            (Some(n), Some(d)) => FractionData {
                s: f.s(),
                n,
                d,
                f: None,
                corrupted: false,
                symbolic: None,
            },
            _ => FractionData::approximate(A::from_fraction(f), None),
        }
    }

    /// Whether this is a record of a value with the given content. The
    /// record of a rational whose parts fit 32 bits holds those parts and is
    /// not corrupted. Every other record is corrupted and carries an
    /// approximation, in millionths too, and the symbolic form exactly
    /// where the value has one.
    pub open spec fn records(self, v: ValueView) -> bool {
        &&& match v {
            ValueView::Rational(q) => self.corrupted == !fits_u32(q) && self.symbolic is None && (
            !self.corrupted ==> self.s == signum(q.num) && self.n == crate::rational::magnitude(
                q.num,
            ) && self.d == q.den && self.f is None),
            ValueView::Irrational => self.corrupted && self.symbolic is None,
            ValueView::Symbolic(sym) => self.corrupted && (self.symbolic matches Some(parts)
                && parts.records(sym)),
        }
        &&& self.corrupted ==> self.f is Some && self.d == 1_000_000
    }

    /// The record of a value.
    pub fn from_value(v: &Value<A>) -> (r: FractionData<A>)
        ensures
            r.records(v@),
    {
        match v {
            Value::Rational(frac) => FractionData::from_fraction(frac),
            Value::Irrational(val) => FractionData::approximate(val.duplicate(), None),
            Value::Symbolic(sp) => FractionData::approximate(
                sp.to_approx::<A>(),
                Some(SymbolicPowerData::from_symbolic(sp)),
            ),
        }
    }

    /// The record as a fraction: the rational of the three parts, or a
    /// fraction close to the approximation where the record is corrupted.
    pub fn to_fraction(&self) -> (r: Fraction)
        ensures
            !self.corrupted ==> r@ == (SimpleFraction {
                s: self.s,
                n: self.n,
                d: self.d,
            }).value(),
            r@.wf(),
    {
        let r = if self.corrupted {
            match &self.f {
                Some(v) => v.to_fraction(),
                None => Fraction::zero(),
            }
        } else {
            (SimpleFraction { s: self.s, n: self.n, d: self.d }).to_fraction()
        };
        proof {
            use_type_invariant(&r);
        }
        r
    }

    /// The value of a record: the symbolic form where there is one; else
    /// the approximation where the record is corrupted; else the rational of
    /// the three parts.
    pub fn to_value(&self) -> (r: Value<A>)
        ensures
            match self.symbolic {
                Some(sym) => r@ == ValueView::Symbolic(sym.value()),
                None => if self.corrupted {
                    r@ == ValueView::Irrational
                } else {
                    r@ == ValueView::Rational(
                        (SimpleFraction { s: self.s, n: self.n, d: self.d }).value(),
                    )
                },
            },
    {
        match &self.symbolic {
            Some(symbolic) => {
                return Value::Symbolic(symbolic.to_symbolic());
            },
            None => {},
        }
        if self.corrupted {
            match &self.f {
                Some(v) => Value::Irrational(v.duplicate()),
                None => Value::Irrational(A::from_fraction(&Fraction::zero())),
            }
        } else {
            Value::Rational((SimpleFraction { s: self.s, n: self.n, d: self.d }).to_fraction())
        }
    }

    /// An approximation of the record: the one held, else that of the
    /// rational of the three parts.
    pub fn to_approx(&self) -> (r: A)
        ensures
            match self.f {
                Some(v) => crate::approx::duplicates(v, r),
                None => crate::approx::approximates_rational(
                    (SimpleFraction { s: self.s, n: self.n, d: self.d }).value(),
                    r,
                ),
            },
    {
        match &self.f {
            Some(v) => v.duplicate(),
            None => {
                let exact = (SimpleFraction { s: self.s, n: self.n, d: self.d }).to_fraction();
                let r = A::from_fraction(&exact);
                assert(crate::approx::approximates(exact, r));
                r
            },
        }
    }
}

} // verus!
