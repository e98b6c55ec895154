//! Evaluation of single expressions and of whole notes against a cache
//! supplied by the caller.

use crate::approx::Approx;
use crate::fraction::Fraction;
use crate::machine::cache_view;
use crate::machine::run_program;
use crate::machine::spec_evaluate;
use crate::machine::result_matches;
use crate::machine::CacheView;
use crate::machine::EvalError;
use crate::machine::STACK_LIMIT;
use crate::note::known_agrees;
use crate::note::slot_view;
use crate::note::EvaluatedNote;
use crate::note::Known;
use crate::note::NoteView;
use crate::value::Value;
use crate::value::ValueView;
use std::collections::HashMap;
use vstd::prelude::*;
use vstd::std_specs::hash::group_hash_axioms;

verus! {

broadcast use group_hash_axioms;

/// The content of an optional expression: its bytes and its length.
pub type ExprView = Option<(Seq<u8>, int)>;

/// The bytecode of the six expressions of a note, each with the number of
/// bytes of it that count.
pub struct NoteExpressions {
    pub start_time: Option<(Vec<u8>, usize)>,
    pub duration: Option<(Vec<u8>, usize)>,
    pub frequency: Option<(Vec<u8>, usize)>,
    pub tempo: Option<(Vec<u8>, usize)>,
    pub beats_per_measure: Option<(Vec<u8>, usize)>,
    pub measure_length: Option<(Vec<u8>, usize)>,
}

/// The contents of the six expressions of a note.
pub struct ExpressionsView {
    pub start_time: ExprView,
    pub duration: ExprView,
    pub frequency: ExprView,
    pub tempo: ExprView,
    pub beats_per_measure: ExprView,
    pub measure_length: ExprView,
}

/// The content of an optional expression.
pub open spec fn expr_view(e: Option<(Vec<u8>, usize)>) -> ExprView {
    match e {
        Some((bytes, length)) => Some((bytes@, length as int)),
        None => None,
    }
}

impl View for NoteExpressions {
    type V = ExpressionsView;

    open spec fn view(&self) -> ExpressionsView {
        ExpressionsView {
            start_time: expr_view(self.start_time),
            duration: expr_view(self.duration),
            frequency: expr_view(self.frequency),
            tempo: expr_view(self.tempo),
            beats_per_measure: expr_view(self.beats_per_measure),
            measure_length: expr_view(self.measure_length),
        }
    }
}

impl Default for NoteExpressions {
    fn default() -> (r: NoteExpressions)
        ensures
            r.start_time is None,
            r.duration is None,
            r.frequency is None,
            r.tempo is None,
            r.beats_per_measure is None,
            r.measure_length is None,
    {
        NoteExpressions {
            start_time: None,
            duration: None,
            frequency: None,
            tempo: None,
            beats_per_measure: None,
            measure_length: None,
        }
    }
}

/// The value that an expression gives a variable: none where there is no
/// expression or its evaluation fails.
pub open spec fn eval_slot(expr: ExprView, cache: CacheView, limit: int) -> Option<Known> {
    match expr {
        None => None,
        Some((code, length)) => match spec_evaluate(code, length, cache, limit) {
            Ok(k) => Some(k),
            Err(_) => None,
        },
    }
}

/// The values of a note that are evaluated first: tempo, beats per measure
/// and frequency.
pub open spec fn first_phase(r: NoteView) -> NoteView {
    NoteView {
        tempo: r.tempo,
        beats_per_measure: r.beats_per_measure,
        frequency: r.frequency,
        ..NoteView::empty()
    }
}

/// The values of the first phase with the measure length.
pub open spec fn second_phase(r: NoteView, measure: Option<Known>) -> NoteView {
    NoteView { measure_length: measure, ..first_phase(r) }
}

/// The values of the second phase with the start time.
pub open spec fn third_phase(r: NoteView, measure: Option<Known>) -> NoteView {
    NoteView { start_time: r.start_time, ..second_phase(r, measure) }
}

/// Whether `r` holds the values that the expressions of a note evaluate to.
///
/// Tempo, beats per measure and frequency are evaluated against the cache
/// as it is. These are published in the cache under `key`, and the measure
/// length is evaluated; published again with it, the start time is
/// evaluated; and the duration after that, with the start time published
/// too where `publish_start` says so. `measure` is what the measure-length
/// expression gave. A variable whose expression is missing or fails has no
/// value.
pub open spec fn note_evaluated(
    exprs: ExpressionsView,
    cache: CacheView,
    key: u32,
    limit: int,
    publish_start: bool,
    measure: Option<Known>,
    r: NoteView,
) -> bool {
    let c1 = cache.insert(key, first_phase(r));
    let c2 = cache.insert(key, second_phase(r, measure));
    let c3 = if publish_start {
        cache.insert(key, third_phase(r, measure))
    } else {
        c2
    };
    &&& known_agrees(eval_slot(exprs.tempo, cache, limit), r.tempo)
    &&& known_agrees(eval_slot(exprs.beats_per_measure, cache, limit), r.beats_per_measure)
    &&& known_agrees(eval_slot(exprs.frequency, cache, limit), r.frequency)
    &&& known_agrees(eval_slot(exprs.measure_length, c1, limit), measure)
    &&& known_agrees(eval_slot(exprs.start_time, c2, limit), r.start_time)
    &&& known_agrees(eval_slot(exprs.duration, c3, limit), r.duration)
}

/// Evaluates one expression of a note. A failure leaves the variable
/// without a value.
pub fn evaluate_slot<A: Approx>(
    stack: &mut Vec<Value<A>>,
    limit: usize,
    bytecode: &[u8],
    length: usize,
    cache: &HashMap<u32, EvaluatedNote<A>>,
) -> (r: Option<Value<A>>)
    ensures
        known_agrees(
            eval_slot(Some((bytecode@, length as int)), cache_view(cache@), limit as int),
            slot_view(r),
        ),
{
    match run_program(stack, limit, bytecode, length, cache) {
        Ok(v) => Some(v),
        Err(_) => None,
    }
}

/// Evaluates an expression that may be missing.
pub fn evaluate_optional<A: Approx>(
    stack: &mut Vec<Value<A>>,
    limit: usize,
    expr: &Option<(Vec<u8>, usize)>,
    cache: &HashMap<u32, EvaluatedNote<A>>,
) -> (r: Option<Value<A>>)
    ensures
        known_agrees(eval_slot(expr_view(*expr), cache_view(cache@), limit as int), slot_view(r)),
{
    match expr {
        Some((bytes, length)) => evaluate_slot(stack, limit, bytes.as_slice(), *length, cache),
        None => None,
    }
}

/// The flag of a slot: `flag` where it holds a value that is not an exact
/// rational.
fn flag_of<A: Approx>(slot: &Option<Value<A>>, flag: u8) -> (r: u8)
    ensures
        r == crate::note::slot_flag(*slot, flag),
{
    match slot {
        Some(v) => if v.is_corrupted() {
            flag
        } else {
            0
        },
        None => 0,
    }
}

/// The corruption flags that the values of a note call for.
pub fn flags_for<A: Approx>(note: &EvaluatedNote<A>) -> (r: u8)
    ensures
        r == note.flags_of_values(),
{
    flag_of(&note.start_time, 0x01) + flag_of(&note.duration, 0x02) + flag_of(
        &note.frequency,
        0x04,
    ) + flag_of(&note.tempo, 0x08) + flag_of(&note.beats_per_measure, 0x10) + flag_of(
        &note.measure_length,
        0x20,
    )
}

/// Publishing a note in a cache publishes its content in the content of the
/// cache.
pub proof fn lemma_cache_view_insert<A>(
    cache: Map<u32, EvaluatedNote<A>>,
    key: u32,
    note: EvaluatedNote<A>,
)
    ensures
        cache_view(cache.insert(key, note)) == cache_view(cache).insert(key, note@),
{
    assert(cache_view(cache.insert(key, note)) =~= cache_view(cache).insert(key, note@));
}

/// A stack machine for expression bytecode with a bounded stack.
pub struct Evaluator<A> {
    stack: Vec<Value<A>>,
}

impl<A: Approx> Default for Evaluator<A> {
    fn default() -> (r: Evaluator<A>)
        ensures
            r.limit() == 1024,
    {
        Evaluator::new()
    }
}

impl<A: Approx> Evaluator<A> {
    /// The largest number of values that the stack may hold.
    pub open spec fn limit(&self) -> int {
        STACK_LIMIT as int
    }

    /// The number of values on the stack.
    pub closed spec fn depth(&self) -> int {
        self.stack@.len() as int
    }

    /// An evaluator with an empty stack and a stack limit of 1024.
    pub fn new() -> (r: Evaluator<A>)
        ensures
            r.limit() == 1024,
            r.depth() == 0,
    {
        Evaluator { stack: Vec::new() }
    }

    /// The number of values that the last evaluation left on the stack.
    pub fn stack_size(&self) -> (r: usize)
        ensures
            r == self.depth(),
    {
        self.stack.len()
    }

    /// Runs the first `length` bytes of `bytecode` against a cache of
    /// evaluated notes. Returns the value on top of the stack at the end,
    /// or zero where the program is empty or leaves the stack empty.
    pub fn evaluate(
        &mut self,
        bytecode: &[u8],
        length: usize,
        eval_cache: &HashMap<u32, EvaluatedNote<A>>,
    ) -> (r: Result<Value<A>, EvalError>)
        ensures
            result_matches(
                r,
                spec_evaluate(
                    bytecode@,
                    length as int,
                    cache_view(eval_cache@),
                    old(self).limit(),
                ),
            ),
            final(self).limit() == old(self).limit(),
    {
        run_program(&mut self.stack, STACK_LIMIT, bytecode, length, eval_cache)
    }

    /// Runs a program and returns its result as a fraction: exact for an
    /// exact result, a fraction close to it otherwise.
    pub fn evaluate_as_fraction(
        &mut self,
        bytecode: &[u8],
        length: usize,
        eval_cache: &HashMap<u32, EvaluatedNote<A>>,
    ) -> (r: Result<Fraction, EvalError>)
        ensures
            match (
                r,
                spec_evaluate(
                    bytecode@,
                    length as int,
                    cache_view(eval_cache@),
                    old(self).limit(),
                ),
            ) {
                (Ok(f), Ok(k)) => k matches Some(ValueView::Rational(q)) ==> f@ == q,
                (Err(e), Err(m)) => e == m,
                _ => false,
            },
            final(self).limit() == old(self).limit(),
    {
        match self.evaluate(bytecode, length, eval_cache) {
            Ok(value) => Ok(value.to_fraction()),
            Err(e) => Err(e),
        }
    }

    /// Evaluates the six expressions of a note. Tempo, beats per measure
    /// and frequency come first, against the cache as given. The measure
    /// length is evaluated with these published as the base note, and start
    /// time and duration with the measure length published too. A variable
    /// whose expression is missing or fails has no value.
    pub fn evaluate_note(
        &mut self,
        expressions: &NoteExpressions,
        eval_cache: &HashMap<u32, EvaluatedNote<A>>,
    ) -> (r: EvaluatedNote<A>)
        ensures
            note_evaluated(
                expressions@,
                cache_view(eval_cache@),
                0,
                old(self).limit(),
                false,
                r@.measure_length,
                r@,
            ),
            r.corruption_flags == r.flags_of_values(),
            final(self).limit() == old(self).limit(),
    {
        let limit = STACK_LIMIT;
        let ghost base = cache_view(eval_cache@);
        let mut result: EvaluatedNote<A> = EvaluatedNote::default();
        result.tempo = evaluate_optional(&mut self.stack, limit, &expressions.tempo, eval_cache);
        result.beats_per_measure = evaluate_optional(
            &mut self.stack,
            limit,
            &expressions.beats_per_measure,
            eval_cache,
        );
        result.frequency = evaluate_optional(
            &mut self.stack,
            limit,
            &expressions.frequency,
            eval_cache,
        );
        let mut working = eval_cache.clone();
        let published = result.clone();
        proof {
            lemma_cache_view_insert(working@, 0, published);
        }
        working.insert(0, published);
        assert(cache_view(working@) == base.insert(0, first_phase(result@)));
        result.measure_length = evaluate_optional(
            &mut self.stack,
            limit,
            &expressions.measure_length,
            &working,
        );
        let published = result.clone();
        proof {
            lemma_cache_view_insert(working@, 0, published);
        }
        working.insert(0, published);
        assert(cache_view(working@) =~= base.insert(
            0,
            second_phase(result@, result@.measure_length),
        ));
        result.start_time = evaluate_optional(
            &mut self.stack,
            limit,
            &expressions.start_time,
            &working,
        );
        result.duration = evaluate_optional(
            &mut self.stack,
            limit,
            &expressions.duration,
            &working,
        );
        result.corruption_flags = flags_for(&result);
        result
    }
}

} // verus!
