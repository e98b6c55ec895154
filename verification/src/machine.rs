//! The stack machine that runs expression bytecode.
//!
//! The machine is specified as a function on what is known exactly: the
//! model runs the same program on the exact contents of the values. Where a
//! step hangs on an approximation, the model marks its result as unknown
//! and goes on; errors never hang on values and are always modelled exactly.

use crate::approx::Approx;
use crate::bytecode::read_big_int_signed;
use crate::bytecode::read_big_int_unsigned;
use crate::bytecode::read_i32;
use crate::bytecode::read_u16;
use crate::bytecode::lemma_i32_round_trip;
use crate::bytecode::lemma_u16_round_trip;
use crate::bytecode::spec_i32_bytes;
use crate::bytecode::spec_read_big_signed;
use crate::bytecode::spec_u16_bytes;
use crate::bytecode::spec_read_big_unsigned;
use crate::bytecode::spec_read_i32;
use crate::bytecode::spec_read_u16;
use crate::bytecode::Op;
use crate::bytecode::ReadError;
use crate::bytecode::Var;
use crate::fraction::Fraction;
use crate::note::EvaluatedNote;
use crate::note::Known;
use crate::note::NoteView;
use crate::rational::Rat;
use crate::value::spec_add;
use crate::value::spec_div;
use crate::value::spec_mul;
use crate::value::spec_neg;
use crate::value::spec_pow;
use crate::value::spec_sub;
use crate::value::Value;
use crate::value::ValueView;
use std::collections::HashMap;
use vstd::prelude::*;
use vstd::std_specs::hash::group_hash_axioms;

verus! {

broadcast use group_hash_axioms;

/// Why a program could not be run to its end.
#[derive(Debug, Clone, Copy, PartialEq, Eq, Structural)]
pub enum EvalError {
    /// A byte in opcode position encodes no opcode.
    UnknownOpcode { byte: u8, pc: usize },
    /// The program ends within the operands of a constant load.
    TruncatedConst,
    /// The program ends within the operands of a note reference.
    TruncatedRef,
    /// The program ends before the operand of a base-note load.
    TruncatedBase,
    /// The numerator of a big constant cannot be read.
    BigNumerator(ReadError),
    /// The denominator of a big constant cannot be read.
    BigDenominator(ReadError),
    /// A variable index is above 5.
    InvalidVariable(u8),
    /// A push would exceed the stack limit.
    StackOverflow,
    /// A pop found the stack empty.
    StackUnderflow,
    /// A duplication found the stack empty.
    StackEmpty,
    /// The program is said to be longer than the buffer that holds it.
    TruncatedProgram,
}

/// The largest number of values that the stack of an evaluator may hold.
pub const STACK_LIMIT: usize = 1024;

/// What is known of each cached note, by note id.
pub type CacheView = Map<u32, NoteView>;

/// The contents of a cache of evaluated notes.
pub open spec fn cache_view<A>(cache: Map<u32, EvaluatedNote<A>>) -> CacheView {
    cache.map_values(|n: EvaluatedNote<A>| n@)
}

/// The value of a variable where no note provides one.
pub open spec fn default_value(var: Var) -> ValueView {
    ValueView::Rational(
        Rat::from_int(
            match var {
                Var::StartTime => 0,
                Var::Duration => 1,
                Var::Frequency => 440,
                Var::Tempo => 60,
                Var::BeatsPerMeasure => 4,
                Var::MeasureLength => 4,
            },
        ),
    )
}

/// Whether a variable without a value is taken from the base note.
pub open spec fn is_inherited(var: Var) -> bool {
    var == Var::Tempo || var == Var::BeatsPerMeasure || var == Var::MeasureLength
}

/// The cached value of a variable of a note, if there is one.
pub open spec fn lookup(cache: CacheView, id: u32, var: Var) -> Option<Known> {
    if cache.contains_key(id) {
        cache[id].get(var)
    } else {
        None
    }
}

/// The value of a variable of the base note: the cached one, else the
/// default.
pub open spec fn load_base(cache: CacheView, var: Var) -> Known {
    match lookup(cache, 0, var) {
        Some(k) => k,
        None => Some(default_value(var)),
    }
}

/// The value of a variable of a note: the cached one; else, for an
/// inherited variable, that of the base note; else the default.
pub open spec fn load_ref(cache: CacheView, id: u32, var: Var) -> Known {
    match lookup(cache, id, var) {
        Some(k) => k,
        None => if is_inherited(var) {
            load_base(cache, var)
        } else {
            Some(default_value(var))
        },
    }
}

/// An operation on two values, as far as the operands are known.
pub open spec fn known_binary(op: Op, a: Known, b: Known) -> Known {
    match (a, b) {
        (Some(x), Some(y)) => match op {
            Op::Add => Some(spec_add(x, y)),
            Op::Sub => Some(spec_sub(x, y)),
            Op::Mul => Some(spec_mul(x, y)),
            Op::Div => spec_div(x, y),
            _ => spec_pow(x, y),
        },
        _ => None,
    }
}

/// The negation, as far as the operand is known.
pub open spec fn known_neg(a: Known) -> Known {
    match a {
        Some(x) => Some(spec_neg(x)),
        None => None,
    }
}

/// The length of a measure at a note: its beats per measure times sixty,
/// divided by its tempo, each inherited from the base note where the note
/// has none.
pub open spec fn measure_of(cache: CacheView, id: u32) -> Known {
    known_binary(
        Op::Div,
        known_binary(
            Op::Mul,
            load_ref(cache, id, Var::BeatsPerMeasure),
            Some(ValueView::Rational(Rat::from_int(60))),
        ),
        load_ref(cache, id, Var::Tempo),
    )
}

/// The length of a measure at the note that a reference denotes: the
/// reference rounded to a note id. A reference that is not an exact
/// rational leaves the result unknown.
pub open spec fn find_measure(cache: CacheView, reference: Known) -> Known {
    match reference {
        Some(ValueView::Rational(q)) => measure_of(cache, q.rounded_u32()),
        _ => None,
    }
}

/// The rational constant `num / den`; zero for a zero denominator.
pub open spec fn const_value(num: int, den: int) -> ValueView {
    ValueView::Rational(
        if den == 0 {
            Rat::zero()
        } else {
            Rat::canon(num, den)
        },
    )
}

/// A push onto a stack with a limit.
pub open spec fn spec_push(stack: Seq<Known>, v: Known, limit: int) -> Result<
    Seq<Known>,
    EvalError,
> {
    if stack.len() >= limit {
        Err(EvalError::StackOverflow)
    } else {
        Ok(stack.push(v))
    }
}

/// A step that ends in a push: the next program counter with the new stack.
pub open spec fn push_and_go(stack: Seq<Known>, v: Known, limit: int, next: int) -> Result<
    (int, Seq<Known>),
    EvalError,
> {
    match spec_push(stack, v, limit) {
        Ok(s) => Ok((next, s)),
        Err(e) => Err(e),
    }
}

/// The outcome of one instruction: the next program counter and the stack
/// after it, or the error that ends the run.
pub type StepOutcome = Result<(int, Seq<Known>), EvalError>;

/// `LOAD_CONST`: two 32-bit operands, pushed as a rational.
pub open spec fn step_load_const(code: Seq<u8>, length: int, limit: int, pc: int, stack: Seq<Known>) -> StepOutcome {
    if pc + 9 > length {
        Err(EvalError::TruncatedConst)
    } else {
        push_and_go(
            stack,
            Some(const_value(spec_read_i32(code, pc + 1), spec_read_i32(code, pc + 5))),
            limit,
            pc + 9,
        )
    }
}

/// `LOAD_CONST_BIG`: a signed and an unsigned big integer, pushed as a
/// rational.
pub open spec fn step_load_big(code: Seq<u8>, limit: int, pc: int, stack: Seq<Known>) -> StepOutcome {
    match spec_read_big_signed(code, pc + 1) {
        Err(e) => Err(EvalError::BigNumerator(e)),
        Ok((num, used)) => match spec_read_big_unsigned(code, pc + 1 + used) {
            Err(e) => Err(EvalError::BigDenominator(e)),
            Ok((den, used2)) => push_and_go(
                stack,
                Some(const_value(num, den)),
                limit,
                pc + 1 + used + used2,
            ),
        },
    }
}

/// `LOAD_REF`: a note id and a variable index; the variable of that note is
/// pushed.
pub open spec fn step_load_ref(
    code: Seq<u8>,
    length: int,
    cache: CacheView,
    limit: int,
    pc: int,
    stack: Seq<Known>,
) -> StepOutcome {
    if pc + 4 > length {
        Err(EvalError::TruncatedRef)
    } else {
        match Var::spec_from_byte(code[pc + 3]) {
            None => Err(EvalError::InvalidVariable(code[pc + 3])),
            Some(var) => push_and_go(
                stack,
                load_ref(cache, spec_read_u16(code, pc + 1) as u32, var),
                limit,
                pc + 4,
            ),
        }
    }
}

/// `LOAD_BASE`: a variable index; the variable of the base note is pushed.
pub open spec fn step_load_base(
    code: Seq<u8>,
    length: int,
    cache: CacheView,
    limit: int,
    pc: int,
    stack: Seq<Known>,
) -> StepOutcome {
    if pc + 2 > length {
        Err(EvalError::TruncatedBase)
    } else {
        match Var::spec_from_byte(code[pc + 1]) {
            None => Err(EvalError::InvalidVariable(code[pc + 1])),
            Some(var) => push_and_go(stack, load_base(cache, var), limit, pc + 2),
        }
    }
}

/// An instruction that replaces the top of the stack by `value`.
pub open spec fn step_replace_top(value: Known, limit: int, pc: int, stack: Seq<Known>) -> StepOutcome {
    if stack.len() < 1 {
        Err(EvalError::StackUnderflow)
    } else {
        push_and_go(stack.drop_last(), value, limit, pc + 1)
    }
}

/// `ADD`, `SUB`, `MUL`, `DIV`, `POW`: the two topmost values are replaced by
/// the result, the topmost being the second operand.
pub open spec fn step_binary(op: Op, limit: int, pc: int, stack: Seq<Known>) -> StepOutcome {
    let n = stack.len() as int;
    if n < 2 {
        Err(EvalError::StackUnderflow)
    } else {
        push_and_go(
            stack.take(n - 2),
            known_binary(op, stack[n - 2], stack[n - 1]),
            limit,
            pc + 1,
        )
    }
}

/// `DUP`: the top of the stack is pushed again.
pub open spec fn step_dup(limit: int, pc: int, stack: Seq<Known>) -> StepOutcome {
    if stack.len() < 1 {
        Err(EvalError::StackEmpty)
    } else {
        push_and_go(stack, stack.last(), limit, pc + 1)
    }
}

/// `SWAP`: the two topmost values change places.
pub open spec fn step_swap(limit: int, pc: int, stack: Seq<Known>) -> StepOutcome {
    let n = stack.len() as int;
    if n < 2 {
        Err(EvalError::StackUnderflow)
    } else {
        match spec_push(stack.take(n - 2), stack[n - 1], limit) {
            Err(e) => Err(e),
            Ok(s) => push_and_go(s, stack[n - 2], limit, pc + 1),
        }
    }
}

/// One instruction: the next program counter and the stack after it, or the
/// error that ends the run.
#[verifier::opaque]
pub open spec fn step(
    code: Seq<u8>,
    length: int,
    cache: CacheView,
    limit: int,
    pc: int,
    stack: Seq<Known>,
) -> StepOutcome {
    match Op::spec_from_byte(code[pc]) {
        None => Err(EvalError::UnknownOpcode { byte: code[pc], pc: pc as usize }),
        Some(Op::LoadConst) => step_load_const(code, length, limit, pc, stack),
        Some(Op::LoadConstBig) => step_load_big(code, limit, pc, stack),
        Some(Op::LoadRef) => step_load_ref(code, length, cache, limit, pc, stack),
        Some(Op::LoadBase) => step_load_base(code, length, cache, limit, pc, stack),
        Some(Op::Neg) => step_replace_top(
            if stack.len() > 0 {
                known_neg(stack.last())
            } else {
                None
            },
            limit,
            pc,
            stack,
        ),
        Some(Op::FindTempo) => step_replace_top(load_base(cache, Var::Tempo), limit, pc, stack),
        Some(Op::FindMeasure) => step_replace_top(
            if stack.len() > 0 {
                find_measure(cache, stack.last())
            } else {
                None
            },
            limit,
            pc,
            stack,
        ),
        Some(Op::FindInstrument) => step_replace_top(
            Some(ValueView::Rational(Rat::zero())),
            limit,
            pc,
            stack,
        ),
        Some(Op::Dup) => step_dup(limit, pc, stack),
        Some(Op::Swap) => step_swap(limit, pc, stack),
        Some(op) => step_binary(op, limit, pc, stack),
    }
}

/// The run from `pc` on: the stack at the end of the program, or the error
/// that ends the run.
pub open spec fn run(
    code: Seq<u8>,
    length: int,
    cache: CacheView,
    limit: int,
    pc: int,
    stack: Seq<Known>,
) -> Result<Seq<Known>, EvalError>
    decreases length - pc,
{
    if pc >= length {
        Ok(stack)
    } else {
        let outcome = step(code, length, cache, limit, pc, stack);
        match outcome {
            Err(e) => Err(e),
            Ok(pair) => if pc < pair.0 && pair.0 < length {
                run(code, length, cache, limit, pair.0, pair.1)
            } else {
                Ok(pair.1)
            },
        }
    }
}

/// A run is its first instruction followed by the run from the next one.
pub proof fn lemma_run_unfolds(
    code: Seq<u8>,
    length: int,
    cache: CacheView,
    limit: int,
    pc: int,
    stack: Seq<Known>,
)
    ensures
        pc >= length ==> run(code, length, cache, limit, pc, stack) == Ok::<
            Seq<Known>,
            EvalError,
        >(stack),
        pc < length ==> run(code, length, cache, limit, pc, stack) == (match step(
            code,
            length,
            cache,
            limit,
            pc,
            stack,
        ) {
            Err(e) => Err(e),
            Ok(pair) => if pc < pair.0 && pair.0 < length {
                run(code, length, cache, limit, pair.0, pair.1)
            } else {
                Ok(pair.1)
            },
        }),
{
}

/// The result of a program of `length` bytes: the top of the stack at the
/// end of the run, or zero where the program is empty or leaves the stack
/// empty.
pub open spec fn spec_evaluate(code: Seq<u8>, length: int, cache: CacheView, limit: int) -> Result<
    Known,
    EvalError,
> {
    if length == 0 {
        Ok(Some(ValueView::Rational(Rat::zero())))
    } else if length > code.len() {
        Err(EvalError::TruncatedProgram)
    } else {
        match run(code, length, cache, limit, 0, Seq::empty()) {
            Err(e) => Err(e),
            Ok(stack) => if stack.len() == 0 {
                Ok(Some(ValueView::Rational(Rat::zero())))
            } else {
                Ok(stack.last())
            },
        }
    }
}

/// The program that loads two constants and adds them.
pub open spec fn sum_program(a: i32, b: i32, c: i32, d: i32) -> Seq<u8> {
    seq![Op::LoadConst.spec_byte()] + spec_i32_bytes(a) + spec_i32_bytes(b) + seq![
        Op::LoadConst.spec_byte(),
    ] + spec_i32_bytes(c) + spec_i32_bytes(d) + seq![Op::Add.spec_byte()]
}

/// The program `LOAD_CONST a/b; LOAD_CONST c/d; ADD` evaluates to the exact
/// sum of the two constants, whatever the cache holds, on every stack that
/// may hold two values.
pub proof fn lemma_constant_sum(a: i32, b: i32, c: i32, d: i32, cache: CacheView, limit: int)
    requires
        limit >= 2,
    ensures
        spec_evaluate(sum_program(a, b, c, d), 19, cache, limit) == Ok::<Known, EvalError>(
            Some(spec_add(const_value(a as int, b as int), const_value(c as int, d as int))),
        ),
{
    let code = sum_program(a, b, c, d);
    lemma_sum_program_reads(a, b, c, d);
    let x: Known = Some(const_value(a as int, b as int));
    let y: Known = Some(const_value(c as int, d as int));
    let empty = Seq::<Known>::empty();
    let one = empty.push(x);
    let two = one.push(y);
    lemma_run_unfolds(code, 19, cache, limit, 0, empty);
    lemma_load_const_step(code, 19, cache, limit, 0, empty);
    lemma_run_unfolds(code, 19, cache, limit, 9, one);
    lemma_load_const_step(code, 19, cache, limit, 9, one);
    lemma_run_unfolds(code, 19, cache, limit, 18, two);
    lemma_add_step(code, 19, cache, limit, 18, two);
    let sum: Known = Some(spec_add(x->0, y->0));
    assert(two.take(0) =~= empty);
    lemma_run_unfolds(code, 19, cache, limit, 19, empty.push(sum));
}

/// A constant load pushes its constant.
proof fn lemma_load_const_step(
    code: Seq<u8>,
    length: int,
    cache: CacheView,
    limit: int,
    pc: int,
    stack: Seq<Known>,
)
    requires
        0 <= pc,
        pc + 9 <= length,
        code[pc] == 0x01,
        stack.len() < limit,
    ensures
        step(code, length, cache, limit, pc, stack) == Ok::<(int, Seq<Known>), EvalError>(
            (
                pc + 9,
                stack.push(
                    Some(const_value(spec_read_i32(code, pc + 1), spec_read_i32(code, pc + 5))),
                ),
            ),
        ),
{
    reveal(step);
}

/// An addition replaces the two topmost values by their sum.
proof fn lemma_add_step(
    code: Seq<u8>,
    length: int,
    cache: CacheView,
    limit: int,
    pc: int,
    stack: Seq<Known>,
)
    requires
        0 <= pc < length,
        code[pc] == 0x10,
        stack.len() >= 2,
        stack.len() - 2 < limit,
    ensures
        step(code, length, cache, limit, pc, stack) == Ok::<(int, Seq<Known>), EvalError>(
            (
                pc + 1,
                stack.take(stack.len() - 2).push(
                    known_binary(Op::Add, stack[stack.len() - 2], stack[stack.len() - 1]),
                ),
            ),
        ),
{
    reveal(step);
}

/// The bytes of the program that adds two constants.
proof fn lemma_sum_program_reads(a: i32, b: i32, c: i32, d: i32)
    ensures
        sum_program(a, b, c, d).len() == 19,
        sum_program(a, b, c, d)[0] == 0x01,
        sum_program(a, b, c, d)[9] == 0x01,
        sum_program(a, b, c, d)[18] == 0x10,
        spec_read_i32(sum_program(a, b, c, d), 1) == a,
        spec_read_i32(sum_program(a, b, c, d), 5) == b,
        spec_read_i32(sum_program(a, b, c, d), 10) == c,
        spec_read_i32(sum_program(a, b, c, d), 14) == d,
{
    let code = sum_program(a, b, c, d);
    let first = seq![Op::LoadConst.spec_byte()];
    assert(code.len() == 19);
    assert(code[0] == 0x01 && code[9] == 0x01 && code[18] == 0x10);
    assert(spec_read_i32(code, 1) == a) by {
        lemma_i32_round_trip(first, a);
        assert(code.subrange(0, 5) =~= first + spec_i32_bytes(a));
        assert(spec_read_i32(code, 1) == spec_read_i32(first + spec_i32_bytes(a), 1));
    }
    assert(spec_read_i32(code, 5) == b) by {
        let prefix = first + spec_i32_bytes(a);
        lemma_i32_round_trip(prefix, b);
        assert(code.subrange(0, 9) =~= prefix + spec_i32_bytes(b));
        assert(spec_read_i32(code, 5) == spec_read_i32(prefix + spec_i32_bytes(b), 5));
    }
    assert(spec_read_i32(code, 10) == c) by {
        let prefix = first + spec_i32_bytes(a) + spec_i32_bytes(b) + first;
        lemma_i32_round_trip(prefix, c);
        assert(code.subrange(0, 14) =~= prefix + spec_i32_bytes(c));
        assert(spec_read_i32(code, 10) == spec_read_i32(prefix + spec_i32_bytes(c), 10));
    }
    assert(spec_read_i32(code, 14) == d) by {
        let prefix = first + spec_i32_bytes(a) + spec_i32_bytes(b) + first + spec_i32_bytes(c);
        lemma_i32_round_trip(prefix, d);
        assert(code.subrange(0, 18) =~= prefix + spec_i32_bytes(d));
        assert(spec_read_i32(code, 14) == spec_read_i32(prefix + spec_i32_bytes(d), 14));
    }
}

/// The program that loads a variable of a note.
pub open spec fn reference_program(id: u16, var: Var) -> Seq<u8> {
    seq![Op::LoadRef.spec_byte()] + spec_u16_bytes(id) + seq![var.spec_index()]
}

/// A reference to a variable that the note has no value for gives the base
/// note's value where the variable is tempo, beats per measure or measure
/// length, and the variable's default otherwise.
pub proof fn lemma_reference_inherits(cache: CacheView, id: u32, var: Var)
    requires
        lookup(cache, id, var) is None,
    ensures
        is_inherited(var) ==> load_ref(cache, id, var) == load_base(cache, var),
        !is_inherited(var) ==> load_ref(cache, id, var) == Some(default_value(var)),
        load_ref(cache, id, Var::Frequency) == (match lookup(cache, id, Var::Frequency) {
            Some(k) => k,
            None => Some(ValueView::Rational(Rat::from_int(440))),
        }),
{
}

/// The program `LOAD_REF id var` evaluates to the value of the variable of
/// the note, inherited or defaulted where the note has none.
pub proof fn lemma_reference_program(id: u16, var: Var, cache: CacheView, limit: int)
    requires
        limit >= 1,
    ensures
        spec_evaluate(reference_program(id, var), 4, cache, limit) == Ok::<Known, EvalError>(
            load_ref(cache, id as u32, var),
        ),
{
    reveal(step);
    let code = reference_program(id, var);
    let first = seq![Op::LoadRef.spec_byte()];
    assert(code.len() == 4);
    assert(code[0] == 0x02);
    assert(code[3] == var.spec_index());
    assert(spec_read_u16(code, 1) == id) by {
        lemma_u16_round_trip(first, id);
        assert(code.subrange(0, 3) =~= first + spec_u16_bytes(id));
        assert(spec_read_u16(code, 1) == spec_read_u16(first + spec_u16_bytes(id), 1));
    }
    let empty = Seq::<Known>::empty();
    let value = load_ref(cache, id as u32, var);
    lemma_run_unfolds(code, 4, cache, limit, 0, empty);
    assert(step(code, 4, cache, limit, 0, empty) == Ok::<(int, Seq<Known>), EvalError>(
        (4, empty.push(value)),
    ));
    lemma_run_unfolds(code, 4, cache, limit, 4, empty.push(value));
}

/// Whether the actual stack holds, in every position, the value that the
/// model knows for it.
pub open spec fn stack_matches<A>(actual: Seq<Value<A>>, model: Seq<Known>) -> bool {
    &&& actual.len() == model.len()
    &&& forall|i: int|
        0 <= i < model.len() ==> ((#[trigger] model[i]) is Some ==> model[i] == Some(actual[i]@))
}

/// Whether an actual result is the modelled one: the same error, or a value
/// that is the modelled value where that is known.
pub open spec fn result_matches<A>(
    actual: Result<Value<A>, EvalError>,
    model: Result<Known, EvalError>,
) -> bool {
    match (actual, model) {
        (Ok(v), Ok(k)) => k is Some ==> k == Some(v@),
        (Err(e), Err(m)) => e == m,
        _ => false,
    }
}

/// The default of a variable.
pub fn default_of<A: Approx>(var: Var) -> (r: Value<A>)
    ensures
        r@ == default_value(var),
{
    Value::Rational(
        match var {
            Var::StartTime => Fraction::from_int(0),
            Var::Duration => Fraction::from_int(1),
            Var::Frequency => Fraction::from_int(440),
            Var::Tempo => Fraction::from_int(60),
            Var::BeatsPerMeasure => Fraction::from_int(4),
            Var::MeasureLength => Fraction::from_int(4),
        },
    )
}

/// The cached value of a variable of a note, if there is one.
pub fn cached_value<A: Approx>(cache: &HashMap<u32, EvaluatedNote<A>>, id: u32, var: Var) -> (r:
    Option<Value<A>>)
    ensures
        match r {
            Some(v) => lookup(cache_view(cache@), id, var) == Some(Some(v@)),
            None => lookup(cache_view(cache@), id, var) is None,
        },
{
    match cache.get(&id) {
        Some(note) => match note.get_var(var) {
            Some(v) => Some(v.clone()),
            None => None,
        },
        None => None,
    }
}

/// The value of a variable of the base note: the cached one, else the
/// default.
pub fn base_value<A: Approx>(cache: &HashMap<u32, EvaluatedNote<A>>, var: Var) -> (r: Value<A>)
    ensures
        load_base(cache_view(cache@), var) == Some(r@),
{
    match cached_value(cache, 0, var) {
        Some(v) => v,
        None => default_of(var),
    }
}

/// The value of a variable of a note: the cached one; else, for tempo,
/// beats per measure and measure length, that of the base note; else the
/// default.
pub fn referenced_value<A: Approx>(cache: &HashMap<u32, EvaluatedNote<A>>, id: u32, var: Var) -> (r:
    Value<A>)
    ensures
        load_ref(cache_view(cache@), id, var) == Some(r@),
{
    match cached_value(cache, id, var) {
        Some(v) => v,
        None => {
            let inherited = match var {
                Var::Tempo => true,
                Var::BeatsPerMeasure => true,
                Var::MeasureLength => true,
                _ => false,
            };
            if inherited {
                base_value(cache, var)
            } else {
                default_of(var)
            }
        },
    }
}

/// The length of a measure at a note: beats per measure times sixty, divided
/// by the tempo.
pub fn measure_length_at<A: Approx>(cache: &HashMap<u32, EvaluatedNote<A>>, id: u32) -> (r: Value<
    A,
>)
    ensures
        measure_of(cache_view(cache@), id) matches Some(v) ==> r@ == v,
{
    let beats = referenced_value(cache, id, Var::BeatsPerMeasure);
    let tempo = referenced_value(cache, id, Var::Tempo);
    let sixty: Value<A> = Value::Rational(Fraction::from_int(60));
    beats.mul(&sixty).div(&tempo)
}

/// Pushes a value unless the stack has reached its limit.
fn push<A: Approx>(stack: &mut Vec<Value<A>>, limit: usize, value: Value<A>) -> (r: Result<
    (),
    EvalError,
>)
    ensures
        match r {
            Ok(_) => old(stack)@.len() < limit && final(stack)@ == old(stack)@.push(value),
            Err(e) => old(stack)@.len() >= limit && e == EvalError::StackOverflow && final(stack)@
                == old(stack)@,
        },
{
    if stack.len() >= limit {
        return Err(EvalError::StackOverflow);
    }
    stack.push(value);
    Ok(())
}

/// Pops the top of the stack.
fn pop<A: Approx>(stack: &mut Vec<Value<A>>) -> (r: Result<Value<A>, EvalError>)
    ensures
        match r {
            Ok(v) => old(stack)@.len() > 0 && v == old(stack)@.last() && final(stack)@ == old(
                stack,
            )@.drop_last(),
            Err(e) => old(stack)@.len() == 0 && e == EvalError::StackUnderflow && final(stack)@
                == old(stack)@,
        },
{
    match stack.pop() {
        Some(v) => Ok(v),
        None => Err(EvalError::StackUnderflow),
    }
}

/// The outcome of an executed instruction.
type Executed = Result<(usize, Ghost<Seq<Known>>), EvalError>;

/// Whether an executed instruction did what the model says: the same error,
/// or the same next program counter, ahead of `pc`, with a stack that holds
/// what the model knows.
pub open spec fn executed_matches<A>(
    r: Executed,
    stack: Seq<Value<A>>,
    model: StepOutcome,
    pc: usize,
) -> bool {
    match (r, model) {
        (Ok((next, after)), Ok((n, m))) => next == n && after@ == m && stack_matches(stack, m)
            && next > pc,
        (Err(e), Err(m)) => e == m,
        _ => false,
    }
}

/// Pushes a value and goes on at `next`.
fn push_step<A: Approx>(
    stack: &mut Vec<Value<A>>,
    limit: usize,
    value: Value<A>,
    next: usize,
    pc: usize,
    Ghost(model): Ghost<Seq<Known>>,
    Ghost(known): Ghost<Known>,
) -> (r: Executed)
    requires
        stack_matches(old(stack)@, model),
        known is Some ==> known == Some(value@),
        next > pc,
    ensures
        executed_matches(r, final(stack)@, push_and_go(model, known, limit as int, next as int), pc),
{
    match push(stack, limit, value) {
        Ok(_) => Ok((next, Ghost(model.push(known)))),
        Err(e) => Err(e),
    }
}

/// Runs `LOAD_CONST` at `pc`.
fn exec_load_const<A: Approx>(
    stack: &mut Vec<Value<A>>,
    limit: usize,
    bytecode: &[u8],
    length: usize,
    pc: usize,
    Ghost(model): Ghost<Seq<Known>>,
) -> (r: Executed)
    requires
        pc < length <= bytecode@.len(),
        stack_matches(old(stack)@, model),
    ensures
        executed_matches(
            r,
            final(stack)@,
            step_load_const(bytecode@, length as int, limit as int, pc as int, model),
            pc,
        ),
{
    if length - pc < 9 {
        return Err(EvalError::TruncatedConst);
    }
    let num = read_i32(bytecode, pc + 1);
    let den = read_i32(bytecode, pc + 5);
    let value: Value<A> = Value::rational(num, den);
    let ghost known: Known = Some(value@);
    push_step(stack, limit, value, pc + 9, pc, Ghost(model), Ghost(known))
}

/// Runs `LOAD_CONST_BIG` at `pc`.
fn exec_load_big<A: Approx>(
    stack: &mut Vec<Value<A>>,
    limit: usize,
    bytecode: &[u8],
    length: usize,
    pc: usize,
    Ghost(model): Ghost<Seq<Known>>,
) -> (r: Executed)
    requires
        pc < length <= bytecode@.len(),
        stack_matches(old(stack)@, model),
    ensures
        executed_matches(
            r,
            final(stack)@,
            step_load_big(bytecode@, limit as int, pc as int, model),
            pc,
        ),
{
    let total = bytecode.len();
    let (num, used) = match read_big_int_signed(bytecode, pc + 1) {
        Ok(pair) => pair,
        Err(e) => {
            return Err(EvalError::BigNumerator(e));
        },
    };
    assert(pc + 1 + used <= total);
    let (den, used2) = match read_big_int_unsigned(bytecode, pc + 1 + used) {
        Ok(pair) => pair,
        Err(e) => {
            return Err(EvalError::BigDenominator(e));
        },
    };
    assert(pc + 1 + used + used2 <= total);
    let value: Value<A> = Value::Rational(Fraction::from_big_ints(num, den));
    let ghost known: Known = Some(value@);
    push_step(stack, limit, value, pc + 1 + used + used2, pc, Ghost(model), Ghost(known))
}

/// Runs `LOAD_REF` at `pc`.
fn exec_load_ref<A: Approx>(
    stack: &mut Vec<Value<A>>,
    limit: usize,
    bytecode: &[u8],
    length: usize,
    cache: &HashMap<u32, EvaluatedNote<A>>,
    pc: usize,
    Ghost(model): Ghost<Seq<Known>>,
) -> (r: Executed)
    requires
        pc < length <= bytecode@.len(),
        stack_matches(old(stack)@, model),
    ensures
        executed_matches(
            r,
            final(stack)@,
            step_load_ref(
                bytecode@,
                length as int,
                cache_view(cache@),
                limit as int,
                pc as int,
                model,
            ),
            pc,
        ),
{
    if length - pc < 4 {
        return Err(EvalError::TruncatedRef);
    }
    let note_id = read_u16(bytecode, pc + 1) as u32;
    let var_idx = bytecode[pc + 3];
    let var = match Var::from_byte(var_idx) {
        Some(v) => v,
        None => {
            return Err(EvalError::InvalidVariable(var_idx));
        },
    };
    let value = referenced_value(cache, note_id, var);
    let ghost known: Known = Some(value@);
    push_step(stack, limit, value, pc + 4, pc, Ghost(model), Ghost(known))
}

/// Runs `LOAD_BASE` at `pc`.
fn exec_load_base<A: Approx>(
    stack: &mut Vec<Value<A>>,
    limit: usize,
    bytecode: &[u8],
    length: usize,
    cache: &HashMap<u32, EvaluatedNote<A>>,
    pc: usize,
    Ghost(model): Ghost<Seq<Known>>,
) -> (r: Executed)
    requires
        pc < length <= bytecode@.len(),
        stack_matches(old(stack)@, model),
    ensures
        executed_matches(
            r,
            final(stack)@,
            step_load_base(
                bytecode@,
                length as int,
                cache_view(cache@),
                limit as int,
                pc as int,
                model,
            ),
            pc,
        ),
{
    if length - pc < 2 {
        return Err(EvalError::TruncatedBase);
    }
    let var_idx = bytecode[pc + 1];
    let var = match Var::from_byte(var_idx) {
        Some(v) => v,
        None => {
            return Err(EvalError::InvalidVariable(var_idx));
        },
    };
    let value = base_value(cache, var);
    let ghost known: Known = Some(value@);
    push_step(stack, limit, value, pc + 2, pc, Ghost(model), Ghost(known))
}

/// Runs `ADD`, `SUB`, `MUL`, `DIV` or `POW` at `pc`.
fn exec_binary<A: Approx>(
    stack: &mut Vec<Value<A>>,
    limit: usize,
    op: Op,
    pc: usize,
    Ghost(model): Ghost<Seq<Known>>,
) -> (r: Executed)
    requires
        pc < usize::MAX,
        stack_matches(old(stack)@, model),
        op == Op::Add || op == Op::Sub || op == Op::Mul || op == Op::Div || op == Op::Pow,
    ensures
        executed_matches(r, final(stack)@, step_binary(op, limit as int, pc as int, model), pc),
{
    let ghost n = model.len() as int;
    let b = pop(stack)?;
    let a = pop(stack)?;
    let value = match op {
        Op::Add => a.add(&b),
        Op::Sub => a.sub(&b),
        Op::Mul => a.mul(&b),
        Op::Div => a.div(&b),
        _ => a.pow(&b),
    };
    let ghost known = known_binary(op, model[n - 2], model[n - 1]);
    let ghost rest = model.take(n - 2);
    assert(stack@ =~= old(stack)@.take(n - 2));
    assert(stack_matches(stack@, rest));
    push_step(stack, limit, value, pc + 1, pc, Ghost(rest), Ghost(known))
}

/// Runs `NEG` at `pc`.
fn exec_neg<A: Approx>(
    stack: &mut Vec<Value<A>>,
    limit: usize,
    pc: usize,
    Ghost(model): Ghost<Seq<Known>>,
) -> (r: Executed)
    requires
        pc < usize::MAX,
        stack_matches(old(stack)@, model),
    ensures
        executed_matches(
            r,
            final(stack)@,
            step_replace_top(
                if model.len() > 0 {
                    known_neg(model.last())
                } else {
                    None
                },
                limit as int,
                pc as int,
                model,
            ),
            pc,
        ),
{
    let a = pop(stack)?;
    let value = a.neg();
    let ghost known = known_neg(model.last());
    assert(stack_matches(stack@, model.drop_last()));
    push_step(stack, limit, value, pc + 1, pc, Ghost(model.drop_last()), Ghost(known))
}

/// Runs `FIND_TEMPO` at `pc`: the reference is dropped, the tempo of the
/// base note pushed.
fn exec_find_tempo<A: Approx>(
    stack: &mut Vec<Value<A>>,
    limit: usize,
    cache: &HashMap<u32, EvaluatedNote<A>>,
    pc: usize,
    Ghost(model): Ghost<Seq<Known>>,
) -> (r: Executed)
    requires
        pc < usize::MAX,
        stack_matches(old(stack)@, model),
    ensures
        executed_matches(
            r,
            final(stack)@,
            step_replace_top(
                load_base(cache_view(cache@), Var::Tempo),
                limit as int,
                pc as int,
                model,
            ),
            pc,
        ),
{
    let _ = pop(stack)?;
    let value = base_value(cache, Var::Tempo);
    let ghost known: Known = Some(value@);
    assert(stack_matches(stack@, model.drop_last()));
    push_step(stack, limit, value, pc + 1, pc, Ghost(model.drop_last()), Ghost(known))
}

/// Runs `FIND_MEASURE` at `pc`.
fn exec_find_measure<A: Approx>(
    stack: &mut Vec<Value<A>>,
    limit: usize,
    cache: &HashMap<u32, EvaluatedNote<A>>,
    pc: usize,
    Ghost(model): Ghost<Seq<Known>>,
) -> (r: Executed)
    requires
        pc < usize::MAX,
        stack_matches(old(stack)@, model),
    ensures
        executed_matches(
            r,
            final(stack)@,
            step_replace_top(
                if model.len() > 0 {
                    find_measure(cache_view(cache@), model.last())
                } else {
                    None
                },
                limit as int,
                pc as int,
                model,
            ),
            pc,
        ),
{
    let note_ref = pop(stack)?;
    let note_id = match &note_ref {
        Value::Rational(f) => f.round_to_u32(),
        _ => note_ref.to_approx().round_to_u32(),
    };
    let value = measure_length_at(cache, note_id);
    let ghost known = find_measure(cache_view(cache@), model.last());
    assert(stack_matches(stack@, model.drop_last()));
    push_step(stack, limit, value, pc + 1, pc, Ghost(model.drop_last()), Ghost(known))
}

/// Runs `FIND_INSTRUMENT` at `pc`: the reference is dropped, zero pushed.
fn exec_find_instrument<A: Approx>(
    stack: &mut Vec<Value<A>>,
    limit: usize,
    pc: usize,
    Ghost(model): Ghost<Seq<Known>>,
) -> (r: Executed)
    requires
        pc < usize::MAX,
        stack_matches(old(stack)@, model),
    ensures
        executed_matches(
            r,
            final(stack)@,
            step_replace_top(
                Some(ValueView::Rational(Rat::zero())),
                limit as int,
                pc as int,
                model,
            ),
            pc,
        ),
{
    let _ = pop(stack)?;
    let value: Value<A> = Value::Rational(Fraction::zero());
    let ghost known: Known = Some(value@);
    assert(stack_matches(stack@, model.drop_last()));
    push_step(stack, limit, value, pc + 1, pc, Ghost(model.drop_last()), Ghost(known))
}

/// Runs `DUP` at `pc`.
fn exec_dup<A: Approx>(
    stack: &mut Vec<Value<A>>,
    limit: usize,
    pc: usize,
    Ghost(model): Ghost<Seq<Known>>,
) -> (r: Executed)
    requires
        pc < usize::MAX,
        stack_matches(old(stack)@, model),
    ensures
        executed_matches(r, final(stack)@, step_dup(limit as int, pc as int, model), pc),
{
    if stack.len() == 0 {
        return Err(EvalError::StackEmpty);
    }
    let top = stack[stack.len() - 1].clone();
    let ghost known = model.last();
    push_step(stack, limit, top, pc + 1, pc, Ghost(model), Ghost(known))
}

/// Runs `SWAP` at `pc`.
fn exec_swap<A: Approx>(
    stack: &mut Vec<Value<A>>,
    limit: usize,
    pc: usize,
    Ghost(model): Ghost<Seq<Known>>,
) -> (r: Executed)
    requires
        pc < usize::MAX,
        stack_matches(old(stack)@, model),
    ensures
        executed_matches(r, final(stack)@, step_swap(limit as int, pc as int, model), pc),
{
    let ghost n = model.len() as int;
    let a = pop(stack)?;
    let b = pop(stack)?;
    let ghost rest = model.take(n - 2);
    assert(stack@ =~= old(stack)@.take(n - 2));
    assert(stack_matches(stack@, rest));
    match push(stack, limit, a) {
        Ok(_) => {},
        Err(e) => {
            return Err(e);
        },
    }
    assert(stack_matches(stack@, rest.push(model[n - 1])));
    push_step(stack, limit, b, pc + 1, pc, Ghost(rest.push(model[n - 1])), Ghost(model[n - 2]))
}

/// Runs the instruction at `pc`. Returns the next program counter.
fn execute<A: Approx>(
    stack: &mut Vec<Value<A>>,
    limit: usize,
    bytecode: &[u8],
    length: usize,
    cache: &HashMap<u32, EvaluatedNote<A>>,
    pc: usize,
    Ghost(model): Ghost<Seq<Known>>,
) -> (r: Executed)
    requires
        pc < length <= bytecode@.len(),
        stack_matches(old(stack)@, model),
    ensures
        executed_matches(
            r,
            final(stack)@,
            step(bytecode@, length as int, cache_view(cache@), limit as int, pc as int, model),
            pc,
        ),
{
    reveal(step);
    let op_byte = bytecode[pc];
    let op = match Op::from_byte(op_byte) {
        Some(op) => op,
        None => {
            return Err(EvalError::UnknownOpcode { byte: op_byte, pc });
        },
    };
    match op {
        Op::LoadConst => exec_load_const(stack, limit, bytecode, length, pc, Ghost(model)),
        Op::LoadConstBig => exec_load_big(stack, limit, bytecode, length, pc, Ghost(model)),
        Op::LoadRef => exec_load_ref(stack, limit, bytecode, length, cache, pc, Ghost(model)),
        Op::LoadBase => exec_load_base(stack, limit, bytecode, length, cache, pc, Ghost(model)),
        Op::Add => exec_binary(stack, limit, op, pc, Ghost(model)),
        Op::Sub => exec_binary(stack, limit, op, pc, Ghost(model)),
        Op::Mul => exec_binary(stack, limit, op, pc, Ghost(model)),
        Op::Div => exec_binary(stack, limit, op, pc, Ghost(model)),
        Op::Pow => exec_binary(stack, limit, op, pc, Ghost(model)),
        Op::Neg => exec_neg(stack, limit, pc, Ghost(model)),
        Op::FindTempo => exec_find_tempo(stack, limit, cache, pc, Ghost(model)),
        Op::FindMeasure => exec_find_measure(stack, limit, cache, pc, Ghost(model)),
        Op::FindInstrument => exec_find_instrument(stack, limit, pc, Ghost(model)),
        Op::Dup => exec_dup(stack, limit, pc, Ghost(model)),
        Op::Swap => exec_swap(stack, limit, pc, Ghost(model)),
    }
}

/// Runs a program on an empty stack against a cache of evaluated notes.
/// Returns the value on top of the stack at the end, or zero where the
/// program is empty or leaves the stack empty.
pub fn run_program<A: Approx>(
    stack: &mut Vec<Value<A>>,
    limit: usize,
    bytecode: &[u8],
    length: usize,
    cache: &HashMap<u32, EvaluatedNote<A>>,
) -> (r: Result<Value<A>, EvalError>)
    ensures
        result_matches(
            r,
            spec_evaluate(bytecode@, length as int, cache_view(cache@), limit as int),
        ),
{
    if length == 0 {
        return Ok(Value::Rational(Fraction::zero()));
    }
    if length > bytecode.len() {
        return Err(EvalError::TruncatedProgram);
    }
    stack.clear();
    let mut pc: usize = 0;
    let ghost mut model: Seq<Known> = Seq::empty();
    let ghost views = cache_view(cache@);
    let ghost whole = run(bytecode@, length as int, views, limit as int, 0, Seq::empty());
    while pc < length
        invariant
            length <= bytecode@.len(),
            views == cache_view(cache@),
            stack_matches(stack@, model),
            length > 0,
            whole == run(bytecode@, length as int, views, limit as int, 0, Seq::empty()),
            run(bytecode@, length as int, views, limit as int, pc as int, model) == whole,
        decreases
                (if pc < length {
                    length - pc
                } else {
                    0
                }),
    {
        proof {
            lemma_run_unfolds(bytecode@, length as int, views, limit as int, pc as int, model);
        }
        match execute(stack, limit, bytecode, length, cache, pc, Ghost(model)) {
            Ok((next, after)) => {
                proof {
                    lemma_run_unfolds(
                        bytecode@,
                        length as int,
                        views,
                        limit as int,
                        next as int,
                        after@,
                    );
                    model = after@;
                }
                pc = next;
            },
            Err(e) => {
                return Err(e);
            },
        }
    }
    if stack.len() == 0 {
        return Ok(Value::Rational(Fraction::zero()));
    }
    match stack.pop() {
        Some(v) => Ok(v),
        None => Ok(Value::Rational(Fraction::zero())),
    }
}

} // verus!
