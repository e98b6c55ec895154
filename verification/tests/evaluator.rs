use num_traits::ToPrimitive;
use rmt_core::approx::Approx;
use rmt_core::bytecode::write_big_int_signed;
use rmt_core::bytecode::write_big_int_unsigned;
use rmt_core::bytecode::write_i32;
use rmt_core::bytecode::write_u16;
use rmt_core::bytecode::Op;
use rmt_core::bytecode::ReadError;
use rmt_core::bytecode::Var;
use rmt_core::evaluator::Evaluator;
use rmt_core::evaluator::NoteExpressions;
use rmt_core::fraction::Fraction;
use rmt_core::machine::EvalError;
use rmt_core::note::EvaluatedNote;
use rmt_core::note::FractionData;
use rmt_core::persistent::NoteBytecode;
use rmt_core::persistent::PersistentEvaluator;
use rmt_core::value::Value;
use std::collections::HashMap;

#[derive(Clone, Debug)]
struct Float(f64);

fn fraction_to_f64(f: &Fraction) -> f64 {
    f.as_big_rational().to_f64().unwrap_or(0.0)
}

impl Approx for Float {
    fn from_fraction(value: &Fraction) -> Self {
        Float(fraction_to_f64(value))
    }

    fn to_fraction(&self) -> Fraction {
        match num_rational::BigRational::from_float(self.0) {
            Some(r) => Fraction::from_decimal(&Fraction::from_big_rational(r)),
            None => Fraction::new(0, 1),
        }
    }

    fn duplicate(&self) -> Self {
        Float(self.0)
    }

    fn plus(&self, rhs: &Self) -> Self {
        Float(self.0 + rhs.0)
    }

    fn minus(&self, rhs: &Self) -> Self {
        Float(self.0 - rhs.0)
    }

    fn times(&self, rhs: &Self) -> Self {
        Float(self.0 * rhs.0)
    }

    fn over(&self, rhs: &Self) -> Self {
        Float(self.0 / rhs.0)
    }

    fn negated(&self) -> Self {
        Float(-self.0)
    }

    fn absolute(&self) -> Self {
        Float(self.0.abs())
    }

    fn power(&self, exponent: &Self) -> Self {
        Float(self.0.powf(exponent.0))
    }

    fn is_zero(&self) -> bool {
        self.0 == 0.0
    }

    fn sign(&self) -> i32 {
        if self.0 < 0.0 {
            -1
        } else if self.0 > 0.0 {
            1
        } else {
            0
        }
    }

    fn round_to_u32(&self) -> u32 {
        self.0.round() as u32
    }
}

type V = Value<Float>;
type Cache = HashMap<u32, EvaluatedNote<Float>>;

fn to_f64(v: &V) -> f64 {
    v.to_approx().0
}

fn exact(v: &V) -> String {
    match v {
        Value::Rational(f) => f.to_string_repr(),
        _ => panic!("expected an exact rational"),
    }
}

fn make_const_bytecode(num: i32, den: i32) -> Vec<u8> {
    let mut bytecode = Vec::new();
    bytecode.push(Op::LoadConst.to_byte());
    write_i32(&mut bytecode, num);
    write_i32(&mut bytecode, den);
    bytecode
}

fn load_const(bytecode: &mut Vec<u8>, num: i32, den: i32) {
    bytecode.push(Op::LoadConst.to_byte());
    write_i32(bytecode, num);
    write_i32(bytecode, den);
}

fn load_ref(bytecode: &mut Vec<u8>, note: u16, var: Var) {
    bytecode.push(Op::LoadRef.to_byte());
    write_u16(bytecode, note);
    bytecode.push(var.index());
}

fn load_base(bytecode: &mut Vec<u8>, var: Var) {
    bytecode.push(Op::LoadBase.to_byte());
    bytecode.push(var.index());
}

fn run(bytecode: &[u8], cache: &Cache) -> Result<V, EvalError> {
    let mut evaluator: Evaluator<Float> = Evaluator::new();
    evaluator.evaluate(bytecode, bytecode.len(), cache)
}

fn note_with(var: Var, num: i32, den: i32) -> EvaluatedNote<Float> {
    let mut note = EvaluatedNote::default();
    note.set_var(var, Value::rational(num, den));
    note
}

#[test]
fn test_evaluate_constant() {
    let mut evaluator: Evaluator<Float> = Evaluator::new();
    let bytecode = make_const_bytecode(3, 4);
    let cache = HashMap::new();

    let result = evaluator.evaluate(&bytecode, bytecode.len(), &cache).unwrap();
    assert_eq!(to_f64(&result), 0.75);
    assert!(result.is_rational());
}

#[test]
fn test_evaluate_addition() {
    let mut evaluator: Evaluator<Float> = Evaluator::new();
    let mut bytecode = Vec::new();

    bytecode.push(Op::LoadConst.to_byte());
    write_i32(&mut bytecode, 1);
    write_i32(&mut bytecode, 2);

    bytecode.push(Op::LoadConst.to_byte());
    write_i32(&mut bytecode, 1);
    write_i32(&mut bytecode, 4);

    bytecode.push(Op::Add.to_byte());

    let cache = HashMap::new();
    let result = evaluator.evaluate(&bytecode, bytecode.len(), &cache).unwrap();
    assert_eq!(to_f64(&result), 0.75);
    assert!(result.is_rational());
}

#[test]
fn test_evaluate_with_cache() {
    let mut evaluator: Evaluator<Float> = Evaluator::new();
    let mut bytecode = Vec::new();

    bytecode.push(Op::LoadBase.to_byte());
    bytecode.push(Var::StartTime.index());

    bytecode.push(Op::LoadConst.to_byte());
    write_i32(&mut bytecode, 1);
    write_i32(&mut bytecode, 1);

    bytecode.push(Op::Add.to_byte());

    let mut cache = HashMap::new();
    let mut base_note = EvaluatedNote::default();
    let data: FractionData<Float> =
        FractionData { s: 1, n: 5, d: 1, f: None, corrupted: false, symbolic: None };
    base_note.start_time = Some(data.to_value());
    cache.insert(0, base_note);

    let result = evaluator.evaluate(&bytecode, bytecode.len(), &cache).unwrap();
    assert_eq!(to_f64(&result), 6.0);
    assert!(result.is_rational());
}

#[test]
fn test_evaluate_pow_rational() {
    let mut evaluator: Evaluator<Float> = Evaluator::new();
    let mut bytecode = Vec::new();

    bytecode.push(Op::LoadConst.to_byte());
    write_i32(&mut bytecode, 2);
    write_i32(&mut bytecode, 1);

    bytecode.push(Op::LoadConst.to_byte());
    write_i32(&mut bytecode, 3);
    write_i32(&mut bytecode, 1);

    bytecode.push(Op::Pow.to_byte());

    let cache = HashMap::new();
    let result = evaluator.evaluate(&bytecode, bytecode.len(), &cache).unwrap();
    assert_eq!(to_f64(&result), 8.0);
    assert!(result.is_rational());
}

#[test]
fn test_evaluate_pow_irrational_tet() {
    let mut evaluator: Evaluator<Float> = Evaluator::new();
    let mut bytecode = Vec::new();

    bytecode.push(Op::LoadConst.to_byte());
    write_i32(&mut bytecode, 2);
    write_i32(&mut bytecode, 1);

    bytecode.push(Op::LoadConst.to_byte());
    write_i32(&mut bytecode, 1);
    write_i32(&mut bytecode, 12);

    bytecode.push(Op::Pow.to_byte());

    let cache = HashMap::new();
    let result = evaluator.evaluate(&bytecode, bytecode.len(), &cache).unwrap();

    let expected = 2.0_f64.powf(1.0 / 12.0);
    assert!((to_f64(&result) - expected).abs() < 1e-10);
    assert!(result.is_corrupted());
}

#[test]
fn test_evaluate_pow_perfect_root() {
    let mut evaluator: Evaluator<Float> = Evaluator::new();
    let mut bytecode = Vec::new();

    bytecode.push(Op::LoadConst.to_byte());
    write_i32(&mut bytecode, 4);
    write_i32(&mut bytecode, 1);

    bytecode.push(Op::LoadConst.to_byte());
    write_i32(&mut bytecode, 1);
    write_i32(&mut bytecode, 2);

    bytecode.push(Op::Pow.to_byte());

    let cache = HashMap::new();
    let result = evaluator.evaluate(&bytecode, bytecode.len(), &cache).unwrap();
    assert_eq!(to_f64(&result), 2.0);
    assert!(result.is_rational());
}

#[test]
fn sum_of_two_constants_is_exact() {
    for (a, b, c, d, expected) in [
        (1, 2, 1, 4, "3/4"),
        (1, 3, 1, 6, "1/2"),
        (-7, 5, 7, 5, "0"),
        (i32::MAX, 1, 1, 1, "2147483648"),
        (1, 0, 5, 3, "5/3"),
    ] {
        let mut bytecode = Vec::new();
        load_const(&mut bytecode, a, b);
        load_const(&mut bytecode, c, d);
        bytecode.push(Op::Add.to_byte());
        assert_eq!(bytecode.len(), 19);
        assert_eq!(exact(&run(&bytecode, &Cache::new()).unwrap()), expected);
    }
}

#[test]
fn every_arithmetic_operation() {
    for (op, expected) in [
        (Op::Add, "13/12"),
        (Op::Sub, "5/12"),
        (Op::Mul, "1/4"),
        (Op::Div, "9/4"),
    ] {
        let mut bytecode = Vec::new();
        load_const(&mut bytecode, 3, 4);
        load_const(&mut bytecode, 1, 3);
        bytecode.push(op.to_byte());
        assert_eq!(exact(&run(&bytecode, &Cache::new()).unwrap()), expected);
    }
    let mut bytecode = Vec::new();
    load_const(&mut bytecode, 3, 4);
    bytecode.push(Op::Neg.to_byte());
    assert_eq!(exact(&run(&bytecode, &Cache::new()).unwrap()), "-3/4");

    let mut bytecode = Vec::new();
    load_const(&mut bytecode, 3, 4);
    bytecode.push(Op::Dup.to_byte());
    bytecode.push(Op::Mul.to_byte());
    assert_eq!(exact(&run(&bytecode, &Cache::new()).unwrap()), "9/16");

    let mut bytecode = Vec::new();
    load_const(&mut bytecode, 3, 1);
    load_const(&mut bytecode, 4, 1);
    bytecode.push(Op::Swap.to_byte());
    bytecode.push(Op::Sub.to_byte());
    assert_eq!(exact(&run(&bytecode, &Cache::new()).unwrap()), "1");

    let mut bytecode = Vec::new();
    load_const(&mut bytecode, 3, 1);
    bytecode.push(Op::FindInstrument.to_byte());
    assert_eq!(exact(&run(&bytecode, &Cache::new()).unwrap()), "0");
}

#[test]
fn big_constants() {
    let huge: num_bigint::BigInt = num_bigint::BigInt::from(3) << 100usize;
    let mut bytecode = vec![Op::LoadConstBig.to_byte()];
    assert!(write_big_int_signed(&mut bytecode, &-huge.clone()));
    assert!(write_big_int_unsigned(&mut bytecode, &(num_bigint::BigInt::from(9) << 98usize)));
    assert_eq!(exact(&run(&bytecode, &Cache::new()).unwrap()), "-4/3");

    let mut zero_den = vec![Op::LoadConstBig.to_byte()];
    assert!(write_big_int_signed(&mut zero_den, &huge));
    assert!(write_big_int_unsigned(&mut zero_den, &num_bigint::BigInt::from(0)));
    assert_eq!(exact(&run(&zero_den, &Cache::new()).unwrap()), "0");

    assert_eq!(
        run(&[0x04], &Cache::new()).unwrap_err(),
        EvalError::BigNumerator(ReadError::MissingSign)
    );
    assert_eq!(
        run(&[0x04, 0, 0, 1], &Cache::new()).unwrap_err(),
        EvalError::BigNumerator(ReadError::MissingBytes)
    );
    assert_eq!(
        run(&[0x04, 0, 0, 1, 7], &Cache::new()).unwrap_err(),
        EvalError::BigDenominator(ReadError::MissingLength)
    );
    assert_eq!(
        run(&[0x04, 0, 0, 1, 7, 0, 2, 1], &Cache::new()).unwrap_err(),
        EvalError::BigDenominator(ReadError::MissingBytes)
    );
}

#[test]
fn references_inherit_from_the_base_note() {
    let mut cache = Cache::new();
    cache.insert(0, note_with(Var::Tempo, 90, 1));
    cache.insert(7, note_with(Var::StartTime, 3, 2));

    let mut tempo = Vec::new();
    load_ref(&mut tempo, 7, Var::Tempo);
    assert_eq!(exact(&run(&tempo, &cache).unwrap()), "90");

    let mut frequency = Vec::new();
    load_ref(&mut frequency, 7, Var::Frequency);
    assert_eq!(exact(&run(&frequency, &cache).unwrap()), "440");

    let mut start = Vec::new();
    load_ref(&mut start, 7, Var::StartTime);
    assert_eq!(exact(&run(&start, &cache).unwrap()), "3/2");

    let mut absent = Vec::new();
    load_ref(&mut absent, 8, Var::Tempo);
    assert_eq!(exact(&run(&absent, &cache).unwrap()), "90");

    for (var, expected) in [
        (Var::StartTime, "0"),
        (Var::Duration, "1"),
        (Var::Frequency, "440"),
        (Var::Tempo, "60"),
        (Var::BeatsPerMeasure, "4"),
        (Var::MeasureLength, "4"),
    ] {
        let mut by_ref = Vec::new();
        load_ref(&mut by_ref, 9, var);
        assert_eq!(exact(&run(&by_ref, &Cache::new()).unwrap()), expected);
        let mut by_base = Vec::new();
        load_base(&mut by_base, var);
        assert_eq!(exact(&run(&by_base, &Cache::new()).unwrap()), expected);
    }

    let mut own = Cache::new();
    own.insert(0, note_with(Var::Tempo, 90, 1));
    own.insert(7, note_with(Var::Tempo, 120, 1));
    assert_eq!(exact(&run(&tempo, &own).unwrap()), "120");
}

#[test]
fn lookups() {
    let mut cache = Cache::new();
    let mut base = note_with(Var::Tempo, 120, 1);
    base.set_var(Var::BeatsPerMeasure, Value::rational(3, 1));
    cache.insert(0, base);
    cache.insert(5, note_with(Var::BeatsPerMeasure, 7, 1));
    cache.insert(6, note_with(Var::Tempo, 30, 1));

    let mut tempo = Vec::new();
    load_const(&mut tempo, 5, 1);
    tempo.push(Op::FindTempo.to_byte());
    assert_eq!(exact(&run(&tempo, &cache).unwrap()), "120");
    assert_eq!(exact(&run(&tempo, &Cache::new()).unwrap()), "60");

    for (reference, expected) in [((5, 1), "7/2"), ((6, 1), "6"), ((0, 1), "3/2"), ((9, 1), "3/2"), ((11, 2), "6")] {
        let mut measure = Vec::new();
        load_const(&mut measure, reference.0, reference.1);
        measure.push(Op::FindMeasure.to_byte());
        assert_eq!(exact(&run(&measure, &cache).unwrap()), expected);
    }
    let mut measure = Vec::new();
    load_const(&mut measure, 1, 1);
    measure.push(Op::FindMeasure.to_byte());
    assert_eq!(exact(&run(&measure, &Cache::new()).unwrap()), "4");
}

#[test]
fn empty_programs_and_empty_stacks() {
    let cache = Cache::new();
    assert_eq!(exact(&run(&[], &cache).unwrap()), "0");
    let mut evaluator: Evaluator<Float> = Evaluator::new();
    let bytecode = make_const_bytecode(3, 4);
    assert_eq!(exact(&evaluator.evaluate(&bytecode, 0, &cache).unwrap()), "0");
    assert_eq!(exact(&evaluator.evaluate(&bytecode, 9, &cache).unwrap()), "3/4");
    assert_eq!(evaluator.stack_size(), 0);
    assert_eq!(
        evaluator.evaluate(&bytecode, 10, &cache).unwrap_err(),
        EvalError::TruncatedProgram
    );
    let mut two = make_const_bytecode(3, 4);
    two.extend(make_const_bytecode(5, 6));
    assert_eq!(exact(&evaluator.evaluate(&two, two.len(), &cache).unwrap()), "5/6");
    assert_eq!(evaluator.stack_size(), 1);
    assert_eq!(evaluator.evaluate_as_fraction(&two, 9, &cache).unwrap().to_string_repr(), "3/4");
}

#[test]
fn malformed_programs() {
    let cache = Cache::new();
    assert_eq!(run(&[0xff], &cache).unwrap_err(), EvalError::UnknownOpcode { byte: 0xff, pc: 0 });
    let mut late = make_const_bytecode(1, 1);
    late.push(0x05);
    assert_eq!(run(&late, &cache).unwrap_err(), EvalError::UnknownOpcode { byte: 0x05, pc: 9 });
    assert_eq!(run(&[0x01, 0, 0, 0, 1, 0, 0, 0], &cache).unwrap_err(), EvalError::TruncatedConst);
    assert_eq!(run(&[0x02, 0, 1], &cache).unwrap_err(), EvalError::TruncatedRef);
    assert_eq!(run(&[0x03], &cache).unwrap_err(), EvalError::TruncatedBase);
    assert_eq!(run(&[0x02, 0, 1, 6], &cache).unwrap_err(), EvalError::InvalidVariable(6));
    assert_eq!(run(&[0x03, 200], &cache).unwrap_err(), EvalError::InvalidVariable(200));
    for op in [Op::Add, Op::Sub, Op::Mul, Op::Div, Op::Pow, Op::Neg, Op::FindTempo, Op::FindMeasure, Op::FindInstrument, Op::Swap] {
        assert_eq!(run(&[op.to_byte()], &cache).unwrap_err(), EvalError::StackUnderflow);
    }
    for op in [Op::Add, Op::Sub, Op::Mul, Op::Div, Op::Pow, Op::Swap] {
        let mut one = make_const_bytecode(1, 1);
        one.push(op.to_byte());
        assert_eq!(run(&one, &cache).unwrap_err(), EvalError::StackUnderflow);
    }
    assert_eq!(run(&[Op::Dup.to_byte()], &cache).unwrap_err(), EvalError::StackEmpty);

    let mut deep = make_const_bytecode(1, 1);
    for _ in 0..1023 {
        deep.push(Op::Dup.to_byte());
    }
    assert_eq!(exact(&run(&deep, &cache).unwrap()), "1");
    deep.push(Op::Dup.to_byte());
    assert_eq!(run(&deep, &cache).unwrap_err(), EvalError::StackOverflow);
}

fn expression(bytecode: Vec<u8>) -> Option<(Vec<u8>, usize)> {
    let length = bytecode.len();
    Some((bytecode, length))
}

#[test]
fn whole_notes_in_phases() {
    let mut evaluator: Evaluator<Float> = Evaluator::new();
    let mut expressions = NoteExpressions::default();
    expressions.tempo = expression(make_const_bytecode(120, 1));
    expressions.beats_per_measure = expression(make_const_bytecode(3, 1));
    let mut measure = Vec::new();
    load_base(&mut measure, Var::BeatsPerMeasure);
    load_const(&mut measure, 60, 1);
    measure.push(Op::Mul.to_byte());
    load_base(&mut measure, Var::Tempo);
    measure.push(Op::Div.to_byte());
    expressions.measure_length = expression(measure);
    let mut start = Vec::new();
    load_base(&mut start, Var::MeasureLength);
    load_const(&mut start, 2, 1);
    start.push(Op::Mul.to_byte());
    expressions.start_time = expression(start);
    expressions.duration = expression(vec![0xff]);
    let mut frequency = Vec::new();
    load_const(&mut frequency, 2, 1);
    load_const(&mut frequency, 1, 12);
    frequency.push(Op::Pow.to_byte());
    expressions.frequency = expression(frequency);

    let note = evaluator.evaluate_note(&expressions, &Cache::new());
    assert_eq!(exact(note.get_var(Var::Tempo).unwrap()), "120");
    assert_eq!(exact(note.get_var(Var::BeatsPerMeasure).unwrap()), "3");
    assert_eq!(exact(note.get_var(Var::MeasureLength).unwrap()), "3/2");
    assert_eq!(exact(note.get_var(Var::StartTime).unwrap()), "3");
    assert!(note.get_var(Var::Duration).is_none());
    assert!(note.get_var(Var::Frequency).unwrap().is_symbolic());
    assert_eq!(note.corruption_flags, 0x04);
}

#[test]
fn records_of_values() {
    let exact_record: FractionData<Float> = FractionData::from_value(&Value::rational(-6, 8));
    assert_eq!((exact_record.s, exact_record.n, exact_record.d), (-1, 3, 4));
    assert!(!exact_record.corrupted);
    assert!(exact_record.f.is_none());
    assert_eq!(exact_record.to_fraction().to_string_repr(), "-3/4");
    assert_eq!(exact(&exact_record.to_value()), "-3/4");
    assert_eq!(exact_record.to_approx().0, -0.75);

    let large = Fraction::new_raw(5_000_000_000, 3);
    let large_record: FractionData<Float> = FractionData::from_fraction(&large);
    assert!(large_record.corrupted);
    assert_eq!(large_record.d, 1_000_000);
    assert_eq!(large_record.s, 1);
    assert!((large_record.f.as_ref().unwrap().0 - 5_000_000_000.0 / 3.0).abs() < 1e-3);
    let edge: FractionData<Float> = FractionData::from_fraction(&Fraction::new_raw(4294967295, 1));
    assert!(!edge.corrupted);
    assert_eq!(edge.n, u32::MAX);

    let approximate: FractionData<Float> = FractionData::from_value(&Value::irrational(Float(-1.25)));
    assert!(approximate.corrupted);
    assert_eq!((approximate.s, approximate.n, approximate.d), (-1, 1_250_000, 1_000_000));
    assert_eq!(approximate.to_approx().0, -1.25);
    assert!(matches!(approximate.to_value(), Value::Irrational(_)));
    assert_eq!(approximate.to_fraction().to_string_repr(), "-5/4");

    let semitone: V = Value::rational(2, 1).pow(&Value::rational(1, 12));
    let symbolic: FractionData<Float> = FractionData::from_value(&semitone);
    assert!(symbolic.corrupted);
    assert!(symbolic.symbolic.is_some());
    assert!(symbolic.to_value().is_symbolic());

    let empty: FractionData<Float> = FractionData::default();
    assert_eq!(exact(&empty.to_value()), "0");
}

#[test]
fn bytecode_of_a_note() {
    let mut entry = NoteBytecode::default();
    assert!(entry.get_expr(Var::Tempo).is_none());
    entry.set_expr(Var::Tempo, vec![1, 2, 3], 2);
    let (bytes, length) = entry.get_expr(Var::Tempo).unwrap();
    assert_eq!(bytes, &[1, 2, 3]);
    assert_eq!(length, 2);
    assert!(entry.get_expr(Var::Duration).is_none());
    entry.clear_expr(Var::Tempo);
    assert!(entry.get_expr(Var::Tempo).is_none());
}

fn registered(tempo: Option<Vec<u8>>, start: Option<Vec<u8>>) -> NoteExpressions {
    let mut expressions = NoteExpressions::default();
    expressions.tempo = tempo.and_then(expression);
    expressions.start_time = start.and_then(expression);
    expressions
}

#[test]
fn persistent_state_follows_its_rules() {
    let mut evaluator: PersistentEvaluator<Float> = PersistentEvaluator::new();
    assert_eq!(evaluator.generation(), 0);
    assert_eq!(evaluator.cache_size(), 0);

    evaluator.register_note(1, registered(Some(make_const_bytecode(90, 1)), None));
    assert!(evaluator.is_dirty(1));
    assert!(evaluator.has_bytecode(1));
    assert!(!evaluator.has_cached_note(1));
    let after_register = evaluator.generation();
    assert_eq!(after_register, 1);

    assert_eq!(evaluator.evaluate_dirty(&[1]), 1);
    assert!(!evaluator.is_dirty(1));
    assert!(evaluator.has_cached_note(1));
    assert_eq!(evaluator.generation(), after_register + 1);
    assert_eq!(evaluator.cache_size(), 1);

    evaluator.mark_dirty(4);
    evaluator.mark_dirty_batch(&[5, 6, 5]);
    assert!(evaluator.is_dirty(4) && evaluator.is_dirty(5) && evaluator.is_dirty(6));
    assert_eq!(evaluator.generation(), after_register + 1);
    evaluator.clear_dirty();
    assert!(!evaluator.is_dirty(4) && !evaluator.is_dirty(5));

    evaluator.invalidate_note(1);
    assert!(!evaluator.has_cached_note(1));
    assert!(evaluator.is_dirty(1));
    assert!(evaluator.has_bytecode(1));
    assert_eq!(evaluator.generation(), after_register + 2);

    assert_eq!(evaluator.evaluate_dirty(&[1, 2, 3]), 1);
    evaluator.mark_dirty(1);
    evaluator.remove_note(1);
    assert!(!evaluator.has_cached_note(1));
    assert!(!evaluator.has_bytecode(1));
    assert!(!evaluator.is_dirty(1));
    assert!(!evaluator.evaluate_note_internal(1));

    evaluator.register_expression(2, Var::Tempo.index(), &make_const_bytecode(100, 1), 9);
    evaluator.register_expression(2, 9, &make_const_bytecode(100, 1), 9);
    assert!(evaluator.has_bytecode(2));
    assert!(!evaluator.is_dirty(2));
    assert!(evaluator.evaluate_note_internal(2));
    assert!(evaluator.has_cached_note(2));
    evaluator.mark_dirty(2);
    let before = evaluator.generation();
    evaluator.invalidate_all();
    assert_eq!(evaluator.cache_size(), 0);
    assert!(!evaluator.has_bytecode(2));
    assert!(!evaluator.is_dirty(2));
    assert_eq!(evaluator.generation(), before + 1);
    assert_eq!(evaluator.evaluate_dirty(&[2]), 0);
}

#[test]
fn persistent_notes_depend_on_each_other() {
    let mut evaluator: PersistentEvaluator<Float> = PersistentEvaluator::new();
    let mut first = NoteExpressions::default();
    first.start_time = expression(make_const_bytecode(1, 2));
    first.duration = expression(make_const_bytecode(1, 1));
    evaluator.register_note(1, first);
    let mut start = Vec::new();
    load_ref(&mut start, 1, Var::StartTime);
    load_ref(&mut start, 1, Var::Duration);
    start.push(Op::Add.to_byte());
    let mut second = NoteExpressions::default();
    second.start_time = expression(start);
    second.duration = expression(make_const_bytecode(1, 4));
    evaluator.register_note(2, second);
    evaluator.mark_dirty(1);
    evaluator.mark_dirty(2);

    assert_eq!(evaluator.evaluate_dirty(&[1, 2]), 2);
    let data = evaluator.get_cached_value(2, Var::StartTime.index()).unwrap();
    assert_eq!((data.s, data.n, data.d), (1, 3, 2));
    assert!(evaluator.get_cached_value(2, 9).is_none());
    assert!(evaluator.get_cached_value(3, 0).is_none());
    assert!(evaluator.get_cached_value(2, Var::Tempo.index()).is_none());

    let generation = evaluator.generation();
    evaluator.register_expression(1, Var::StartTime.index(), &make_const_bytecode(5, 2), 9);
    evaluator.invalidate_note(1);
    evaluator.mark_dirty(2);
    assert_eq!(evaluator.evaluate_dirty(&[1, 2]), 2);
    assert!(evaluator.generation() > generation);
    let data = evaluator.get_cached_value(2, Var::StartTime.index()).unwrap();
    assert_eq!((data.s, data.n, data.d), (1, 7, 2));
    let note = evaluator.get_cached_note(1).unwrap();
    assert_eq!(exact(note.get_var(Var::StartTime).unwrap()), "5/2");
    assert!(evaluator.get_cached_note(9).is_none());

    let exported = evaluator.export_cache();
    assert_eq!(exported.len(), 2);
    let mut other: PersistentEvaluator<Float> = PersistentEvaluator::new();
    other.import_cache(exported);
    assert_eq!(other.generation(), 1);
    assert_eq!(other.cache_size(), 2);
    let mut program = Vec::new();
    load_ref(&mut program, 2, Var::StartTime);
    assert_eq!(exact(&other.evaluate_with_cache(&program, program.len()).unwrap()), "7/2");
}

#[test]
fn measure_length_is_derived_for_measure_notes() {
    let mut evaluator: PersistentEvaluator<Float> = PersistentEvaluator::new();
    let mut base = NoteExpressions::default();
    base.tempo = expression(make_const_bytecode(120, 1));
    base.beats_per_measure = expression(make_const_bytecode(3, 1));
    evaluator.register_note(0, base);
    evaluator.register_note(1, registered(None, Some(make_const_bytecode(2, 1))));
    evaluator.register_note(2, registered(Some(make_const_bytecode(90, 1)), Some(make_const_bytecode(4, 1))));
    let mut sounding = NoteExpressions::default();
    sounding.start_time = expression(make_const_bytecode(0, 1));
    sounding.duration = expression(make_const_bytecode(1, 1));
    evaluator.register_note(3, sounding);
    assert_eq!(evaluator.evaluate_dirty(&[0, 1, 2, 3]), 4);

    let measure = |e: &PersistentEvaluator<Float>, id: u32| {
        e.get_cached_note(id).unwrap().get_var(Var::MeasureLength).map(exact)
    };
    assert_eq!(measure(&evaluator, 0), Some("3/2".to_string()));
    assert_eq!(measure(&evaluator, 1), Some("3/2".to_string()));
    assert_eq!(measure(&evaluator, 2), Some("2".to_string()));
    assert_eq!(measure(&evaluator, 3), None);

    let mut alone: PersistentEvaluator<Float> = PersistentEvaluator::new();
    alone.register_note(1, registered(None, Some(make_const_bytecode(2, 1))));
    assert!(alone.evaluate_note_internal(1));
    assert_eq!(measure(&alone, 1), Some("4".to_string()));

    let mut explicit: PersistentEvaluator<Float> = PersistentEvaluator::new();
    let mut with_measure = registered(None, Some(make_const_bytecode(2, 1)));
    with_measure.measure_length = expression(make_const_bytecode(7, 1));
    explicit.register_note(1, with_measure);
    assert!(explicit.evaluate_note_internal(1));
    assert_eq!(measure(&explicit, 1), Some("7".to_string()));
}

#[test]
fn a_failed_variable_is_absent() {
    let mut evaluator: PersistentEvaluator<Float> = PersistentEvaluator::new();
    let mut expressions = NoteExpressions::default();
    expressions.tempo = expression(vec![0xff]);
    expressions.frequency = expression(make_const_bytecode(440, 1));
    expressions.duration = Some((make_const_bytecode(1, 1), 20));
    expressions.start_time = expression(vec![Op::Add.to_byte()]);
    evaluator.register_note(1, expressions);
    assert_eq!(evaluator.evaluate_dirty(&[1]), 1);
    let note = evaluator.get_cached_note(1).unwrap();
    assert!(note.get_var(Var::Tempo).is_none());
    assert!(note.get_var(Var::Duration).is_none());
    assert!(note.get_var(Var::StartTime).is_none());
    assert_eq!(exact(note.get_var(Var::Frequency).unwrap()), "440");
    assert_eq!(note.corruption_flags, 0);
}
