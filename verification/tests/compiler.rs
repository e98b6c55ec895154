use rmt_core::approx::Approx;
use rmt_core::bytecode::Op;
use rmt_core::bytecode::Var;
use rmt_core::compiler::normalize_fraction;
use rmt_core::compiler::ExpressionCompiler;
use rmt_core::decimal::parse_decimal;
use rmt_core::evaluator::Evaluator;
use rmt_core::fraction::Fraction;
use rmt_core::note::EvaluatedNote;
use rmt_core::syntax::read_call_argument;
use rmt_core::syntax::strip_outer_parens;
use rmt_core::syntax::try_split_add_sub;
use rmt_core::syntax::try_split_mul_div;
use rmt_core::text::parse_i32;
use rmt_core::text::parse_u32;
use rmt_core::text::trim;
use rmt_core::value::Value;
use std::collections::HashMap;

#[derive(Debug)]
struct Never;

impl Approx for Never {
    fn from_fraction(_: &Fraction) -> Self {
        unreachable!()
    }

    fn to_fraction(&self) -> Fraction {
        unreachable!()
    }

    fn duplicate(&self) -> Self {
        unreachable!()
    }

    fn plus(&self, _: &Self) -> Self {
        unreachable!()
    }

    fn minus(&self, _: &Self) -> Self {
        unreachable!()
    }

    fn times(&self, _: &Self) -> Self {
        unreachable!()
    }

    fn over(&self, _: &Self) -> Self {
        unreachable!()
    }

    fn negated(&self) -> Self {
        unreachable!()
    }

    fn absolute(&self) -> Self {
        unreachable!()
    }

    fn power(&self, _: &Self) -> Self {
        unreachable!()
    }

    fn is_zero(&self) -> bool {
        unreachable!()
    }

    fn sign(&self) -> i32 {
        unreachable!()
    }

    fn round_to_u32(&self) -> u32 {
        unreachable!()
    }
}

type Cache = HashMap<u32, EvaluatedNote<Never>>;

fn evaluate(bytecode: &[u8], cache: &Cache) -> String {
    let mut evaluator: Evaluator<Never> = Evaluator::new();
    match evaluator.evaluate(bytecode, bytecode.len(), cache).unwrap() {
        Value::Rational(f) => f.to_string_repr(),
        _ => panic!("expected an exact rational"),
    }
}

fn decimal(text: &str) -> (i32, i32) {
    let compiler = ExpressionCompiler::new();
    compiler.decimal_to_fraction(&parse_decimal(text.as_bytes()).unwrap())
}

fn code(text: &str) -> Vec<u8> {
    ExpressionCompiler::new().compile(text).bytecode
}

fn constant(num: i32, den: i32) -> Vec<u8> {
    let mut out = vec![0x01];
    out.extend(num.to_be_bytes());
    out.extend(den.to_be_bytes());
    out
}

#[test]
fn test_compile_fraction_literal() {
    let mut compiler = ExpressionCompiler::new();
    let result = compiler.compile("new Fraction(3, 4)");

    assert!(!result.bytecode.is_empty());
    assert!(result.dependencies.is_empty());
    assert!(!result.references_base);
}

#[test]
fn test_compile_base_ref() {
    let mut compiler = ExpressionCompiler::new();
    let result = compiler.compile("module.baseNote.getVariable('startTime')");

    assert!(!result.bytecode.is_empty());
    assert!(result.references_base);
}

#[test]
fn test_compile_note_ref() {
    let mut compiler = ExpressionCompiler::new();
    let result = compiler.compile("module.getNoteById(42).getVariable('duration')");

    assert!(!result.bytecode.is_empty());
    assert!(result.dependencies.contains(&42));
}

#[test]
fn test_compile_addition() {
    let mut compiler = ExpressionCompiler::new();
    let result =
        compiler.compile("module.baseNote.getVariable('startTime').add(new Fraction(1, 4))");

    assert!(!result.bytecode.is_empty());
    assert!(result.references_base);
    assert_eq!(result.bytecode.last(), Some(&Op::Add.to_byte()));
}

#[test]
fn test_decimal_to_fraction() {
    assert_eq!(decimal("0.5"), (1, 2));
    assert_eq!(decimal("0.25"), (1, 4));
    assert_eq!(decimal("-1.5"), (-3, 2));
    assert_eq!(decimal("5.0"), (5, 1));
}

#[test]
fn a_literal_compiles_and_evaluates() {
    let mut compiler = ExpressionCompiler::new();
    let result = compiler.compile("new Fraction(3,4)");
    assert_eq!(result.bytecode, vec![0x01, 0, 0, 0, 3, 0, 0, 0, 4]);
    assert!(result.dependencies.is_empty());
    assert!(!result.references_base);
    assert_eq!(result.source_text, "new Fraction(3,4)");
    assert_eq!(evaluate(&result.bytecode, &Cache::new()), "3/4");
}

#[test]
fn a_sum_with_the_base_note_compiles_and_evaluates() {
    let mut compiler = ExpressionCompiler::new();
    let result =
        compiler.compile("module.baseNote.getVariable('startTime').add(new Fraction(1,4))");
    assert_eq!(result.bytecode, vec![0x03, 0, 0x01, 0, 0, 0, 1, 0, 0, 0, 4, 0x10]);
    assert!(result.references_base);
    assert!(result.dependencies.is_empty());
    let mut cache = Cache::new();
    let mut base = EvaluatedNote::default();
    base.set_var(Var::StartTime, Value::rational(0, 1));
    cache.insert(0, base);
    assert_eq!(evaluate(&result.bytecode, &cache), "1/4");
}

#[test]
fn a_reference_to_a_note_compiles_and_evaluates() {
    let mut compiler = ExpressionCompiler::new();
    let result = compiler.compile("module.getNoteById(42).getVariable('duration')");
    assert_eq!(result.bytecode, vec![0x02, 0, 42, 1]);
    assert_eq!(result.dependencies, vec![42]);
    assert!(!result.references_base);
    let mut cache = Cache::new();
    let mut note = EvaluatedNote::default();
    note.set_var(Var::Duration, Value::rational(2, 1));
    cache.insert(42, note);
    assert_eq!(evaluate(&result.bytecode, &cache), "2");
}

#[test]
fn text_that_cannot_be_read_is_zero() {
    for text in [
        "",
        "   ",
        "what is this",
        "module.baseNote.getVariable('pitch')",
        "module.getNoteById(3).getVariable('pitch')",
        "module.getNoteById(3).getVariable('tempo').add(module.baseNote.getVariable('x'))",
        "new Fraction(1, 2, 3)",
        "new Fraction()",
        "new Fraction(1e)",
        "()",
        "module.baseNote.getVariable(')",
    ] {
        let mut compiler = ExpressionCompiler::new();
        let result = compiler.compile(text);
        assert_eq!(result.bytecode, constant(0, 1), "{}", text);
        assert!(result.dependencies.is_empty());
        assert!(!result.references_base);
        assert_eq!(result.source_text, text);
    }
}

#[test]
fn constants_are_written_in_lowest_terms() {
    assert_eq!(code("new Fraction(6, 8)"), constant(3, 4));
    assert_eq!(code("new Fraction(6, -8)"), constant(-3, 4));
    assert_eq!(code("new Fraction(-6, -8)"), constant(3, 4));
    assert_eq!(code("new Fraction(0, 5)"), constant(0, 1));
    assert_eq!(code("new Fraction(5, 0)"), constant(0, 1));
    assert_eq!(code("new Fraction(7)"), constant(7, 1));
    assert_eq!(code("new Fraction(0.75)"), constant(3, 4));
    assert_eq!(code("  new Fraction( +6 , 4 )  "), constant(3, 2));
    assert_eq!(code("1.5"), constant(3, 2));
    assert_eq!(code("-2"), constant(-2, 1));
    assert_eq!(code("(0.125)"), constant(1, 8));
    assert_eq!(normalize_fraction(i32::MIN, 2), (-1073741824, 1));
    assert_eq!(normalize_fraction(i32::MIN, -1), (i32::MIN, -1));
    assert_eq!(normalize_fraction(i32::MIN, i32::MIN), (1, 1));
    assert_eq!(normalize_fraction(7, i32::MIN), (7, i32::MIN));
    assert_eq!(normalize_fraction(i32::MAX, i32::MAX), (1, 1));
}

#[test]
fn decimals_become_the_fractions_that_are_meant() {
    for (text, expected) in [
        ("0", (0, 1)),
        ("-0.0", (0, 1)),
        ("7", (7, 1)),
        ("-7.00000000001", (-7, 1)),
        ("0.333333", (1, 3)),
        ("0.666666", (2, 3)),
        ("0.1666666", (1, 6)),
        ("0.8333333", (5, 6)),
        ("0.1", (1, 10)),
        ("0.2", (1, 5)),
        ("0.875", (7, 8)),
        ("1.25", (5, 4)),
        ("1.75", (7, 4)),
        ("2.5", (5, 2)),
        ("-2.5", (-5, 2)),
        ("0.3", (3, 10)),
        ("0.05", (1, 20)),
        ("0.333", (333, 1000)),
        ("0.0001", (1, 10000)),
        ("0.00004", (0, 1)),
        ("0.00006", (1, 10000)),
        (".5", (1, 2)),
        ("5.", (5, 1)),
        ("+0.75", (3, 4)),
        ("3000000000", (i32::MAX, 1)),
        ("-3000000000", (-i32::MAX, 1)),
    ] {
        assert_eq!(decimal(text), expected, "{}", text);
    }
    for text in ["", ".", "+", "-", "1.2.3", "1x3", "abc", " 1", "1 ", "inf", "--1"] {
        assert!(parse_decimal(text.as_bytes()).is_none(), "{}", text);
    }
    assert_eq!(parse_decimal(b"-12.50").unwrap().to_string_repr(), "-25/2");
    assert_eq!(
        parse_decimal(b"123456789012345678901234567890.5").unwrap().to_string_repr(),
        "246913578024691357802469135781/2"
    );
}

#[test]
fn chains_compile_left_to_right() {
    let a = constant(1, 2);
    let b = constant(1, 3);
    let c = constant(1, 5);
    let join = |parts: &[&[u8]]| parts.concat();
    assert_eq!(
        code("new Fraction(1,2).add(new Fraction(1,3)).sub(new Fraction(1,5))"),
        join(&[&a, &b, &[0x10], &c, &[0x11]])
    );
    assert_eq!(
        code("new Fraction(1,2).mul(new Fraction(1,3)).div(new Fraction(1,5))"),
        join(&[&a, &b, &[0x12], &c, &[0x13]])
    );
    assert_eq!(
        code("new Fraction(1,2).add(new Fraction(1,3).mul(new Fraction(1,5)))"),
        join(&[&a, &b, &c, &[0x12], &[0x10]])
    );
    assert_eq!(
        code("new Fraction(1,2).mul(new Fraction(1,3)).add(new Fraction(1,5))"),
        join(&[&a, &b, &[0x12], &c, &[0x10]])
    );
    assert_eq!(
        code("new Fraction(1,2).mul(new Fraction(1,3).add(new Fraction(1,5)))"),
        join(&[&a, &b, &c, &[0x10], &[0x12]])
    );
    assert_eq!(
        code("(new Fraction(1,2).sub(new Fraction(1,3))).mul(new Fraction(1,5))"),
        join(&[&a, &b, &[0x11], &c, &[0x12]])
    );
    assert_eq!(
        code(" ( new Fraction(1,2) ) .add( ( new Fraction(1,3) ) ) "),
        join(&[&a, &b, &[0x10]])
    );
    assert_eq!(
        evaluate(&code("new Fraction(1,2).add(new Fraction(1,3).mul(new Fraction(1,5)))"), &Cache::new()),
        "17/30"
    );
}

#[test]
fn lookups_compile_to_loads() {
    assert_eq!(code("module.findTempo(module.baseNote)"), vec![0x03, 3]);
    assert_eq!(code("module.findTempo(module.getNoteById(7))"), vec![0x02, 0, 7, 3]);
    assert_eq!(code("module.findTempo(whatever)"), vec![0x03, 3]);
    assert_eq!(code("module.findMeasureLength(module.baseNote)"), vec![0x03, 5]);
    assert_eq!(code("module.findMeasureLength( module.getNoteById( 300 ) )"), vec![0x02, 1, 44, 5]);
    let beat = [constant(60, 1), vec![0x03, 3, 0x13]].concat();
    assert_eq!(code("new Fraction(60).div(module.findTempo(module.baseNote))"), beat);
    let beat_of_note = [constant(60, 1), vec![0x02, 0, 9, 3, 0x13]].concat();
    assert_eq!(
        code("new Fraction(2).mul(new Fraction(60).div(module.findTempo(module.getNoteById(9))))"),
        [constant(2, 1), beat_of_note, vec![0x12]].concat()
    );
    for (name, index) in [
        ("startTime", 0u8),
        ("duration", 1),
        ("frequency", 2),
        ("tempo", 3),
        ("beatsPerMeasure", 4),
        ("measureLength", 5),
    ] {
        assert_eq!(code(name), vec![0x03, index]);
        assert_eq!(code(&format!("module.baseNote.getVariable('{}')", name)), vec![0x03, index]);
        assert_eq!(
            code(&format!("module.getNoteById(258).getVariable('{}')", name)),
            vec![0x02, 1, 2, index]
        );
    }
}

#[test]
fn references_are_collected() {
    let mut compiler = ExpressionCompiler::new();
    let result = compiler.compile(
        "module.getNoteById(3).getVariable('startTime').add(module.getNoteById(5).getVariable('duration')).add(module.findTempo(module.getNoteById(3)).mul(module.baseNote.getVariable('tempo')))",
    );
    let mut deps = result.dependencies.clone();
    deps.sort();
    assert_eq!(deps, vec![3, 5]);
    assert!(result.references_base);
    assert_eq!(
        result.bytecode,
        vec![0x02, 0, 3, 0, 0x02, 0, 5, 1, 0x10, 0x02, 0, 3, 3, 0x03, 3, 0x12, 0x10]
    );

    let again = compiler.compile("new Fraction(1)");
    assert!(again.dependencies.is_empty());
    assert!(!again.references_base);

    let far = compiler.compile("module.getNoteById(70000).getVariable('tempo')");
    assert_eq!(far.dependencies, vec![70000]);
    assert_eq!(far.bytecode, vec![0x02, 0x11, 0x70, 3]);
}

#[test]
fn scanning_respects_parentheses() {
    let text = b"a.add(b.add(c)).sub( d )";
    let parts = try_split_add_sub(text).unwrap();
    let shown: Vec<(bool, String)> =
        parts.iter().map(|p| (p.0, String::from_utf8(p.1.clone()).unwrap())).collect();
    assert_eq!(
        shown,
        vec![(false, "a".to_string()), (false, "b.add(c)".to_string()), (true, "d".to_string())]
    );
    assert!(try_split_add_sub(b"f(a.add(b))").is_none());
    assert!(try_split_add_sub(b"").is_none());

    let (base, operations) = try_split_mul_div(b" x .mul(y.div(z)).div(w").unwrap();
    assert_eq!(base, b"x".to_vec());
    let shown: Vec<(bool, String)> =
        operations.iter().map(|p| (p.0, String::from_utf8(p.1.clone()).unwrap())).collect();
    assert_eq!(shown, vec![(false, "y.div(z)".to_string()), (true, "w".to_string())]);
    assert!(try_split_mul_div(b"(x.mul(y))").is_none());

    assert_eq!(read_call_argument(b"f( a(b) ) rest", 2), (b"a(b)".to_vec(), 9));
    assert_eq!(read_call_argument(b"f(a", 2), (b"a".to_vec(), 3));

    assert_eq!(strip_outer_parens(b" ( a ) "), b"a");
    assert_eq!(strip_outer_parens(b"(a)(b)"), b"(a)(b)");
    assert_eq!(strip_outer_parens(b"((a))"), b"(a)");
    assert_eq!(strip_outer_parens(b"(a"), b"(a");
    assert_eq!(strip_outer_parens(b"a"), b"a");
    assert_eq!(trim(b"\t a b \n"), b"a b");
    assert_eq!(trim(b"   "), b"");
}

#[test]
fn whole_numbers_in_text() {
    assert_eq!(parse_u32(b"0"), Some(0));
    assert_eq!(parse_u32(b"+42"), Some(42));
    assert_eq!(parse_u32(b"007"), Some(7));
    assert_eq!(parse_u32(b"4294967295"), Some(u32::MAX));
    assert_eq!(parse_u32(b"4294967296"), None);
    assert_eq!(parse_u32(b"-1"), None);
    assert_eq!(parse_u32(b""), None);
    assert_eq!(parse_u32(b"+"), None);
    assert_eq!(parse_u32(b"1 "), None);
    assert_eq!(parse_u32(b"99999999999999999999999"), None);
    assert_eq!(parse_i32(b"-2147483648"), Some(i32::MIN));
    assert_eq!(parse_i32(b"2147483647"), Some(i32::MAX));
    assert_eq!(parse_i32(b"2147483648"), None);
    assert_eq!(parse_i32(b"-2147483649"), None);
    assert_eq!(parse_i32(b"+5"), Some(5));
    assert_eq!(parse_i32(b"-"), None);
    assert_eq!(parse_i32(b"1.0"), None);
}

#[test]
fn text_that_is_not_read_is_told() {
    let mut compiler = ExpressionCompiler::new();
    assert!(!compiler.last_unread());
    compiler.compile("new Fraction(3, 4)");
    assert!(!compiler.last_unread());
    compiler.compile("");
    assert!(!compiler.last_unread());
    compiler.compile("tempo");
    assert!(!compiler.last_unread());

    let garbled = compiler.compile("what is this");
    assert!(compiler.last_unread());
    assert_eq!(garbled.bytecode, vec![0x01, 0, 0, 0, 0, 0, 0, 0, 1]);

    let unknown = compiler.compile("module.baseNote.getVariable('pitch')");
    assert!(compiler.last_unread());
    assert_eq!(unknown.bytecode, vec![0x01, 0, 0, 0, 0, 0, 0, 0, 1]);

    let partly = compiler.compile("new Fraction(1, 2).add(nonsense)");
    assert!(compiler.last_unread());
    assert_eq!(partly.bytecode.last(), Some(&0x10));

    compiler.compile("new Fraction(1, 2).add(new Fraction(1, 3))");
    assert!(!compiler.last_unread());
}

#[test]
fn white_space_of_every_kind_is_trimmed() {
    assert_eq!(trim("\u{a0}\u{2003} 3/4\u{3000}\u{85}\n".as_bytes()), "3/4".as_bytes());
    assert_eq!(trim("\u{1680}\u{2028}\u{2029}\u{202f}\u{205f}\u{200a}".as_bytes()), "".as_bytes());
    assert_eq!(trim("a\u{a0}b".as_bytes()), "a\u{a0}b".as_bytes());
    assert_eq!(trim("\u{200b}x".as_bytes()), "\u{200b}x".as_bytes());
    assert_eq!(trim("é ".as_bytes()), "é".as_bytes());
    for text in ["", " ", "\u{a0}", " x ", "\u{2000}x\u{2000}y\u{2000}", "\u{e2}\u{80}"] {
        assert_eq!(trim(text.as_bytes()), text.trim().as_bytes(), "{:?}", text);
    }
    let mut compiler = ExpressionCompiler::new();
    let compiled = compiler.compile("\u{a0}new Fraction(3,\u{2009}4)\u{3000}");
    assert_eq!(compiled.bytecode, vec![0x01, 0, 0, 0, 3, 0, 0, 0, 4]);
    assert!(!compiler.last_unread());
}

#[test]
fn decimals_with_an_exponent_of_ten() {
    let text = |f: Option<Fraction>| f.map(|v| v.to_string_repr());
    assert_eq!(text(parse_decimal(b"1e3")), Some("1000".to_string()));
    assert_eq!(text(parse_decimal(b"2.5E-1")), Some("1/4".to_string()));
    assert_eq!(text(parse_decimal(b"-1.5e+2")), Some("-150".to_string()));
    assert_eq!(text(parse_decimal(b"12e0")), Some("12".to_string()));
    assert_eq!(text(parse_decimal(b".5e1")), Some("5".to_string()));
    assert_eq!(text(parse_decimal(b"1e")), None);
    assert_eq!(text(parse_decimal(b"e5")), None);
    assert_eq!(text(parse_decimal(b"1e5e5")), None);
    assert_eq!(text(parse_decimal(b"1e1.5")), None);
    assert_eq!(text(parse_decimal(b"1e1001")), None);
    assert_eq!(text(parse_decimal(b"1e-1001")), None);
    assert_eq!(parse_decimal(b"1e1000").unwrap().to_string_repr().len(), 1001);
    assert_eq!(Fraction::from_string(" 1.5e2 ").unwrap().to_string_repr(), "150");
    let mut compiler = ExpressionCompiler::new();
    let compiled = compiler.compile("1e3");
    assert_eq!(compiled.bytecode, vec![0x01, 0, 0, 0x03, 0xe8, 0, 0, 0, 1]);
    assert!(!compiler.last_unread());
}
