use num_bigint::BigInt;
use num_rational::BigRational;
use num_traits::ToPrimitive;
use rmt_core::fraction::Fraction;
use rmt_core::parse::FractionParseError;

fn to_f64(f: &Fraction) -> f64 {
    f.as_big_rational().to_f64().unwrap_or(0.0)
}

fn exact(value: f64) -> Fraction {
    match BigRational::from_float(value) {
        Some(r) => Fraction::from_big_rational(r),
        None => Fraction::new(0, 1),
    }
}

fn from_f64(value: f64) -> Fraction {
    Fraction::from_decimal(&exact(value))
}

#[test]
fn test_basic_arithmetic() {
    let a = Fraction::new(1, 2);
    let b = Fraction::new(1, 4);

    let sum = (&a).add(&b);
    assert_eq!(sum.to_string_repr(), "3/4");

    let diff = (&a).sub(&b);
    assert_eq!(diff.to_string_repr(), "1/4");

    let prod = (&a).mul(&b);
    assert_eq!(prod.to_string_repr(), "1/8");

    let quot = (&a).div(&b);
    assert_eq!(quot.to_string_repr(), "2");
}

#[test]
fn test_negation() {
    let a = Fraction::new(3, 4);
    let neg_a = a.neg();
    assert_eq!(neg_a.to_string_repr(), "-3/4");
}

#[test]
fn test_from_string() {
    let a = Fraction::from_string("3/4").unwrap();
    assert_eq!(to_f64(&a), 0.75);

    let b = Fraction::from_string("5").unwrap();
    assert_eq!(to_f64(&b), 5.0);
}

#[test]
fn test_from_f64() {
    let a = from_f64(0.5);
    assert_eq!(a.to_string_repr(), "1/2");

    let b = from_f64(0.25);
    assert_eq!(b.to_string_repr(), "1/4");

    let c = from_f64(-1.5);
    assert_eq!(to_f64(&c), -1.5);
}

#[test]
fn test_sign_components() {
    let pos = Fraction::new(3, 4);
    assert_eq!(pos.s(), 1);
    assert_eq!(pos.n(), 3);
    assert_eq!(pos.d(), 4);

    let neg = Fraction::new(-3, 4);
    assert_eq!(neg.s(), -1);
    assert_eq!(neg.n(), 3);
    assert_eq!(neg.d(), 4);

    let zero = Fraction::new(0, 1);
    assert_eq!(zero.s(), 0);
}

#[test]
fn test_auto_reduction() {
    let a = Fraction::new(2, 4);
    assert_eq!(a.to_string_repr(), "1/2");

    let b = Fraction::new(6, 9);
    assert_eq!(b.to_string_repr(), "2/3");
}

#[test]
fn test_division_by_zero() {
    let a = Fraction::new(1, 1);
    let zero = Fraction::new(0, 1);
    let result = (&a).div(&zero);
    assert_eq!(to_f64(&result), 1.0);
}

fn parts(f: &Fraction) -> (String, String) {
    let r = f.as_big_rational();
    (r.numer().to_string(), r.denom().to_string())
}

#[test]
fn constructed_fractions_are_in_lowest_terms() {
    assert_eq!(parts(&Fraction::new(2, 4)), ("1".to_string(), "2".to_string()));
    assert_eq!(parts(&Fraction::new(2, -4)), ("-1".to_string(), "2".to_string()));
    assert_eq!(parts(&Fraction::new(-2, -4)), ("1".to_string(), "2".to_string()));
    assert_eq!(parts(&Fraction::new(0, 7)), ("0".to_string(), "1".to_string()));
    assert_eq!(parts(&Fraction::new(0, -7)), ("0".to_string(), "1".to_string()));
    assert_eq!(parts(&Fraction::new(5, 0)), ("0".to_string(), "1".to_string()));
    assert_eq!(parts(&Fraction::new_raw(1 << 40, 1 << 42)), ("1".to_string(), "4".to_string()));
    assert_eq!(parts(&Fraction::new_raw(5, 0)), ("0".to_string(), "1".to_string()));
    assert_eq!(parts(&Fraction::new_raw(i64::MIN, i64::MIN)), ("1".to_string(), "1".to_string()));
    assert_eq!(parts(&Fraction::from_int(-9)), ("-9".to_string(), "1".to_string()));
    assert_eq!(
        parts(&Fraction::from_big_ints(BigInt::from(10), BigInt::from(-4))),
        ("-5".to_string(), "2".to_string())
    );
    assert_eq!(
        parts(&Fraction::from_big_ints(BigInt::from(10), BigInt::from(0))),
        ("0".to_string(), "1".to_string())
    );
    let raw = BigRational::new_raw(BigInt::from(6), BigInt::from(-8));
    assert_eq!(parts(&Fraction::from_big_rational(raw)), ("-3".to_string(), "4".to_string()));
    let nan = BigRational::new_raw(BigInt::from(6), BigInt::from(0));
    let f = Fraction::from_big_rational(nan);
    assert_eq!(parts(&f), ("0".to_string(), "1".to_string()));
    assert!(!f.is_nan());
}

#[test]
fn fractions_of_parts_that_were_read() {
    let seven = || Some(BigInt::from(7));
    assert_eq!(
        Fraction::from_parsed_parts(None, seven()).unwrap_err(),
        FractionParseError::InvalidNumerator
    );
    assert_eq!(
        Fraction::from_parsed_parts(None, None).unwrap_err(),
        FractionParseError::InvalidNumerator
    );
    assert_eq!(
        Fraction::from_parsed_parts(seven(), None).unwrap_err(),
        FractionParseError::InvalidDenominator
    );
    assert_eq!(
        Fraction::from_parsed_parts(seven(), Some(BigInt::from(0))).unwrap_err(),
        FractionParseError::DivisionByZero
    );
    let f = Fraction::from_parsed_parts(Some(BigInt::from(-14)), Some(BigInt::from(-4))).unwrap();
    assert_eq!(parts(&f), ("7".to_string(), "2".to_string()));
    let g = Fraction::from_parsed_parts(Some(BigInt::from(0)), Some(BigInt::from(-4))).unwrap();
    assert_eq!(parts(&g), ("0".to_string(), "1".to_string()));
}

#[test]
fn texts_of_parts_are_joined() {
    assert_eq!(Fraction::join_text("3".to_string(), "4", false), "3/4");
    assert_eq!(Fraction::join_text("-3".to_string(), "1", true), "-3");
    assert_eq!(Fraction::join_text(String::new(), "", false), "/");
}

#[test]
fn the_default_fraction_is_zero() {
    let zero = Fraction::default();
    assert!(zero.is_zero());
    assert_eq!(parts(&zero), ("0".to_string(), "1".to_string()));
}

#[test]
fn addition_is_associative_and_commutative() {
    let values = [
        Fraction::new(1, 3),
        Fraction::new(-5, 12),
        Fraction::new(7, 1),
        Fraction::new(0, 1),
        Fraction::new(i32::MAX, 2),
        Fraction::new(3, i32::MAX),
    ];
    for a in &values {
        for b in &values {
            assert!(a.add(b).equals(&b.add(a)));
            assert!(a.mul(b).equals(&b.mul(a)));
            for c in &values {
                let left = a.add(b).add(c);
                let right = a.add(&b.add(c));
                assert!(left.equals(&right));
                assert_eq!(parts(&left), parts(&right));
            }
        }
    }
}

#[test]
fn operations_on_exact_values() {
    let a = Fraction::new(3, 4);
    let b = Fraction::new(-5, 6);
    assert_eq!(a.add(&b).to_string_repr(), "-1/12");
    assert_eq!(a.sub(&b).to_string_repr(), "19/12");
    assert_eq!(a.mul(&b).to_string_repr(), "-5/8");
    assert_eq!(a.div(&b).to_string_repr(), "-9/10");
    assert_eq!(b.abs().to_string_repr(), "5/6");
    assert_eq!(b.inverse().to_string_repr(), "-6/5");
    assert_eq!(Fraction::new(0, 1).inverse().to_string_repr(), "1");
    assert_eq!(b.neg().to_string_repr(), "5/6");
    assert_eq!(a.compare(&b), 1);
    assert_eq!(b.compare(&a), -1);
    assert_eq!(a.compare(&Fraction::new(6, 8)), 0);
    assert!(a.equals(&Fraction::new(-6, -8)));
    assert!(!a.equals(&b));
    assert!(b.is_negative());
    assert!(!b.is_positive());
    assert!(a.is_positive());
    assert!(Fraction::new(0, 5).is_zero());
    assert!(Fraction::new(5, 5).is_one());
    assert!(!a.is_one());
    assert!(Fraction::new(8, 4).is_integer());
    assert!(!a.is_integer());
    assert_eq!(a.clone_fraction().to_string_repr(), "3/4");
    assert_eq!(a.clone().to_string_repr(), "3/4");
}

#[test]
fn accessors_saturate_and_strings_do_not() {
    let big = Fraction::from_big_ints(BigInt::from(-5_000_000_000i64), BigInt::from(7));
    assert_eq!(big.s(), -1);
    assert_eq!(big.n(), u32::MAX);
    assert_eq!(big.d(), 7);
    assert_eq!(big.numerator_str(), "5000000000");
    assert_eq!(big.denominator_str(), "7");
    assert_eq!(big.to_string_repr(), "-5000000000/7");
    assert_eq!(big.numerator_u32(), None);
    assert_eq!(big.numerator_i64(), Some(-5_000_000_000));
    let small = Fraction::from_big_ints(BigInt::from(3), BigInt::from(1) << 40);
    assert_eq!(small.d(), u32::MAX);
    assert_eq!(small.denominator_u32(), None);
    assert_eq!(small.denominator_i64(), Some(1 << 40));
    let edge = Fraction::from_big_ints(BigInt::from(u32::MAX), BigInt::from(1));
    assert_eq!(edge.n(), u32::MAX);
    assert_eq!(edge.numerator_u32(), Some(u32::MAX));
}

#[test]
fn rounding_goes_away_from_zero_on_ties() {
    assert_eq!(Fraction::new(5, 2).round_to_u32(), 3);
    assert_eq!(Fraction::new(7, 3).round_to_u32(), 2);
    assert_eq!(Fraction::new(8, 3).round_to_u32(), 3);
    assert_eq!(Fraction::new(-5, 2).round_to_u32(), 0);
    assert_eq!(Fraction::new(1, 2).round_to_u32(), 1);
    assert_eq!(Fraction::new(49, 100).round_to_u32(), 0);
    assert_eq!(Fraction::new_raw(5_000_000_000, 1).round_to_u32(), u32::MAX);
    assert_eq!(Fraction::new(-5, 2).round_to_i32(), -3);
    assert_eq!(Fraction::new(-7, 3).round_to_i32(), -2);
    assert_eq!(Fraction::new_raw(-5_000_000_000, 1).round_to_i32(), i32::MIN);
    assert_eq!(Fraction::new_raw(5_000_000_000, 1).round_to_i32(), i32::MAX);
    assert_eq!(Fraction::new(-5, 2).round_whole().to_string_repr(), "-3");
}

#[test]
fn text_forms() {
    assert_eq!(Fraction::from_string(" 6 / -8 ").unwrap().to_string_repr(), "-3/4");
    assert_eq!(Fraction::from_string("-12").unwrap().to_string_repr(), "-12");
    assert_eq!(Fraction::from_string("1.5").unwrap().to_string_repr(), "3/2");
    assert_eq!(Fraction::from_string("0.25").unwrap().to_string_repr(), "1/4");
    assert_eq!(Fraction::from_string("12345678901234567890").unwrap().to_string_repr(), "12345678901234567890");
    assert_eq!(
        Fraction::from_string("123456789012345678901234567890/3").unwrap().to_string_repr(),
        "41152263004115226300411522630"
    );
    assert_eq!(Fraction::from_string("x/3").unwrap_err(), FractionParseError::InvalidNumerator);
    assert_eq!(Fraction::from_string("3/y").unwrap_err(), FractionParseError::InvalidDenominator);
    assert_eq!(Fraction::from_string("3/0").unwrap_err(), FractionParseError::DivisionByZero);
    assert_eq!(Fraction::from_string("three").unwrap_err(), FractionParseError::NotANumber);
    assert_eq!(Fraction::from_string("").unwrap_err(), FractionParseError::NotANumber);
}
