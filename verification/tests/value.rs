use num_traits::ToPrimitive;
use rmt_core::approx::Approx;
use rmt_core::fraction::Fraction;
use rmt_core::power::checked_power;
use rmt_core::power::integer_nth_root;
use rmt_core::power::rational_int_power;
use rmt_core::power::try_perfect_nth_root;
use rmt_core::power::try_rational_power;
use rmt_core::symbolic::PowerTerm;
use rmt_core::symbolic::SymbolicPower;
use rmt_core::value::corruption_flag_for_var;
use rmt_core::value::SimpleFraction;
use rmt_core::value::SymbolicPowerData;
use rmt_core::value::Value;
use rmt_core::value::ValueData;
use rmt_core::value::CORRUPT_BEATS_PER_MEASURE;
use rmt_core::value::CORRUPT_DURATION;
use rmt_core::value::CORRUPT_FREQUENCY;
use rmt_core::value::CORRUPT_MEASURE_LENGTH;
use rmt_core::value::CORRUPT_START_TIME;
use rmt_core::value::CORRUPT_TEMPO;

#[derive(Clone, Debug)]
struct Float(f64);

fn fraction_to_f64(f: &Fraction) -> f64 {
    f.as_big_rational().to_f64().unwrap_or(0.0)
}

fn fraction_from_f64(value: f64) -> Fraction {
    match num_rational::BigRational::from_float(value) {
        Some(r) => Fraction::from_decimal(&Fraction::from_big_rational(r)),
        None => Fraction::new(0, 1),
    }
}

impl Approx for Float {
    fn from_fraction(value: &Fraction) -> Self {
        Float(fraction_to_f64(value))
    }

    fn to_fraction(&self) -> Fraction {
        fraction_from_f64(self.0)
    }

    fn duplicate(&self) -> Self {
        Float(self.0)
    }

    fn plus(&self, rhs: &Self) -> Self {
        Float(self.0 + rhs.0)
    }

    fn minus(&self, rhs: &Self) -> Self {
        Float(self.0 - rhs.0)
    }

    fn times(&self, rhs: &Self) -> Self {
        Float(self.0 * rhs.0)
    }

    fn over(&self, rhs: &Self) -> Self {
        Float(self.0 / rhs.0)
    }

    fn negated(&self) -> Self {
        Float(-self.0)
    }

    fn absolute(&self) -> Self {
        Float(self.0.abs())
    }

    fn power(&self, exponent: &Self) -> Self {
        Float(self.0.powf(exponent.0))
    }

    fn is_zero(&self) -> bool {
        self.0 == 0.0
    }

    fn sign(&self) -> i32 {
        if self.0 < 0.0 {
            -1
        } else if self.0 > 0.0 {
            1
        } else {
            0
        }
    }

    fn round_to_u32(&self) -> u32 {
        self.0.round() as u32
    }
}

type V = Value<Float>;

fn to_f64(v: &V) -> f64 {
    v.to_approx().0
}

fn rational(num: i32, den: i32) -> V {
    Value::rational(num, den)
}

fn irrational(v: f64) -> V {
    Value::irrational(Float(v))
}

#[test]
fn test_rational_operations() {
    let a = rational(1, 2);
    let b = rational(1, 4);

    let sum = a.add(&b);
    assert!(sum.is_rational());
    assert!((to_f64(&sum) - 0.75).abs() < 1e-10);

    let prod = a.mul(&b);
    assert!(prod.is_rational());
    assert!((to_f64(&prod) - 0.125).abs() < 1e-10);
}

#[test]
fn test_irrational_contamination() {
    let rational = rational(2, 1);
    let irrational = irrational(std::f64::consts::PI);

    let result = rational.add(&irrational);
    assert!(result.is_corrupted());
}

#[test]
fn test_integer_power() {
    let two = rational(2, 1);
    let exp = rational(3, 1);

    let result = two.pow(&exp);
    assert!(result.is_rational());
    assert!((to_f64(&result) - 8.0).abs() < 1e-10);
}

#[test]
fn test_perfect_square_root() {
    let four = rational(4, 1);
    let half = rational(1, 2);

    let result = four.pow(&half);
    assert!(result.is_rational());
    assert!((to_f64(&result) - 2.0).abs() < 1e-10);
}

#[test]
fn test_imperfect_square_root() {
    let two = rational(2, 1);
    let half = rational(1, 2);

    let result = two.pow(&half);
    assert!(result.is_corrupted());
    assert!((to_f64(&result) - std::f64::consts::SQRT_2).abs() < 1e-10);
}

#[test]
fn test_tet_semitone() {
    let two = rational(2, 1);
    let twelfth = rational(1, 12);

    let result = two.pow(&twelfth);
    assert!(result.is_corrupted());

    let expected = 2.0_f64.powf(1.0 / 12.0);
    assert!((to_f64(&result) - expected).abs() < 1e-10);
}

#[test]
fn test_perfect_cube_root() {
    let eight = rational(8, 1);
    let third = rational(1, 3);

    let result = eight.pow(&third);
    assert!(result.is_rational());
    assert!((to_f64(&result) - 2.0).abs() < 1e-10);
}

#[test]
fn test_negative_exponent() {
    let two = rational(2, 1);
    let neg_two = rational(-2, 1);

    let result = two.pow(&neg_two);
    assert!(result.is_rational());
    assert!((to_f64(&result) - 0.25).abs() < 1e-10);
}

#[test]
fn test_zero_exponent() {
    let any = rational(123, 456);
    let zero = rational(0, 1);

    let result = any.pow(&zero);
    assert!(result.is_rational());
    assert!((to_f64(&result) - 1.0).abs() < 1e-10);
}

#[test]
fn test_value_data_roundtrip() {
    let rational = rational(3, 4);
    let data = ValueData::from_value(&rational);
    let recovered = data.to_value();
    assert!(recovered.is_rational());
    assert!((to_f64(&recovered) - 0.75).abs() < 1e-10);

    let irrational = irrational(std::f64::consts::E);
    let data = ValueData::from_value(&irrational);
    let recovered = data.to_value();
    assert!(recovered.is_corrupted());
    assert!((to_f64(&recovered) - std::f64::consts::E).abs() < 1e-10);
}

#[test]
fn test_integer_nth_root() {
    assert_eq!(integer_nth_root(8, 3), Some(2));
    assert_eq!(integer_nth_root(16, 4), Some(2));
    assert_eq!(integer_nth_root(27, 3), Some(3));
    assert_eq!(integer_nth_root(10, 2), None);
}

#[test]
fn test_symbolic_power_creation() {
    let two = rational(2, 1);
    let twelfth = rational(1, 12);

    let result = two.pow(&twelfth);
    assert!(result.is_symbolic());
    assert!(result.is_corrupted());

    let expected = 2.0_f64.powf(1.0 / 12.0);
    assert!((to_f64(&result) - expected).abs() < 1e-10);
}

#[test]
fn test_symbolic_like_base_multiplication() {
    let two = rational(2, 1);
    let twelfth = rational(1, 12);

    let semi = two.pow(&twelfth);
    let result = semi.mul(&semi);

    assert!(result.is_symbolic());

    if let Value::Symbolic(sp) = &result {
        assert_eq!(sp.powers.len(), 1);
        assert_eq!(sp.powers[0].base, 2);
        assert_eq!(sp.powers[0].exponent.n(), 1);
        assert_eq!(sp.powers[0].exponent.d(), 6);
    } else {
        panic!("Expected symbolic result");
    }

    let expected = 2.0_f64.powf(1.0 / 6.0);
    assert!((to_f64(&result) - expected).abs() < 1e-10);
}

#[test]
fn test_symbolic_multi_base() {
    let two = rational(2, 1);
    let three = rational(3, 1);
    let twelfth = rational(1, 12);
    let thirteenth = rational(1, 13);

    let a = two.pow(&twelfth);
    let b = three.pow(&thirteenth);
    let result = a.mul(&b);

    assert!(result.is_symbolic());

    if let Value::Symbolic(sp) = &result {
        assert_eq!(sp.powers.len(), 2);
        let bases: Vec<u32> = sp.powers.iter().map(|p| p.base).collect();
        assert!(bases.contains(&2));
        assert!(bases.contains(&3));
    } else {
        panic!("Expected symbolic result");
    }

    let expected = 2.0_f64.powf(1.0 / 12.0) * 3.0_f64.powf(1.0 / 13.0);
    assert!((to_f64(&result) - expected).abs() < 1e-10);
}

#[test]
fn test_symbolic_cancellation() {
    let two = rational(2, 1);
    let twelfth = rational(1, 12);
    let neg_twelfth = rational(-1, 12);

    let a = two.pow(&twelfth);
    let b = two.pow(&neg_twelfth);
    let result = a.mul(&b);

    assert!(result.is_rational());
    assert!((to_f64(&result) - 1.0).abs() < 1e-10);
}

#[test]
fn test_symbolic_data_roundtrip() {
    let two = rational(2, 1);
    let twelfth = rational(1, 12);

    let symbolic = two.pow(&twelfth);
    let data = ValueData::from_value(&symbolic);

    assert!(data.symbolic.is_some());
    assert!(data.corrupted);

    let recovered = data.to_value();
    assert!(recovered.is_symbolic());

    if let (Value::Symbolic(orig), Value::Symbolic(recov)) = (&symbolic, &recovered) {
        assert_eq!(orig.powers.len(), recov.powers.len());
        assert_eq!(orig.powers[0].base, recov.powers[0].base);
        let a: Float = orig.to_approx();
        let b: Float = recov.to_approx();
        assert!((a.0 - b.0).abs() < 1e-10);
    }
}

#[test]
fn test_symbolic_rational_multiplication() {
    let two = rational(2, 1);
    let twelfth = rational(1, 12);
    let five = rational(5, 1);

    let symbolic = two.pow(&twelfth);
    let result = five.mul(&symbolic);

    assert!(result.is_symbolic());

    if let Value::Symbolic(sp) = &result {
        assert_eq!(fraction_to_f64(&sp.coefficient), 5.0);
        assert_eq!(sp.powers.len(), 1);
        assert_eq!(sp.powers[0].base, 2);
    }

    let expected = 5.0 * 2.0_f64.powf(1.0 / 12.0);
    assert!((to_f64(&result) - expected).abs() < 1e-10);
}

fn exact(v: &V) -> String {
    match v {
        Value::Rational(f) => f.to_string_repr(),
        _ => panic!("expected an exact rational"),
    }
}

fn terms(v: &V) -> (String, Vec<(u32, String)>) {
    match v {
        Value::Symbolic(sp) => (
            sp.coefficient.to_string_repr(),
            sp.powers.iter().map(|p| (p.base, p.exponent.to_string_repr())).collect(),
        ),
        _ => panic!("expected a symbolic power"),
    }
}

#[test]
fn exactness_is_preserved() {
    assert_eq!(exact(&rational(3, 4).mul(&rational(2, 9))), "1/6");
    assert_eq!(exact(&rational(3, 4).add(&rational(2, 9))), "35/36");
    assert_eq!(exact(&rational(3, 4).sub(&rational(2, 9))), "19/36");
    assert_eq!(exact(&rational(3, 4).div(&rational(2, 9))), "27/8");
    assert_eq!(exact(&rational(3, 4).div(&rational(0, 1))), "1");
    assert_eq!(exact(&rational(3, 4).pow(&rational(3, 1))), "27/64");
    assert_eq!(exact(&rational(3, 4).pow(&rational(-2, 1))), "16/9");
    assert_eq!(exact(&rational(4, 1).pow(&rational(1, 2))), "2");
    assert_eq!(exact(&rational(8, 1).pow(&rational(1, 3))), "2");
    assert_eq!(exact(&rational(8, 27).pow(&rational(2, 3))), "4/9");
    assert_eq!(exact(&rational(-8, 1).pow(&rational(1, 3))), "-2");
    assert_eq!(exact(&rational(0, 1).pow(&rational(-2, 1))), "1");
    assert_eq!(exact(&rational(3, 4).neg()), "-3/4");
    assert_eq!(exact(&rational(-3, 4).abs()), "3/4");
    assert_eq!(exact(&rational(-3, 4).inverse()), "-4/3");
}

#[test]
fn exactness_degrades_as_told() {
    let semitone = rational(2, 1).pow(&rational(1, 12));
    assert_eq!(terms(&semitone), ("1".to_string(), vec![(2, "1/12".to_string())]));

    let tone = semitone.mul(&semitone);
    assert_eq!(terms(&tone), ("1".to_string(), vec![(2, "1/6".to_string())]));

    let down = rational(2, 1).pow(&rational(-1, 12));
    assert_eq!(exact(&semitone.mul(&down)), "1");
    assert_eq!(exact(&semitone.div(&semitone)), "1");

    let other = rational(3, 1).pow(&rational(1, 13));
    assert_eq!(
        terms(&other.mul(&semitone)),
        ("1".to_string(), vec![(2, "1/12".to_string()), (3, "1/13".to_string())])
    );
    assert_eq!(
        terms(&semitone.div(&other)),
        ("1".to_string(), vec![(2, "1/12".to_string()), (3, "-1/13".to_string())])
    );

    assert!(matches!(semitone.add(&semitone), Value::Irrational(_)));
    assert!(matches!(semitone.sub(&rational(1, 1)), Value::Irrational(_)));
    assert!(matches!(rational(1, 1).add(&semitone), Value::Irrational(_)));
    assert!(matches!(rational(1, 2).pow(&rational(1, 2)), Value::Irrational(_)));
    assert!(matches!(rational(-2, 1).pow(&rational(1, 2)), Value::Irrational(_)));
    assert!(matches!(rational(2, 1).pow(&semitone), Value::Irrational(_)));
    assert!(matches!(irrational(2.0).mul(&rational(2, 1)), Value::Irrational(_)));
    assert!(matches!(irrational(2.0).neg(), Value::Irrational(_)));
    assert!(matches!(irrational(2.0).div(&rational(2, 1)), Value::Irrational(_)));
    assert_eq!(exact(&irrational(2.0).div(&rational(0, 1))), "1");
    assert_eq!(exact(&irrational(0.0).inverse()), "1");
    assert!((to_f64(&irrational(4.0).inverse()) - 0.25).abs() < 1e-12);
}

#[test]
fn twelve_semitones_make_an_octave() {
    let semitone = rational(2, 1).pow(&rational(1, 12));
    let mut product = semitone.clone();
    for _ in 0..11 {
        product = product.mul(&semitone);
    }
    assert_eq!(exact(&product), "2");
}

#[test]
fn symbolic_values_scale_and_fold() {
    let semitone = rational(2, 1).pow(&rational(1, 12));
    let scaled = semitone.mul(&rational(3, 2));
    assert_eq!(terms(&scaled), ("3/2".to_string(), vec![(2, "1/12".to_string())]));
    assert_eq!(terms(&scaled.neg()), ("-3/2".to_string(), vec![(2, "1/12".to_string())]));
    assert_eq!(terms(&scaled.neg().abs()), ("3/2".to_string(), vec![(2, "1/12".to_string())]));
    assert_eq!(terms(&scaled.inverse()), ("2/3".to_string(), vec![(2, "-1/12".to_string())]));
    assert_eq!(terms(&scaled.div(&rational(3, 1))), ("1/2".to_string(), vec![(2, "1/12".to_string())]));
    assert_eq!(terms(&rational(3, 1).div(&semitone)), ("3".to_string(), vec![(2, "-1/12".to_string())]));
    assert_eq!(exact(&semitone.pow(&rational(12, 1))), "2");
    assert_eq!(exact(&semitone.pow(&rational(24, 1))), "4");
    assert_eq!(exact(&semitone.pow(&rational(0, 1))), "1");
    assert_eq!(terms(&semitone.pow(&rational(6, 1))), ("1".to_string(), vec![(2, "1/2".to_string())]));
    let fourth = rational(4, 1).mul(&semitone);
    assert_eq!(terms(&fourth.pow(&rational(1, 2))), ("2".to_string(), vec![(2, "1/24".to_string())]));
}

#[test]
fn symbolic_power_operations() {
    let unsorted = SymbolicPower::new(
        Fraction::new(1, 1),
        vec![
            PowerTerm { base: 5, exponent: Fraction::new(1, 2) },
            PowerTerm { base: 3, exponent: Fraction::new(0, 1) },
            PowerTerm { base: 2, exponent: Fraction::new(1, 3) },
        ],
    );
    let normal = unsorted.normalize();
    let bases: Vec<u32> = normal.powers.iter().map(|p| p.base).collect();
    assert_eq!(bases, vec![2, 5]);

    let whole = SymbolicPower::new(
        Fraction::new(3, 4),
        vec![
            PowerTerm { base: 2, exponent: Fraction::new(3, 1) },
            PowerTerm { base: 3, exponent: Fraction::new(-2, 1) },
        ],
    );
    assert!(whole.is_rational());
    assert_eq!(whole.to_rational_fraction().unwrap().to_string_repr(), "2/3");
    let big = SymbolicPower::new(
        Fraction::new(1, 1),
        vec![PowerTerm { base: 2, exponent: Fraction::new(40, 1) }],
    );
    assert_eq!(big.to_rational_fraction().unwrap().to_string_repr(), "1099511627776");

    let root = SymbolicPower::from_power(2, Fraction::new(1, 2));
    assert!(!root.is_rational());
    assert!(root.to_rational_fraction().is_none());
    assert!(SymbolicPower::from_rational(Fraction::new(5, 1)).is_rational());
    let raised = root.pow::<Float>(&Fraction::new(2, 1));
    assert_eq!(raised.to_rational_fraction().unwrap().to_string_repr(), "2");
    let scaled = root.mul_rational(&Fraction::new(7, 2));
    assert_eq!(scaled.coefficient.to_string_repr(), "7/2");
    assert_eq!(scaled.powers.len(), 1);
    let approx: Float = root.to_approx();
    assert!((approx.0 - std::f64::consts::SQRT_2).abs() < 1e-12);
}

#[test]
fn products_and_quotients_stay_in_normal_form() {
    let a = SymbolicPower::new(
        Fraction::new(1, 1),
        vec![
            PowerTerm { base: 2, exponent: Fraction::new(1, 2) },
            PowerTerm { base: 5, exponent: Fraction::new(1, 3) },
            PowerTerm { base: 7, exponent: Fraction::new(1, 5) },
        ],
    );
    let b = SymbolicPower::new(
        Fraction::new(2, 1),
        vec![
            PowerTerm { base: 3, exponent: Fraction::new(1, 2) },
            PowerTerm { base: 5, exponent: Fraction::new(-1, 3) },
            PowerTerm { base: 7, exponent: Fraction::new(1, 5) },
        ],
    );
    let listed = |sp: &SymbolicPower| -> Vec<(u32, String)> {
        sp.powers.iter().map(|p| (p.base, p.exponent.to_string_repr())).collect()
    };
    let product = a.mul(&b);
    assert_eq!(product.coefficient.to_string_repr(), "2");
    assert_eq!(
        listed(&product),
        vec![(2, "1/2".to_string()), (3, "1/2".to_string()), (7, "2/5".to_string())]
    );
    let quotient = a.div(&b);
    assert_eq!(quotient.coefficient.to_string_repr(), "1/2");
    assert_eq!(
        listed(&quotient),
        vec![(2, "1/2".to_string()), (3, "-1/2".to_string()), (5, "2/3".to_string())]
    );
    let squared = a.pow::<Float>(&Fraction::new(2, 1));
    assert_eq!(
        listed(&squared),
        vec![(2, "1".to_string()), (5, "2/3".to_string()), (7, "2/5".to_string())]
    );
}

#[test]
fn conversions_between_forms() {
    let half = rational(1, 2);
    assert!(half.as_fraction().is_some());
    assert_eq!(half.to_fraction().to_string_repr(), "1/2");
    assert_eq!(half.to_symbolic().coefficient.to_string_repr(), "1/2");
    let semitone = rational(2, 1).pow(&rational(1, 12));
    assert!(semitone.as_fraction().is_none());
    assert_eq!(semitone.to_symbolic().powers.len(), 1);
    let approx = irrational(0.5);
    assert_eq!(approx.to_fraction().to_string_repr(), "1/2");
    assert_eq!(approx.to_symbolic().powers.len(), 0);
    let zero: V = Value::default();
    assert_eq!(exact(&zero), "0");
    let from: V = Value::from_fraction(Fraction::new(2, 3));
    assert_eq!(exact(&from), "2/3");
    let sym: V = Value::symbolic(SymbolicPower::from_power(3, Fraction::new(1, 2)));
    assert!(sym.is_symbolic());
}

#[test]
fn powers_and_roots_of_integers() {
    assert_eq!(checked_power(2, 10), Some(1024));
    assert_eq!(checked_power(2, 63), Some(1 << 63));
    assert_eq!(checked_power(2, 64), None);
    assert_eq!(checked_power(0, 0), Some(1));
    assert_eq!(checked_power(0, 5), Some(0));
    assert_eq!(checked_power(1, u64::MAX), Some(1));
    assert_eq!(checked_power(u64::MAX, 1), Some(u64::MAX));
    assert_eq!(checked_power(u64::MAX, 2), None);

    assert_eq!(integer_nth_root(0, 0), Some(0));
    assert_eq!(integer_nth_root(0, 5), Some(0));
    assert_eq!(integer_nth_root(1, 0), Some(1));
    assert_eq!(integer_nth_root(1, 99), Some(1));
    assert_eq!(integer_nth_root(77, 1), Some(77));
    assert_eq!(integer_nth_root(77, 0), None);
    assert_eq!(integer_nth_root(2, 64), None);
    assert_eq!(integer_nth_root(2, u64::MAX), None);
    assert_eq!(integer_nth_root(1 << 62, 2), Some(1 << 31));
    assert_eq!(integer_nth_root(1 << 63, 63), Some(2));
    assert_eq!(integer_nth_root(u64::MAX, 2), None);
    assert_eq!(integer_nth_root(18446744065119617025, 2), Some(4294967295));
    assert_eq!(integer_nth_root(18446744065119617024, 2), None);
    assert_eq!(integer_nth_root(3486784401, 20), Some(3));
}

#[test]
fn rational_powers() {
    assert_eq!(rational_int_power(&Fraction::new(2, 3), 5).to_string_repr(), "32/243");
    assert_eq!(rational_int_power(&Fraction::new(2, 3), -5).to_string_repr(), "243/32");
    assert_eq!(rational_int_power(&Fraction::new(2, 3), 0).to_string_repr(), "1");
    assert_eq!(rational_int_power(&Fraction::new(-2, 1), 3).to_string_repr(), "-8");
    assert_eq!(rational_int_power(&Fraction::new(0, 1), -3).to_string_repr(), "1");
    assert_eq!(rational_int_power(&Fraction::new(2, 1), 100).to_string_repr(), "1267650600228229401496703205376");

    assert_eq!(try_perfect_nth_root(&Fraction::new(9, 16), 2).unwrap().to_string_repr(), "3/4");
    assert_eq!(try_perfect_nth_root(&Fraction::new(-27, 8), 3).unwrap().to_string_repr(), "-3/2");
    assert!(try_perfect_nth_root(&Fraction::new(-9, 16), 2).is_none());
    assert!(try_perfect_nth_root(&Fraction::new(9, 15), 2).is_none());
    assert!(try_perfect_nth_root(&Fraction::new(9, 16), 0).is_none());
    assert_eq!(try_perfect_nth_root(&Fraction::new(9, 15), 1).unwrap().to_string_repr(), "3/5");
    assert_eq!(try_perfect_nth_root(&Fraction::new(0, 1), 4).unwrap().to_string_repr(), "0");

    assert_eq!(try_rational_power(&Fraction::new(4, 9), &Fraction::new(3, 2)).unwrap().to_string_repr(), "8/27");
    assert_eq!(try_rational_power(&Fraction::new(4, 9), &Fraction::new(-1, 2)).unwrap().to_string_repr(), "3/2");
    assert_eq!(try_rational_power(&Fraction::new(7, 9), &Fraction::new(0, 5)).unwrap().to_string_repr(), "1");
    assert!(try_rational_power(&Fraction::new(2, 1), &Fraction::new(1, 2)).is_none());
}

#[test]
fn records_in_small_parts() {
    let f = Fraction::new(-6, 8);
    let simple = SimpleFraction::from_fraction(&f);
    assert_eq!((simple.s, simple.n, simple.d), (-1, 3, 4));
    assert_eq!(simple.to_fraction().to_string_repr(), "-3/4");
    assert_eq!((SimpleFraction { s: 1, n: 5, d: 0 }).to_fraction().to_string_repr(), "0");
    assert_eq!((SimpleFraction { s: -1, n: u32::MAX, d: 1 }).to_fraction().to_string_repr(), "-4294967295");

    let sp = SymbolicPower::new(
        Fraction::new(3, 2),
        vec![PowerTerm { base: 2, exponent: Fraction::new(-1, 12) }],
    );
    let data = SymbolicPowerData::from_symbolic(&sp);
    assert_eq!((data.coefficient.s, data.coefficient.n, data.coefficient.d), (1, 3, 2));
    assert_eq!(data.powers.len(), 1);
    assert_eq!(data.powers[0].base, 2);
    assert_eq!((data.powers[0].exp.s, data.powers[0].exp.n, data.powers[0].exp.d), (-1, 1, 12));
    let back = data.to_symbolic();
    assert_eq!(back.coefficient.to_string_repr(), "3/2");
    assert_eq!(back.powers[0].exponent.to_string_repr(), "-1/12");

    let record: ValueData<Float> = ValueData::from_fraction(&Fraction::new(5, 10));
    assert_eq!((record.s, record.n, record.d), (Some(1), Some(1), Some(2)));
    assert!(!record.corrupted);
    assert_eq!(record.to_fraction().to_string_repr(), "1/2");
    assert_eq!(record.to_approx().0, 0.5);
    let empty: ValueData<Float> = ValueData::default();
    assert_eq!(exact(&empty.to_value()), "0");
    let approximate = ValueData::from_value(&irrational(0.75));
    assert!(approximate.corrupted);
    assert_eq!(approximate.s, None);
    assert_eq!(approximate.to_approx().0, 0.75);
    assert_eq!(approximate.to_fraction().to_string_repr(), "3/4");
}

#[test]
fn corruption_flags() {
    assert_eq!(corruption_flag_for_var(0), CORRUPT_START_TIME);
    assert_eq!(corruption_flag_for_var(1), CORRUPT_DURATION);
    assert_eq!(corruption_flag_for_var(2), CORRUPT_FREQUENCY);
    assert_eq!(corruption_flag_for_var(3), CORRUPT_TEMPO);
    assert_eq!(corruption_flag_for_var(4), CORRUPT_BEATS_PER_MEASURE);
    assert_eq!(corruption_flag_for_var(5), CORRUPT_MEASURE_LENGTH);
    assert_eq!(corruption_flag_for_var(6), 0);
    assert_eq!(
        [CORRUPT_START_TIME, CORRUPT_DURATION, CORRUPT_FREQUENCY, CORRUPT_TEMPO, CORRUPT_BEATS_PER_MEASURE, CORRUPT_MEASURE_LENGTH],
        [0x01, 0x02, 0x04, 0x08, 0x10, 0x20]
    );
}

#[test]
fn like_bases_combine_whatever_the_order_of_the_terms() {
    let listed = |sp: &SymbolicPower| -> Vec<(u32, String)> {
        sp.powers.iter().map(|p| (p.base, p.exponent.to_string_repr())).collect()
    };
    let unsorted = SymbolicPower::new(
        Fraction::new(1, 1),
        vec![
            PowerTerm { base: 3, exponent: Fraction::new(1, 1) },
            PowerTerm { base: 2, exponent: Fraction::new(1, 1) },
        ],
    );
    let two = SymbolicPower::from_power(2, Fraction::new(1, 1));
    assert_eq!(
        listed(&unsorted.mul(&two)),
        vec![(2, "2".to_string()), (3, "1".to_string())]
    );
    assert_eq!(listed(&unsorted.div(&two)), vec![(3, "1".to_string())]);
    assert_eq!(
        listed(&two.div(&unsorted)),
        vec![(3, "-1".to_string())]
    );

    let twice = SymbolicPower::new(
        Fraction::new(1, 1),
        vec![
            PowerTerm { base: 5, exponent: Fraction::new(1, 2) },
            PowerTerm { base: 5, exponent: Fraction::new(1, 3) },
        ],
    );
    let one = SymbolicPower::from_rational(Fraction::new(1, 1));
    assert_eq!(listed(&twice.mul(&one)), vec![(5, "1/3".to_string())]);
    assert_eq!(listed(&one.mul(&twice)), vec![(5, "5/6".to_string())]);
}
