//! Fractions from text: `n/d`, a whole number, or a decimal.

use crate::bignum::big_parse;
use crate::bignum::big_sign;
use crate::bignum::big_value;
use crate::bignum::parsed_decimal;
use crate::decimal::decimal_to_fraction;
use crate::decimal::distance;
use crate::decimal::fine_tolerance;
use crate::decimal::parse_decimal;
use crate::decimal::spec_decimal_to_fraction;
use crate::decimal::spec_parse_decimal;
use crate::fraction::Fraction;
use crate::rational::Rat;
use crate::text::find;
use crate::text::first_occurrence;
use crate::text::occurs_at;
use crate::text::slice_of;
use crate::text::trim;
use crate::text::trimmed;
use num_bigint::BigInt;
use vstd::prelude::*;
use vstd::string::StringSliceAdditionalSpecFns;

verus! {

/// Why a text is not a fraction.
#[derive(Debug, Clone, Copy, PartialEq, Eq, Structural)]
pub enum FractionParseError {
    /// The text in front of `/` is no whole number.
    InvalidNumerator,
    /// The text behind `/` is no whole number.
    InvalidDenominator,
    /// The denominator is zero.
    DivisionByZero,
    /// The text is neither `n/d` nor a number.
    NotANumber,
}

/// The fraction that a decimal stands for: the nearest whole number where
/// the decimal is within one in ten thousand million of it, and otherwise
/// the common or nearest fraction as in expression text.
pub open spec fn snapped(v: Rat) -> Rat {
    if distance(v.absolute(), Rat::from_int(v.absolute().rounded())).less_than(fine_tolerance()) {
        Rat::from_int(v.rounded())
    } else {
        let c = spec_decimal_to_fraction(v);
        if c.1 == 0 {
            Rat::zero()
        } else {
            Rat::canon(c.0, c.1)
        }
    }
}

/// The fraction of a numerator and a denominator as they were read, each a
/// whole number or nothing: the quotient in lowest terms, or what is wrong
/// with the first part that is.
pub open spec fn fraction_of_parts(num: Option<int>, den: Option<int>) -> Result<
    Rat,
    FractionParseError,
> {
    match num {
        None => Err(FractionParseError::InvalidNumerator),
        Some(n) => match den {
            None => Err(FractionParseError::InvalidDenominator),
            Some(d) => if d == 0 {
                Err(FractionParseError::DivisionByZero)
            } else {
                Ok(Rat::canon(n, d))
            },
        },
    }
}

/// The integer that an optional big integer denotes.
pub open spec fn optional_value(b: Option<BigInt>) -> Option<int> {
    match b {
        Some(v) => Some(big_value(v)),
        None => None,
    }
}

/// The fraction that a text denotes. Text with a `/` is a numerator and a
/// denominator, each a whole number as `num-bigint` reads it. Other text is
/// a decimal.
pub open spec fn spec_fraction_from_text(text: Seq<u8>) -> Result<Rat, FractionParseError> {
    let s = trimmed(text);
    let bar_text = "/".spec_bytes();
    let bar = first_occurrence(s, bar_text, 0);
    if occurs_at(s, bar_text, bar) {
        fraction_of_parts(
            parsed_decimal(trimmed(s.subrange(0, bar))),
            parsed_decimal(trimmed(s.subrange(bar + bar_text.len(), s.len() as int))),
        )
    } else {
        match spec_parse_decimal(s) {
            Some(v) => Ok(snapped(v)),
            None => Err(FractionParseError::NotANumber),
        }
    }
}

impl Fraction {
    /// The fraction that stands for a decimal: see [`snapped`].
    pub fn from_decimal(value: &Fraction) -> (r: Fraction)
        ensures
            r@ == snapped(value@),
    {
        let abs = value.abs();
        let fine = Fraction::new_raw(1, 10_000_000_000);
        if abs.sub(&abs.round_whole()).abs().compare(&fine) < 0 {
            value.round_whole()
        } else {
            let c = decimal_to_fraction(value);
            Fraction::new(c.0, c.1)
        }
    }

    /// The fraction of a numerator and a denominator as they were read,
    /// each a whole number or nothing. A missing numerator is reported
    /// before a missing denominator, and that before a zero denominator.
    pub fn from_parsed_parts(num: Option<BigInt>, den: Option<BigInt>) -> (r: Result<
        Fraction,
        FractionParseError,
    >)
        ensures
            match r {
                Ok(f) => fraction_of_parts(optional_value(num), optional_value(den)) == Ok::<
                    Rat,
                    FractionParseError,
                >(f@),
                Err(e) => fraction_of_parts(optional_value(num), optional_value(den)) == Err::<
                    Rat,
                    FractionParseError,
                >(e),
            },
    {
        let n = match num {
            Some(n) => n,
            None => {
                return Err(FractionParseError::InvalidNumerator);
            },
        };
        let d = match den {
            Some(d) => d,
            None => {
                return Err(FractionParseError::InvalidDenominator);
            },
        };
        if big_sign(&d) == 0 {
            return Err(FractionParseError::DivisionByZero);
        }
        Ok(Fraction::from_big_ints(n, d))
    }

    /// Reads a fraction from text: `n/d`, a whole number, or a decimal.
    pub fn from_string(s: &str) -> (r: Result<Fraction, FractionParseError>)
        ensures
            match r {
                Ok(f) => spec_fraction_from_text(s.spec_bytes()) == Ok::<Rat, FractionParseError>(
                    f@,
                ),
                Err(e) => spec_fraction_from_text(s.spec_bytes()) == Err::<
                    Rat,
                    FractionParseError,
                >(e),
            },
    {
        let text = trim(s.as_bytes());
        let bar_text = "/".as_bytes();
        let total = text.len();
        match find(text, bar_text) {
            Some(bar) => {
                let num = big_parse(trim(slice_of(text, 0, bar)));
                let den = big_parse(trim(slice_of(text, bar + bar_text.len(), total)));
                Fraction::from_parsed_parts(num, den)
            },
            None => match parse_decimal(text) {
                Some(v) => Ok(Fraction::from_decimal(&v)),
                None => Err(FractionParseError::NotANumber),
            },
        }
    }
}

} // verus!
