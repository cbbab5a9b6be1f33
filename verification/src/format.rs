//! Display formatting of the text-encoded numeric fields of a ticker.
//!
//! Each function reads its argument as a decimal literal, takes the
//! binary64 number nearest to it, and falls back to a fixed answer where the
//! argument is no literal. None of them fails.

use crate::binary64::{lemma_zero_exactly, negative_part, positive_part, Binary64};
use crate::decimal::parse_binary64;
use crate::digits::{lemma_pow10_positive, pow10};
use crate::literal::{parse_literal, Literal};
use vstd::arithmetic::power2::{lemma_pow2_pos, pow2};
use vstd::prelude::*;
use vstd::string::StringExecFns;

verus! {

/// The colour that a signed change is shown in.
#[derive(Clone, Copy, Debug, PartialEq, Eq, Structural)]
pub enum ColorClass {
    /// A gain.
    Positive,
    /// A loss.
    Negative,
    /// No change, or nothing that can be read as one.
    Neutral,
}

/// Volumes above this are shown in millions.
pub const MILLION: u32 = 1_000_000;

/// Volumes above this, up to a million, are shown in thousands.
pub const THOUSAND: u32 = 1_000;

impl ColorClass {
    /// The style class of the colour.
    pub open spec fn style(self) -> Seq<char> {
        match self {
            ColorClass::Positive => "text-green-500"@,
            ColorClass::Negative => "text-red-500"@,
            ColorClass::Neutral => "text-gray-400"@,
        }
    }

    /// The style class of the colour.
    pub fn css_class(self) -> (r: &'static str)
        ensures
            r@ == self.style(),
    {
        match self {
            ColorClass::Positive => "text-green-500",
            ColorClass::Negative => "text-red-500",
            ColorClass::Neutral => "text-gray-400",
        }
    }
}

/// The colour of a change: positive above zero, negative below it, neutral
/// at zero and for text that is no number.
pub open spec fn change_class(value: Seq<char>) -> ColorClass {
    match parse_binary64(value) {
        Some(number) => if number.is_above(0) {
            ColorClass::Positive
        } else if number.is_below_zero() {
            ColorClass::Negative
        } else {
            ColorClass::Neutral
        },
        None => ColorClass::Neutral,
    }
}

/// A volume as it is shown: in millions above a million, in thousands above
/// a thousand, each with two digits behind the point and its letter;
/// anything else, a number or not, as it came.
pub open spec fn volume_text(volume: Seq<char>) -> Seq<char> {
    match parse_binary64(volume) {
        Some(number) => if number.is_above(MILLION as nat) {
            number.quotient(MILLION as nat).two_places() + seq!['M']
        } else if number.is_above(THOUSAND as nat) {
            number.quotient(THOUSAND as nat).two_places() + seq!['K']
        } else {
            volume
        },
        None => volume,
    }
}

/// A number as it is shown: with two digits behind the point; text that is
/// no number, as it came.
pub open spec fn number_text(number: Seq<char>) -> Seq<char> {
    match parse_binary64(number) {
        Some(parsed) => parsed.two_places(),
        None => number,
    }
}

/// Classifies a change by its sign.
pub fn price_change_class(value: &str) -> (r: ColorClass)
    ensures
        r == change_class(value@),
{
    match Binary64::parse(value) {
        Some(number) => {
            if number.exceeds(0) {
                ColorClass::Positive
            } else if number.is_negative() {
                ColorClass::Negative
            } else {
                ColorClass::Neutral
            }
        },
        None => ColorClass::Neutral,
    }
}

/// The style class in which a change is shown.
pub fn get_price_change_class(price_change: &str) -> (r: &'static str)
    ensures
        r@ == change_class(price_change@).style(),
{
    price_change_class(price_change).css_class()
}

/// Abbreviates a volume.
pub fn format_volume(volume: &str) -> (r: String)
    ensures
        r@ == volume_text(volume@),
{
    proof {
        reveal_strlit("M");
        reveal_strlit("K");
    }
    match Binary64::parse(volume) {
        Some(number) => {
            if number.exceeds(MILLION) {
                let mut out = number.divided_by(MILLION).to_two_places();
                out.append("M");
                assert(out@ =~= number.quotient(MILLION as nat).two_places() + seq!['M']);
                out
            } else if number.exceeds(THOUSAND) {
                let mut out = number.divided_by(THOUSAND).to_two_places();
                out.append("K");
                assert(out@ =~= number.quotient(THOUSAND as nat).two_places() + seq!['K']);
                out
            } else {
                String::from_str(volume)
            }
        },
        None => String::from_str(volume),
    }
}

/// Writes a number with two digits behind the point.
pub fn format_number(number: &str) -> (r: String)
    ensures
        r@ == number_text(number@),
{
    match Binary64::parse(number) {
        Some(parsed) => parsed.to_two_places(),
        None => String::from_str(number),
    }
}

/// The colour of a change, told from the literal itself. A number is
/// neutral where it is no more than `2^-1075` in magnitude, since it then
/// rounds to zero; else it has the colour of its sign, as an infinity has.
/// What is no number, and text that is no literal, are neutral.
pub proof fn lemma_change_follows_sign(value: Seq<char>)
    ensures
        change_class(value) == match parse_literal(value) {
            Some(Literal::Number { negative, coefficient, exponent }) => if coefficient * pow10(
                positive_part(exponent),
            ) * pow2(1075) <= pow10(negative_part(exponent)) {
                ColorClass::Neutral
            } else if negative {
                ColorClass::Negative
            } else {
                ColorClass::Positive
            },
            Some(Literal::Infinity { negative }) => if negative {
                ColorClass::Negative
            } else {
                ColorClass::Positive
            },
            _ => ColorClass::Neutral,
        },
{
    match parse_literal(value) {
        Some(Literal::Number { negative, coefficient, exponent }) => {
            let num = coefficient * pow10(positive_part(exponent));
            let den = pow10(negative_part(exponent));
            lemma_pow10_positive(negative_part(exponent));
            lemma_zero_exactly(negative, num, den);
            let number = parse_binary64(value)->0;
            assert(number == crate::binary64::nearest_binary64(negative, num, den));
            if let Binary64::Finite { negative: sign, mantissa, exponent: x } = number {
                assert(sign == negative);
                lemma_pow2_pos(positive_part(x as int));
                lemma_pow2_pos(negative_part(x as int));
                let up = pow2(positive_part(x as int));
                assert(0 * pow2(negative_part(x as int)) == 0);
                if mantissa > 0 {
                    assert(mantissa * up > 0) by (nonlinear_arith)
                        requires
                            mantissa > 0,
                            up > 0,
                    ;
                } else {
                    assert(0 * up == 0);
                }
            }
        },
        _ => {},
    }
}

} // verus!
