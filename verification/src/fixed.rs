//! Binary64 numbers written with two digits behind the point.

use crate::arith::power_of_two;
use crate::binary64::{nearest_integer, negative_part, positive_part, Binary64};
use crate::digits::{digit_char, digit_str, digits_of, numeral, numeral_text, scale_pow2};
use vstd::arithmetic::power2::{
    lemma2_to64, lemma2_to64_rest, lemma_pow2_strictly_increases, pow2,
};
use vstd::prelude::*;
use vstd::string::StringExecFns;

verus! {

/// The sign as it is written: a minus, or nothing.
pub open spec fn sign_text(negative: bool) -> Seq<char> {
    if negative {
        seq!['-']
    } else {
        Seq::<char>::empty()
    }
}

/// A count of hundredths written as a number with two digits behind the
/// point.
pub open spec fn hundredths_text(h: nat) -> Seq<char> {
    numeral(h / 100) + seq!['.'] + seq![digit_char(h / 10 % 10)] + seq![digit_char(h % 10)]
}

impl Binary64 {
    /// A hundred times the magnitude of a finite number, rounded to the
    /// nearest integer; of two equally near, the even one.
    pub open spec fn hundredths(self) -> nat
        recommends
            self is Finite,
    {
        let mantissa = self->mantissa;
        let exponent = self->exponent;
        nearest_integer(
            100 * (mantissa as nat * pow2(positive_part(exponent as int))),
            pow2(negative_part(exponent as int)),
        )
    }

    /// The number written with two digits behind the point, rounded to
    /// them where it has more. Zero and what rounds to zero keep their
    /// sign. An infinity is `inf` with its sign; what is no number is `NaN`.
    pub open spec fn two_places(self) -> Seq<char> {
        match self {
            Binary64::Finite { negative, mantissa, exponent } => sign_text(negative)
                + hundredths_text(self.hundredths()),
            Binary64::Infinite { negative } => sign_text(negative) + seq!['i', 'n', 'f'],
            Binary64::NotANumber => seq!['N', 'a', 'N'],
        }
    }

    /// Writes the number with two digits behind the point.
    pub fn to_two_places(&self) -> (r: String)
        requires
            self.wf(),
        ensures
            r@ == self.two_places(),
    {
        proof {
            reveal_strlit("-");
            reveal_strlit(".");
            reveal_strlit("inf");
            reveal_strlit("NaN");
            reveal_strlit("");
        }
        match *self {
            Binary64::Finite { negative, mantissa, exponent } => {
                let mut out = String::from_str(
                    if negative {
                        "-"
                    } else {
                        ""
                    },
                );
                assert(out@ =~= sign_text(negative));
                if exponent >= 0 {
                    let whole = scale_pow2(&digits_of(mantissa), exponent as u32);
                    let text = numeral_text(&whole);
                    proof {
                        let v = mantissa as nat * pow2(exponent as nat);
                        lemma2_to64();
                        assert(self.hundredths() == nearest_integer(100 * v, 1));
                        assert(nearest_integer(100 * v, 1) == 100 * v);
                    }
                    out.append(text.as_str());
                    out.append(".");
                    out.append(digit_str(0));
                    out.append(digit_str(0));
                    proof {
                        let h = self.hundredths();
                        assert(out@ =~= sign_text(negative) + hundredths_text(h));
                    }
                    out
                } else {
                    let h: u64 = round_hundredths(mantissa, (-exponent) as u32);
                    assert(mantissa as nat * pow2(0) == mantissa) by {
                        lemma2_to64();
                        assert(pow2(0) == 1);
                        assert(mantissa as nat * 1 == mantissa);
                    }
                    let text = numeral_text(&digits_of(h / 100));
                    out.append(text.as_str());
                    out.append(".");
                    out.append(digit_str((h / 10 % 10) as u8));
                    out.append(digit_str((h % 10) as u8));
                    proof {
                        assert(out@ =~= sign_text(negative) + hundredths_text(h as nat));
                    }
                    out
                }
            },
            Binary64::Infinite { negative } => {
                let mut out = String::from_str(
                    if negative {
                        "-"
                    } else {
                        ""
                    },
                );
                out.append("inf");
                assert(out@ =~= sign_text(negative) + seq!['i', 'n', 'f']);
                out
            },
            Binary64::NotANumber => {
                let out = String::from_str("NaN");
                assert(out@ =~= seq!['N', 'a', 'N']);
                out
            },
        }
    }
}

/// A hundred times `mantissa / 2^shift`, rounded to the nearest integer; of
/// two equally near, the even one.
fn round_hundredths(mantissa: u64, shift: u32) -> (h: u64)
    requires
        mantissa < 0x20_0000_0000_0000,
        shift > 0,
    ensures
        h == nearest_integer(100 * mantissa as nat, pow2(shift as nat)),
{
    let scaled: u128 = 100 * (mantissa as u128);
    proof {
        lemma2_to64();
        lemma2_to64_rest();
    }
    if shift >= 64 {
        proof {
            if shift > 64 {
                lemma_pow2_strictly_increases(64, shift as nat);
            }
            let d = pow2(shift as nat);
            vstd::arithmetic::div_mod::lemma_small_mod(scaled as nat, d);
            vstd::arithmetic::div_mod::lemma_basic_div(scaled as int, d as int);
        }
        return 0;
    }
    let unit: u128 = power_of_two(shift) as u128;
    let q: u128 = scaled / unit;
    let r: u128 = scaled % unit;
    proof {
        vstd::arithmetic::div_mod::lemma_div_is_ordered_by_denominator(
            scaled as int,
            1,
            unit as int,
        );
    }
    if 2 * r > unit || (2 * r == unit && q % 2 == 1) {
        (q + 1) as u64
    } else {
        q as u64
    }
}

} // verus!
