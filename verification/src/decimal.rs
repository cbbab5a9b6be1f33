//! Decimal literals as binary64 numbers.

use crate::binary64::{
    lemma_nearest_of_equal_ratios, lemma_rounds_to_infinity, lemma_rounds_to_zero,
    nearest_binary64, negative_part, positive_part, round_ratio, rounds_to_infinity, Binary64,
    MIN_EXPONENT,
};
use crate::digits::{
    all_digits, digits_value, lemma_pow10_adds, lemma_pow10_monotonic, lemma_pow10_positive,
    lemma_value_at_least, lemma_value_below, lemma_value_shifted, pow10, top_digit,
};
use crate::literal::{clamp_exponent, parse_literal, scan, Literal, Scanned};
use crate::text::chars_of;
use vstd::arithmetic::power2::{
    lemma_pow2_adds, lemma_pow2_pos, lemma_pow2_strictly_increases, pow2,
};
use vstd::prelude::*;

verus! {

/// The binary64 number nearest to `coefficient * 10^exponent`.
pub open spec fn decimal_binary64(negative: bool, coefficient: nat, exponent: int) -> Binary64 {
    nearest_binary64(
        negative,
        coefficient * pow10(positive_part(exponent)),
        pow10(negative_part(exponent)),
    )
}

/// The binary64 number that a literal stands for.
pub open spec fn literal_binary64(literal: Literal) -> Binary64 {
    match literal {
        Literal::Number { negative, coefficient, exponent } => decimal_binary64(
            negative,
            coefficient,
            exponent,
        ),
        Literal::Infinity { negative } => Binary64::Infinite { negative },
        Literal::NotANumber => Binary64::NotANumber,
    }
}

/// The binary64 number that `s` stands for, if `s` is a literal.
pub open spec fn parse_binary64(s: Seq<char>) -> Option<Binary64> {
    match parse_literal(s) {
        Some(literal) => Some(literal_binary64(literal)),
        None => None,
    }
}

/// A zero at the end of the coefficient, made up for by the exponent, does
/// not change the number: `30`, `30.0` and `3e1` are read alike.
pub proof fn lemma_decimal_trailing_zero(negative: bool, coefficient: nat, exponent: int)
    ensures
        decimal_binary64(negative, 10 * coefficient, exponent - 1) == decimal_binary64(
            negative,
            coefficient,
            exponent,
        ),
{
    let up = pow10(positive_part(exponent));
    let down = pow10(negative_part(exponent));
    let up1 = pow10(positive_part(exponent - 1));
    let down1 = pow10(negative_part(exponent - 1));
    lemma_pow10_positive(negative_part(exponent));
    lemma_pow10_positive(negative_part(exponent - 1));
    lemma_pow10_adds(1, positive_part(exponent - 1));
    lemma_pow10_adds(1 + positive_part(exponent - 1), negative_part(exponent));
    lemma_pow10_adds(positive_part(exponent), negative_part(exponent - 1));
    assert(pow10(1) == 10) by {
        assert(pow10(0) == 1);
    }
    assert(1 + positive_part(exponent - 1) + negative_part(exponent) == positive_part(exponent)
        + negative_part(exponent - 1));
    assert((10 * up1) * down == up * down1);
    assert(((10 * coefficient) * up1) * down == (coefficient * up) * down1) by (nonlinear_arith)
        requires
            (10 * up1) * down == up * down1,
    ;
    lemma_nearest_of_equal_ratios(
        negative,
        (10 * coefficient) * up1,
        down1,
        coefficient * up,
        down,
    );
}

/// The magnitude beyond which a decimal is not looked at digit by digit:
/// `10^400` is far above every finite binary64 number, `10^-400` far below
/// the least positive one.
pub const DECIMAL_RANGE: i128 = 400;

/// Eight to a power is at most ten to that power.
proof fn lemma_pow10_above_pow2(k: nat)
    ensures
        pow2(3 * k) <= pow10(k),
    decreases k,
{
    vstd::arithmetic::power2::lemma2_to64();
    if k > 0 {
        lemma_pow10_above_pow2((k - 1) as nat);
        lemma_pow2_adds(3, 3 * (k - 1) as nat);
        assert(3 + 3 * (k - 1) as nat == 3 * k);
        assert(8 * pow2(3 * (k - 1) as nat) <= 10 * pow10((k - 1) as nat));
    }
}

/// A decimal of magnitude `10^400` or more rounds to infinity.
proof fn lemma_decimal_huge(coefficient: nat, top: nat, exponent: int)
    requires
        coefficient >= pow10(top),
        top + exponent >= DECIMAL_RANGE,
    ensures
        rounds_to_infinity(
            coefficient * pow10(positive_part(exponent)),
            pow10(negative_part(exponent)),
        ),
{
    let p = (top + exponent) as nat;
    let num = coefficient * pow10(positive_part(exponent));
    let den = pow10(negative_part(exponent));
    lemma_pow10_above_pow2(400);
    lemma_pow10_monotonic(400, p);
    lemma_pow2_strictly_increases(1024, 1200);
    assert(pow10(p) >= pow2(1024));
    lemma_pow10_positive(negative_part(exponent));
    if exponent >= 0 {
        lemma_pow10_adds(top, exponent as nat);
        assert(den == 1);
        assert(num >= pow10(p)) by (nonlinear_arith)
            requires
                num == coefficient * pow10(exponent as nat),
                coefficient >= pow10(top),
                pow10(p) == pow10(top) * pow10(exponent as nat),
        ;
        assert(den * pow2(1024) == pow2(1024));
    } else {
        lemma_pow10_adds(p, (-exponent) as nat);
        assert(p + (-exponent) as nat == top);
        assert(num == coefficient) by {
            assert(pow10(0) == 1);
            assert(coefficient * 1 == coefficient);
        }
        assert(num >= den * pow2(1024)) by (nonlinear_arith)
            requires
                num >= pow10(p) * den,
                pow10(p) >= pow2(1024),
                den > 0,
        ;
    }
    lemma_rounds_to_infinity(num, den);
}

/// A decimal of magnitude below `10^-399` rounds to zero.
proof fn lemma_decimal_tiny(negative: bool, coefficient: nat, top: nat, exponent: int)
    requires
        coefficient < pow10(top + 1),
        top + exponent <= -DECIMAL_RANGE,
    ensures
        decimal_binary64(negative, coefficient, exponent) == (Binary64::Finite {
            negative,
            mantissa: 0,
            exponent: MIN_EXPONENT,
        }),
{
    let k = (-(top + exponent) - 1) as nat;
    let num = coefficient * pow10(positive_part(exponent));
    let den = pow10(negative_part(exponent));
    assert(num == coefficient) by {
        assert(pow10(0) == 1);
        assert(coefficient * 1 == coefficient);
    }
    lemma_pow10_adds(top + 1, k);
    assert((top + 1) + k == (-exponent) as nat);
    lemma_pow10_above_pow2(399);
    lemma_pow10_monotonic(399, k);
    lemma_pow2_strictly_increases(1075, 1197);
    lemma_pow2_pos(1075);
    assert(num * pow2(1075) < den) by (nonlinear_arith)
        requires
            den == pow10(top + 1) * pow10(k),
            num < pow10(top + 1),
            pow10(k) >= pow2(1075),
            pow2(1075) > 0,
    ;
    lemma_rounds_to_zero(negative, num, den);
}

/// `count` zeros, then the digits of `above`.
fn shifted(count: i128, above: &Vec<u8>) -> (r: Vec<u8>)
    requires
        0 <= count,
        all_digits(above@),
    ensures
        all_digits(r@),
        digits_value(r@) == pow10(count as nat) * digits_value(above@),
{
    let mut out: Vec<u8> = Vec::new();
    let mut done: i128 = 0;
    while done < count
        invariant
            0 <= done <= count,
            out@.len() == done,
            forall|i: int| 0 <= i < out@.len() ==> out@[i] == 0,
        decreases count - done,
    {
        out.push(0);
        done += 1;
    }
    let ghost zeros = out@;
    let mut i: usize = 0;
    while i < above.len()
        invariant
            i <= above.len(),
            all_digits(above@),
            out@ == zeros + above@.take(i as int),
        decreases above.len() - i,
    {
        out.push(above[i]);
        proof {
            assert(above@.take(i + 1) =~= above@.take(i as int).push(above@[i as int]));
            assert(out@ =~= zeros + above@.take(i + 1));
        }
        i += 1;
    }
    proof {
        assert(above@.take(above@.len() as int) =~= above@);
        lemma_value_shifted(zeros, above@);
    }
    out
}

/// Rounds the decimal with the given digits, least significant first, and
/// exponent to the nearest binary64 number. `exponent` may be clamped.
fn from_decimal(negative: bool, digits: &Vec<u8>, exponent: i128, Ghost(e): Ghost<int>) -> (r:
    Binary64)
    requires
        all_digits(digits@),
        exponent == clamp_exponent(e),
    ensures
        r == decimal_binary64(negative, digits_value(digits@), e),
        r.wf(),
{
    let ghost c = digits_value(digits@);
    let zero = Binary64::Finite { negative, mantissa: 0, exponent: MIN_EXPONENT };
    let top = match top_digit(digits) {
        Some(top) => top,
        None => {
            proof {
                lemma_value_below(digits@, 0);
                lemma_pow10_positive(negative_part(e));
                lemma_pow2_pos(1075);
                assert(pow10(0) == 1);
                assert(c == 0);
                assert(c * pow10(positive_part(e)) == 0);
                assert(0 * pow2(1075) == 0);
                lemma_rounds_to_zero(negative, 0, pow10(negative_part(e)));
            }
            return zero;
        },
    };
    proof {
        lemma_value_at_least(digits@, top as int);
        lemma_value_below(digits@, (top + 1) as nat);
        lemma_pow10_positive(top as nat);
        assert(c >= pow10(top as nat)) by (nonlinear_arith)
            requires
                c >= digits@[top as int] as nat * pow10(top as nat),
                digits@[top as int] >= 1,
                pow10(top as nat) > 0,
        ;
    }
    let magnitude: i128 = top as i128 + exponent;
    if magnitude >= DECIMAL_RANGE {
        proof {
            lemma_decimal_huge(c, top as nat, e);
        }
        return Binary64::Infinite { negative };
    }
    if magnitude <= -DECIMAL_RANGE {
        proof {
            lemma_decimal_tiny(negative, c, top as nat, e);
        }
        return zero;
    }
    assert(exponent == e);
    let one: Vec<u8> = vec![1u8];
    proof {
        assert(one@ =~= Seq::<u8>::empty().push(1u8));
        crate::digits::lemma_value_push(Seq::<u8>::empty(), 1u8);
        assert(digits_value(Seq::<u8>::empty()) == 0);
        assert(pow10(0) == 1);
        assert(digits_value(one@) == 1);
    }
    if exponent >= 0 {
        let num = shifted(exponent, digits);
        proof {
            assert(pow10(exponent as nat) * c == c * pow10(exponent as nat)) by (nonlinear_arith);
        }
        round_ratio(negative, &num, &one)
    } else {
        let den = shifted(-exponent, &one);
        proof {
            lemma_pow10_positive((-exponent) as nat);
            assert(c * 1 == c);
            assert(pow10((-exponent) as nat) * 1 == pow10((-exponent) as nat));
        }
        round_ratio(negative, digits, &den)
    }
}

impl Binary64 {
    /// Reads a decimal literal as the binary64 number nearest to it.
    pub fn parse(s: &str) -> (r: Option<Binary64>)
        ensures
            r == parse_binary64(s@),
            r is Some ==> r->0.wf(),
    {
        let chars = chars_of(s);
        match scan(&chars) {
            None => None,
            Some(Scanned::Infinity { negative }) => Some(Binary64::Infinite { negative }),
            Some(Scanned::NotANumber) => Some(Binary64::NotANumber),
            Some(Scanned::Number { negative, digits, exponent }) => {
                let ghost e = parse_literal(s@)->0->exponent;
                Some(from_decimal(negative, &digits, exponent, Ghost(e)))
            },
        }
    }
}

} // verus!
