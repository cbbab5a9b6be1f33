//! Comparison with whole numbers, division by them, and the interchange
//! encoding of binary64 numbers.

use crate::binary64::{
    nearest_binary64, negative_part, positive_part, round_ratio, Binary64, TOP_BIT,
};
use crate::digits::{digits_of, scale_pow2};
use vstd::arithmetic::power2::{
    lemma2_to64, lemma2_to64_rest, lemma_pow2_pos, lemma_pow2_strictly_increases,
    lemma_pow2_unfold, pow2,
};
use vstd::prelude::*;

verus! {

/// The sign bit of the interchange encoding.
pub const SIGN_BIT: u64 = 0x8000_0000_0000_0000;

/// The encoding of positive infinity.
pub const INFINITY_BITS: u64 = 0x7ff0_0000_0000_0000;

/// The encoding of the quiet not-a-number without payload.
pub const NAN_BITS: u64 = 0x7ff8_0000_0000_0000;

impl Binary64 {
    /// The number is greater than `k`.
    pub open spec fn is_above(self, k: nat) -> bool {
        match self {
            Binary64::Finite { negative, mantissa, exponent } => !negative && mantissa * pow2(
                positive_part(exponent as int),
            ) > k * pow2(negative_part(exponent as int)),
            Binary64::Infinite { negative } => !negative,
            Binary64::NotANumber => false,
        }
    }

    /// The number is less than zero.
    pub open spec fn is_below_zero(self) -> bool {
        match self {
            Binary64::Finite { negative, mantissa, exponent } => negative && mantissa > 0,
            Binary64::Infinite { negative } => negative,
            Binary64::NotANumber => false,
        }
    }

    /// The binary64 number nearest to the number divided by `k`.
    pub open spec fn quotient(self, k: nat) -> Binary64 {
        match self {
            Binary64::Finite { negative, mantissa, exponent } => nearest_binary64(
                negative,
                mantissa as nat * pow2(positive_part(exponent as int)),
                k * pow2(negative_part(exponent as int)),
            ),
            _ => self,
        }
    }

    /// The place of the magnitude among all magnitudes in rising order,
    /// zero first and infinity last. What is no number is given the place
    /// of zero.
    pub open spec fn ordinal(self) -> int {
        match self {
            Binary64::Finite { negative, mantissa, exponent } => if mantissa >= TOP_BIT {
                (exponent + 1075) * TOP_BIT + (mantissa - TOP_BIT)
            } else {
                mantissa as int
            },
            Binary64::Infinite { negative } => INFINITY_BITS as int,
            Binary64::NotANumber => 0,
        }
    }

    /// The sign bit is set.
    pub open spec fn sign(self) -> bool {
        match self {
            Binary64::Finite { negative, mantissa, exponent } => negative,
            Binary64::Infinite { negative } => negative,
            Binary64::NotANumber => false,
        }
    }

    /// The place of the number among all numbers in rising order, counted
    /// from zero: the ordinal of its magnitude, negated below zero. Both
    /// zeros have the place zero, and so has what is no number.
    pub open spec fn rank(self) -> int {
        if self.sign() {
            -self.ordinal()
        } else {
            self.ordinal()
        }
    }

    /// The interchange encoding: sign, biased exponent and the mantissa
    /// without its top bit, from the highest bit down. What is no number is
    /// encoded as the quiet one without payload.
    pub open spec fn bits(self) -> u64 {
        if self is NotANumber {
            NAN_BITS
        } else if self.sign() {
            (SIGN_BIT + self.ordinal()) as u64
        } else {
            self.ordinal() as u64
        }
    }

    /// The number is a zero.
    pub open spec fn is_zero(self) -> bool {
        self is Finite && self->mantissa == 0
    }

    /// The magnitude is less than that of the other number.
    pub open spec fn magnitude_less(self, other: Binary64) -> bool {
        match (self, other) {
            (Binary64::Finite { .. }, Binary64::Finite { .. }) => self.magnitude_below(other),
            (Binary64::Finite { .. }, Binary64::Infinite { .. }) => true,
            _ => false,
        }
    }

    /// The number is less than the other. The two zeros are equal, and
    /// nothing is less or greater than what is no number.
    pub open spec fn below(self, other: Binary64) -> bool {
        if self is NotANumber || other is NotANumber {
            false
        } else if self.sign() != other.sign() {
            self.sign() && !(self.is_zero() && other.is_zero())
        } else if self.sign() {
            other.magnitude_less(self)
        } else {
            self.magnitude_less(other)
        }
    }

    /// The magnitude of one finite number is less than that of another.
    pub open spec fn magnitude_below(self, other: Binary64) -> bool
        recommends
            self is Finite,
            other is Finite,
    {
        let low = if self->exponent < other->exponent {
            self->exponent
        } else {
            other->exponent
        };
        self->mantissa * pow2((self->exponent - low) as nat) < other->mantissa * pow2(
            (other->exponent - low) as nat,
        )
    }

    /// Whether the number is greater than `k`.
    pub fn exceeds(&self, k: u32) -> (r: bool)
        requires
            self.wf(),
        ensures
            r == self.is_above(k as nat),
    {
        match *self {
            Binary64::Finite { negative, mantissa, exponent } => {
                proof {
                    lemma2_to64();
                    lemma2_to64_rest();
                }
                if negative || mantissa == 0 {
                    proof {
                        lemma_pow2_pos(negative_part(exponent as int));
                        assert(0 * pow2(positive_part(exponent as int)) == 0);
                        assert(k * pow2(negative_part(exponent as int)) >= 0) by (nonlinear_arith)
                            requires
                                pow2(negative_part(exponent as int)) > 0,
                                k >= 0,
                        ;
                    }
                    false
                } else if exponent >= 0 {
                    proof {
                        lemma_pow2_pos(exponent as nat);
                        assert(mantissa * pow2(exponent as nat) >= mantissa) by (nonlinear_arith)
                            requires
                                pow2(exponent as nat) > 0,
                        ;
                        assert(k * 1 == k);
                    }
                    true
                } else if exponent <= -64 {
                    proof {
                        let s = (-exponent) as nat;
                        assert(mantissa * 1 == mantissa);
                        if s > 64 {
                            lemma_pow2_strictly_increases(64, s);
                        }
                        if k > 0 {
                            assert(k * pow2(s) >= mantissa) by (nonlinear_arith)
                                requires
                                    k >= 1,
                                    pow2(s) >= 0x1_0000_0000_0000_0000,
                                    mantissa < 0x20_0000_0000_0000,
                            ;
                        } else {
                            assert(0 * pow2(s) == 0);
                        }
                    }
                    k == 0
                } else {
                    let unit: u128 = power_of_two((-exponent) as u32) as u128;
                    proof {
                        assert(mantissa * 1 == mantissa);
                        assert(k * unit <= 0xffff_ffff * unit) by (nonlinear_arith)
                            requires
                                k <= 0xffff_ffff,
                                unit >= 0,
                        ;
                    }
                    mantissa as u128 > k as u128 * unit
                }
            },
            Binary64::Infinite { negative } => !negative,
            Binary64::NotANumber => false,
        }
    }

    /// Whether the number is less than zero.
    pub fn is_negative(&self) -> (r: bool)
        ensures
            r == self.is_below_zero(),
    {
        match *self {
            Binary64::Finite { negative, mantissa, exponent } => negative && mantissa > 0,
            Binary64::Infinite { negative } => negative,
            Binary64::NotANumber => false,
        }
    }

    /// Divides by `k` and rounds to the nearest binary64 number.
    pub fn divided_by(&self, k: u32) -> (r: Binary64)
        requires
            self.wf(),
            k > 0,
        ensures
            r == self.quotient(k as nat),
            r.wf(),
    {
        match *self {
            Binary64::Finite { negative, mantissa, exponent } => {
                let up: u32 = if exponent > 0 {
                    exponent as u32
                } else {
                    0
                };
                let down: u32 = if exponent < 0 {
                    (-exponent) as u32
                } else {
                    0
                };
                let num = scale_pow2(&digits_of(mantissa), up);
                let den = scale_pow2(&digits_of(k as u64), down);
                proof {
                    lemma_pow2_pos(down as nat);
                    assert(k * pow2(down as nat) > 0) by (nonlinear_arith)
                        requires
                            k > 0,
                            pow2(down as nat) > 0,
                    ;
                }
                round_ratio(negative, &num, &den)
            },
            Binary64::Infinite { negative } => Binary64::Infinite { negative },
            Binary64::NotANumber => Binary64::NotANumber,
        }
    }

    /// The place of the magnitude among all magnitudes.
    pub fn magnitude_ordinal(&self) -> (r: u64)
        requires
            self.wf(),
        ensures
            r == self.ordinal(),
            r <= INFINITY_BITS,
    {
        match *self {
            Binary64::Finite { negative, mantissa, exponent } => {
                if mantissa >= TOP_BIT {
                    (exponent + 1075) as u64 * TOP_BIT + (mantissa - TOP_BIT)
                } else {
                    mantissa
                }
            },
            Binary64::Infinite { negative } => INFINITY_BITS,
            Binary64::NotANumber => 0,
        }
    }

    /// The place of the number among all numbers.
    pub fn rank_value(&self) -> (r: i64)
        requires
            self.wf(),
        ensures
            r == self.rank(),
    {
        let ordinal = self.magnitude_ordinal() as i64;
        let negative = match *self {
            Binary64::Finite { negative, mantissa, exponent } => negative,
            Binary64::Infinite { negative } => negative,
            Binary64::NotANumber => false,
        };
        if negative {
            -ordinal
        } else {
            ordinal
        }
    }

    /// The interchange encoding of the number.
    pub fn to_bits(&self) -> (r: u64)
        requires
            self.wf(),
        ensures
            r == self.bits(),
    {
        let ordinal = self.magnitude_ordinal();
        match *self {
            Binary64::Finite { negative, mantissa, exponent } => if negative {
                SIGN_BIT + ordinal
            } else {
                ordinal
            },
            Binary64::Infinite { negative } => if negative {
                SIGN_BIT + ordinal
            } else {
                ordinal
            },
            Binary64::NotANumber => NAN_BITS,
        }
    }
}

/// Finite numbers stand in the order of their ordinals: the ordinal of one
/// is the smaller exactly where its magnitude is.
pub proof fn lemma_ordinal_orders_magnitudes(a: Binary64, b: Binary64)
    requires
        a.wf(),
        b.wf(),
        a is Finite,
        b is Finite,
    ensures
        a.ordinal() < b.ordinal() <==> a.magnitude_below(b),
{
    let ma = a->mantissa;
    let mb = b->mantissa;
    let xa = a->exponent;
    let xb = b->exponent;
    lemma2_to64();
    if xa == xb {
        assert(pow2(0) == 1);
        assert(ma * 1 == ma);
        assert(mb * 1 == mb);
    } else if xa < xb {
        let g = pow2((xb - xa) as nat);
        lemma_pow2_unfold((xb - xa) as nat);
        lemma_pow2_pos((xb - xa - 1) as nat);
        assert(ma * 1 == ma);
        assert(mb * g >= 0x20_0000_0000_0000) by (nonlinear_arith)
            requires
                mb >= 0x10_0000_0000_0000,
                g >= 2,
        ;
        assert((xb + 1075) * 0x10_0000_0000_0000 >= (xa + 1076) * 0x10_0000_0000_0000)
            by (nonlinear_arith)
            requires
                xb >= xa + 1,
        ;
    } else {
        let g = pow2((xa - xb) as nat);
        lemma_pow2_unfold((xa - xb) as nat);
        lemma_pow2_pos((xa - xb - 1) as nat);
        assert(mb * 1 == mb);
        assert(ma * g >= 0x20_0000_0000_0000) by (nonlinear_arith)
            requires
                ma >= 0x10_0000_0000_0000,
                g >= 2,
        ;
        assert((xa + 1075) * 0x10_0000_0000_0000 >= (xb + 1076) * 0x10_0000_0000_0000)
            by (nonlinear_arith)
            requires
                xa >= xb + 1,
        ;
    }
}

/// Two to the power `n`.
pub fn power_of_two(n: u32) -> (r: u64)
    requires
        n < 64,
    ensures
        r == pow2(n as nat),
        r <= 0x8000_0000_0000_0000,
{
    let mut r: u64 = 1;
    let mut i: u32 = 0;
    proof {
        lemma2_to64();
        lemma2_to64_rest();
    }
    while i < n
        invariant
            i <= n < 64,
            r == pow2(i as nat),
            r <= pow2(63),
            pow2(63) == 0x8000_0000_0000_0000,
        decreases n - i,
    {
        proof {
            lemma_pow2_unfold((i + 1) as nat);
            if i + 1 < 63 {
                lemma_pow2_strictly_increases((i + 1) as nat, 63);
            }
        }
        r = r * 2;
        i += 1;
    }
    r
}

/// Numbers stand in the order of their ranks: the rank of one is the
/// smaller exactly where the number is.
pub proof fn lemma_rank_orders_numbers(a: Binary64, b: Binary64)
    requires
        a.wf(),
        b.wf(),
        !(a is NotANumber),
        !(b is NotANumber),
    ensures
        a.rank() < b.rank() <==> a.below(b),
{
    lemma_ordinal_bounds(a);
    lemma_ordinal_bounds(b);
    if a is Finite && b is Finite {
        lemma_ordinal_orders_magnitudes(a, b);
        lemma_ordinal_orders_magnitudes(b, a);
    }
}

/// The ordinal of zero is zero, that of every other magnitude is above it,
/// and that of infinity is above those of the finite numbers.
pub proof fn lemma_ordinal_bounds(a: Binary64)
    requires
        a.wf(),
    ensures
        0 <= a.ordinal() <= INFINITY_BITS,
        a is Finite ==> a.ordinal() < INFINITY_BITS,
        a is Finite ==> (a.ordinal() == 0 <==> a.is_zero()),
{
    if a is Finite {
        let x = a->exponent;
        assert((x + 1075) * 0x10_0000_0000_0000 <= 2046 * 0x10_0000_0000_0000) by (nonlinear_arith)
            requires
                x <= 971,
        ;
        assert((x + 1075) * 0x10_0000_0000_0000 >= 0x10_0000_0000_0000) by (nonlinear_arith)
            requires
                x >= -1074,
        ;
    }
}

} // verus!
