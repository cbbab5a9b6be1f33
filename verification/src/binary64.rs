//! IEEE 754 binary64 numbers, held as integers, and the rounding of a ratio
//! of two naturals to the nearest of them.
//!
//! A finite number is `mantissa * 2^exponent` with a sign. Mantissa and
//! exponent are kept in the one form in which every number is written once:
//! the mantissa has its top bit at `2^52`, unless the exponent is the least
//! one, `-1074`, where smaller mantissas stand for the subnormal numbers and
//! for zero.

use crate::digits::{all_digits, digits_value, relate, scale, Relation};
use vstd::arithmetic::power2::{lemma_pow2_adds, lemma_pow2_pos, lemma_pow2_unfold, pow2};
use vstd::prelude::*;

verus! {

/// The least exponent of a finite number.
pub const MIN_EXPONENT: i32 = -1074;

/// The greatest exponent of a finite number.
pub const MAX_EXPONENT: i32 = 971;

/// `2^52`, the top bit of a full mantissa.
pub const TOP_BIT: u64 = 0x10_0000_0000_0000;

/// `2^53`, the bound that every mantissa stays below.
pub const MANTISSA_BOUND: u64 = 0x20_0000_0000_0000;

/// A binary64 number.
#[derive(Clone, Copy, Debug, PartialEq, Eq, Structural)]
pub enum Binary64 {
    /// The number `mantissa * 2^exponent`, negated if `negative`.
    Finite { negative: bool, mantissa: u64, exponent: i32 },
    /// An infinity.
    Infinite { negative: bool },
    /// What is no number.
    NotANumber,
}

impl Binary64 {
    /// Mantissa and exponent are in the one accepted form.
    pub open spec fn wf(self) -> bool {
        match self {
            Binary64::Finite { negative, mantissa, exponent } => {
                &&& mantissa < MANTISSA_BOUND
                &&& MIN_EXPONENT <= exponent <= MAX_EXPONENT
                &&& (mantissa >= TOP_BIT || exponent == MIN_EXPONENT)
            },
            _ => true,
        }
    }
}

/// `-x` where `x` is negative, zero elsewhere.
pub open spec fn negative_part(x: int) -> nat {
    if x < 0 {
        (-x) as nat
    } else {
        0
    }
}

/// `x` where `x` is positive, zero elsewhere.
pub open spec fn positive_part(x: int) -> nat {
    if x > 0 {
        x as nat
    } else {
        0
    }
}

/// Numerator of `(num / den) / 2^x`, over `scaled_den(den, x)`.
pub open spec fn scaled_num(num: nat, x: int) -> nat {
    num * pow2(negative_part(x))
}

/// Denominator of `(num / den) / 2^x`, under `scaled_num(num, x)`.
pub open spec fn scaled_den(den: nat, x: int) -> nat {
    den * pow2(positive_part(x))
}

/// The integer nearest to `num / den`; of two equally near, the even one.
pub open spec fn nearest_integer(num: nat, den: nat) -> nat {
    let q = num / den;
    let r = num % den;
    if 2 * r < den || (2 * r == den && q % 2 == 0) {
        q
    } else {
        q + 1
    }
}

/// `x` is the exponent of the binary64 numbers between which `num / den`
/// lies: the ratio is below `2^53 * 2^x`, and not below `2^52 * 2^x` unless
/// `x` is the least exponent.
pub open spec fn is_grid_exponent(num: nat, den: nat, x: int) -> bool {
    &&& MIN_EXPONENT <= x
    &&& scaled_num(num, x) < MANTISSA_BOUND * scaled_den(den, x)
    &&& (x > MIN_EXPONENT ==> scaled_num(num, x) >= TOP_BIT * scaled_den(den, x))
}

/// The exponent of the binary64 numbers between which `num / den` lies.
pub open spec fn grid_exponent(num: nat, den: nat) -> int {
    choose|x: int| is_grid_exponent(num, den, x)
}

/// `num / den` is at least half way from the greatest finite number,
/// `(2^53 - 1) * 2^971`, to `2^1024`.
pub open spec fn rounds_to_infinity(num: nat, den: nat) -> bool {
    2 * num >= den * (pow2(1025) - pow2(971))
}

/// The binary64 number nearest to `num / den`, with the sign asked for; of
/// two equally near, the one with the even mantissa. A ratio too large for
/// any finite number gives an infinity.
pub open spec fn nearest_binary64(negative: bool, num: nat, den: nat) -> Binary64
    recommends
        den > 0,
{
    if rounds_to_infinity(num, den) {
        Binary64::Infinite { negative }
    } else {
        let x = grid_exponent(num, den);
        let m = nearest_integer(scaled_num(num, x), scaled_den(den, x));
        if m == MANTISSA_BOUND {
            Binary64::Finite { negative, mantissa: TOP_BIT, exponent: (x + 1) as i32 }
        } else {
            Binary64::Finite { negative, mantissa: m as u64, exponent: x as i32 }
        }
    }
}

/// A ratio at one exponent is the ratio at a greater exponent times the
/// power of two between them.
pub proof fn lemma_grid_shift(num: nat, den: nat, x: int, y: int)
    requires
        x <= y,
    ensures
        scaled_num(num, x) * scaled_den(den, y) == pow2((y - x) as nat) * (scaled_num(num, y)
            * scaled_den(den, x)),
{
    let ux = pow2(negative_part(x));
    let dx = pow2(positive_part(x));
    let uy = pow2(negative_part(y));
    let dy = pow2(positive_part(y));
    let g = pow2((y - x) as nat);
    lemma_pow2_adds(negative_part(x), positive_part(y));
    lemma_pow2_adds((y - x) as nat, negative_part(y));
    lemma_pow2_adds((y - x) as nat + negative_part(y), positive_part(x));
    assert(negative_part(x) + positive_part(y) == (y - x) as nat + negative_part(y) + positive_part(x));
    assert(ux * dy == (g * uy) * dx);
    assert((num * ux) * (den * dy) == g * ((num * uy) * (den * dx))) by (nonlinear_arith)
        requires
            ux * dy == (g * uy) * dx,
    ;
}

/// At most one exponent is the grid exponent of a ratio.
pub proof fn lemma_grid_exponent_unique(num: nat, den: nat, x: int, y: int)
    requires
        den > 0,
        is_grid_exponent(num, den, x),
        is_grid_exponent(num, den, y),
    ensures
        x == y,
{
    if x < y {
        lemma_grid_exponent_is_least(num, den, x, y);
    } else if y < x {
        lemma_grid_exponent_is_least(num, den, y, x);
    }
}

/// No exponent above the grid exponent of a ratio has its property.
proof fn lemma_grid_exponent_is_least(num: nat, den: nat, x: int, y: int)
    requires
        den > 0,
        is_grid_exponent(num, den, x),
        x < y,
    ensures
        !is_grid_exponent(num, den, y),
{
    let sx = scaled_num(num, x);
    let tx = scaled_den(den, x);
    let sy = scaled_num(num, y);
    let ty = scaled_den(den, y);
    let g = pow2((y - x) as nat);
    lemma_grid_shift(num, den, x, y);
    lemma_pow2_pos(positive_part(x));
    lemma_pow2_pos(positive_part(y));
    lemma_pow2_unfold((y - x) as nat);
    lemma_pow2_pos((y - x - 1) as nat);
    assert(g >= 2);
    assert(tx > 0 && ty > 0) by (nonlinear_arith)
        requires
            tx == den * pow2(positive_part(x)),
            ty == den * pow2(positive_part(y)),
            den > 0,
            pow2(positive_part(x)) > 0,
            pow2(positive_part(y)) > 0,
    ;
    assert(sy < 0x10_0000_0000_0000 * ty) by (nonlinear_arith)
        requires
            sx * ty == g * (sy * tx),
            g >= 2,
            tx > 0,
            ty > 0,
            sx < 0x20_0000_0000_0000 * tx,
    ;
}

/// The grid exponent of a ratio is the one exponent that has its property.
pub proof fn lemma_grid_exponent_is(num: nat, den: nat, x: int)
    requires
        den > 0,
        is_grid_exponent(num, den, x),
    ensures
        grid_exponent(num, den) == x,
{
    lemma_grid_exponent_unique(num, den, x, grid_exponent(num, den));
}

/// Every ratio below `2^1024` has a grid exponent, and it is no greater
/// than the greatest exponent.
pub proof fn lemma_grid_exponent_exists(num: nat, den: nat)
    requires
        den > 0,
        num < den * pow2(1024),
    ensures
        is_grid_exponent(num, den, grid_exponent(num, den)),
        grid_exponent(num, den) <= MAX_EXPONENT,
{
    lemma_pow2_adds(53, 971);
    vstd::arithmetic::power2::lemma2_to64_rest();
    vstd::arithmetic::power2::lemma2_to64();
    assert(pow2(0) == 1);
    assert(num * 1 == num);
    assert(0x20_0000_0000_0000 * (den * pow2(971)) == den * (0x20_0000_0000_0000 * pow2(971)))
        by (nonlinear_arith);
    let x = lemma_grid_exponent_search(num, den, MAX_EXPONENT as int);
    assert(is_grid_exponent(num, den, x));
    lemma_grid_exponent_is(num, den, x);
}

/// Looks for the grid exponent from `from` downwards.
proof fn lemma_grid_exponent_search(num: nat, den: nat, from: int) -> (x: int)
    requires
        den > 0,
        MIN_EXPONENT <= from,
        scaled_num(num, from) < MANTISSA_BOUND * scaled_den(den, from),
    ensures
        is_grid_exponent(num, den, x),
        x <= from,
    decreases from - MIN_EXPONENT,
{
    if from == MIN_EXPONENT || scaled_num(num, from) >= TOP_BIT * scaled_den(den, from) {
        from
    } else {
        let s = scaled_num(num, from);
        let t = scaled_den(den, from);
        let s1 = scaled_num(num, from - 1);
        let t1 = scaled_den(den, from - 1);
        lemma_grid_shift(num, den, from - 1, from);
        vstd::arithmetic::power2::lemma2_to64();
        lemma_pow2_pos(positive_part(from));
        lemma_pow2_pos(positive_part(from - 1));
        assert(t > 0 && t1 > 0) by (nonlinear_arith)
            requires
                t == den * pow2(positive_part(from)),
                t1 == den * pow2(positive_part(from - 1)),
                den > 0,
                pow2(positive_part(from)) > 0,
                pow2(positive_part(from - 1)) > 0,
        ;
        assert(s1 < 0x20_0000_0000_0000 * t1) by (nonlinear_arith)
            requires
                s1 * t == 2 * (s * t1),
                s < 0x10_0000_0000_0000 * t,
                t > 0,
                t1 > 0,
        ;
        lemma_grid_exponent_search(num, den, from - 1)
    }
}

/// The nearest integer is at most half a unit from the ratio, and no
/// integer is nearer.
pub proof fn lemma_nearest_integer_is_nearest(num: nat, den: nat, other: int)
    requires
        den > 0,
    ensures
        ({
            let n = nearest_integer(num, den);
            let miss = if num >= n * den {
                num - n * den
            } else {
                n * den - num
            };
            let other_miss = if num >= other * den {
                num - other * den
            } else {
                other * den - num
            };
            2 * miss <= den && miss <= other_miss
        }),
{
    let q = num / den;
    let r = num % den;
    let n = nearest_integer(num, den);
    vstd::arithmetic::div_mod::lemma_fundamental_div_mod(num as int, den as int);
    vstd::arithmetic::div_mod::lemma_mod_bound(num as int, den as int);
    assert(num == den * q + r);
    assert(den * q == q * den) by (nonlinear_arith);
    assert((q + 1) * den == q * den + den) by (nonlinear_arith);
    if other <= q {
        assert(other * den <= q * den) by (nonlinear_arith)
            requires
                other <= q,
                den > 0,
        ;
        if other < q {
            assert(other * den <= q * den - den) by (nonlinear_arith)
                requires
                    other <= q - 1,
                    den > 0,
            ;
        }
    } else {
        assert(other * den >= q * den + den) by (nonlinear_arith)
            requires
                other >= q + 1,
                den > 0,
        ;
        if other > q + 1 {
            assert(other * den >= q * den + 2 * den) by (nonlinear_arith)
                requires
                    other >= q + 2,
                    den > 0,
            ;
        }
    }
}

/// The overflow bound, written over `2^971`.
proof fn lemma_overflow_bound(den: nat)
    ensures
        den * (pow2(1025) - pow2(971)) == 0x3f_ffff_ffff_ffff * (den * pow2(971)),
        pow2(971) > 0,
{
    lemma_pow2_adds(54, 971);
    lemma_pow2_pos(971);
    vstd::arithmetic::power2::lemma2_to64();
    vstd::arithmetic::power2::lemma2_to64_rest();
    let p = pow2(971);
    assert(pow2(54) == 0x40_0000_0000_0000);
    assert(pow2(1025) == 0x40_0000_0000_0000 * p);
    assert(den * (0x40_0000_0000_0000 * p - p) == 0x3f_ffff_ffff_ffff * (den * p))
        by (nonlinear_arith);
}

/// A ratio whose grid exponent is below the greatest one is too small to
/// round to infinity.
proof fn lemma_small_grid_is_finite(num: nat, den: nat, x: int)
    requires
        den > 0,
        is_grid_exponent(num, den, x),
        x < MAX_EXPONENT,
    ensures
        !rounds_to_infinity(num, den),
{
    lemma_overflow_bound(den);
    let p = pow2(971);
    let u = pow2(negative_part(x));
    let d = pow2(positive_part(x));
    lemma_pow2_pos(negative_part(x));
    lemma_pow2_pos(positive_part(x));
    if x > 0 {
        lemma_pow2_unfold(971);
        lemma_pow2_pos(970);
        if x < 970 {
            vstd::arithmetic::power2::lemma_pow2_strictly_increases(x as nat, 970);
        }
        assert(2 * d <= p);
    } else {
        assert(d == 1) by {
            vstd::arithmetic::power2::lemma2_to64();
        }
        lemma_pow2_unfold(971);
        lemma_pow2_pos(970);
        assert(2 * d <= p);
    }
    assert(2 * num < 0x3f_ffff_ffff_ffff * (den * p)) by (nonlinear_arith)
        requires
            num * u < 0x20_0000_0000_0000 * (den * d),
            u >= 1,
            2 * d <= p,
            den > 0,
            d > 0,
    ;
}

/// A quotient caught between two neighbouring multiples.
proof fn lemma_quotient(num: nat, den: nat, q: nat)
    requires
        den > 0,
        q * den <= num < (q + 1) * den,
    ensures
        num / den == q,
        num % den == num - q * den,
{
    assert((q + 1) * den == q * den + den) by (nonlinear_arith);
    vstd::arithmetic::div_mod::lemma_fundamental_div_mod_converse(
        num as int,
        den as int,
        q as int,
        num - q * den,
    );
}

/// Rounding a quotient by comparing twice the numerator with the odd
/// multiple of the denominator that lies half way.
proof fn lemma_nearest_integer(num: nat, den: nat, q: nat, twice: nat, mid: nat)
    requires
        den > 0,
        q * den <= num < (q + 1) * den,
        twice == num * 2,
        mid == den * (2 * q + 1),
    ensures
        nearest_integer(num, den) == if twice > mid || (twice == mid && q % 2 == 1) {
            q + 1
        } else {
            q
        },
{
    lemma_quotient(num, den, q);
    assert(den * (2 * q + 1) == 2 * (q * den) + den) by (nonlinear_arith);
}

/// Rounds the ratio of two numbers to the nearest binary64 number.
pub fn round_ratio(negative: bool, num: &Vec<u8>, den: &Vec<u8>) -> (r: Binary64)
    requires
        all_digits(num@),
        all_digits(den@),
        digits_value(den@) > 0,
    ensures
        r == nearest_binary64(negative, digits_value(num@), digits_value(den@)),
        r.wf(),
{
    let ghost n = digits_value(num@);
    let ghost d = digits_value(den@);
    let mut a: Vec<u8> = scale(num, 1);
    let mut b: Vec<u8> = scale(den, 1);
    let mut x: i32 = 0;
    proof {
        vstd::arithmetic::power2::lemma2_to64();
        assert(pow2(0) == 1);
    }
    // Halve the ratio until it is below 2^53.
    let mut limit: Vec<u8> = scale(&b, MANTISSA_BOUND);
    while relate(&a, &limit) != Relation::Below
        invariant
            0 <= x <= MAX_EXPONENT,
            n == digits_value(num@),
            d == digits_value(den@),
            d > 0,
            all_digits(a@),
            all_digits(b@),
            all_digits(limit@),
            digits_value(a@) == n,
            digits_value(b@) == d * pow2(x as nat),
            digits_value(limit@) == digits_value(b@) * MANTISSA_BOUND,
            x > 0 ==> n >= TOP_BIT * digits_value(b@),
        decreases MAX_EXPONENT - x,
    {
        if x == MAX_EXPONENT {
            proof {
                lemma_overflow_bound(d);
                let p = pow2(971);
                assert(2 * n >= 0x3f_ffff_ffff_ffff * (d * p)) by (nonlinear_arith)
                    requires
                        n >= (d * p) * 0x20_0000_0000_0000,
                        d * p >= 0,
                ;
            }
            return Binary64::Infinite { negative };
        }
        proof {
            lemma_pow2_unfold((x + 1) as nat);
            let p = pow2(x as nat);
            assert((d * p) * 2 == d * (2 * p)) by (nonlinear_arith);
        }
        b = scale(&b, 2);
        x = x + 1;
        limit = scale(&b, MANTISSA_BOUND);
    }
    // Double the ratio until it reaches 2^52, or the least exponent is reached.
    if x == 0 {
        let low: Vec<u8> = scale(&b, TOP_BIT);
        while x > MIN_EXPONENT && relate(&a, &low) == Relation::Below
            invariant
                MIN_EXPONENT <= x <= 0,
                d > 0,
                all_digits(a@),
                all_digits(b@),
                all_digits(low@),
                digits_value(a@) == n * pow2((-x) as nat),
                digits_value(b@) == d,
                digits_value(low@) == d * TOP_BIT,
                digits_value(a@) < MANTISSA_BOUND * d,
                x < 0 ==> digits_value(a@) < 2 * (TOP_BIT * d),
            decreases x - MIN_EXPONENT,
        {
            proof {
                lemma_pow2_unfold((-x + 1) as nat);
                let p = pow2((-x) as nat);
                assert((n * p) * 2 == n * (2 * p)) by (nonlinear_arith);
            }
            a = scale(&a, 2);
            x = x - 1;
        }
    }
    let ghost sn = digits_value(a@);
    let ghost sd = digits_value(b@);
    proof {
        assert(sn == scaled_num(n, x as int));
        assert(sd == scaled_den(d, x as int));
        assert(is_grid_exponent(n, d, x as int));
        lemma_grid_exponent_is(n, d, x as int);
        lemma_pow2_pos(positive_part(x as int));
        assert(sd > 0) by (nonlinear_arith)
            requires
                sd == d * pow2(positive_part(x as int)),
                d > 0,
                pow2(positive_part(x as int)) > 0,
        ;
    }
    // The quotient, bit by bit from the top.
    let mut m: u64 = 0;
    let mut span: u64 = MANTISSA_BOUND;
    let ghost mut bits: nat = 53;
    proof {
        vstd::arithmetic::power2::lemma2_to64_rest();
        assert(0 * sd == 0);
    }
    while span > 1
        invariant
            all_digits(a@),
            all_digits(b@),
            digits_value(a@) == sn,
            digits_value(b@) == sd,
            1 <= span,
            span == pow2(bits),
            m + span <= MANTISSA_BOUND,
            m * sd <= sn < (m + span) * sd,
        decreases span,
    {
        proof {
            if bits == 0 {
                vstd::arithmetic::power2::lemma2_to64();
            }
            lemma_pow2_unfold(bits);
            bits = (bits - 1) as nat;
        }
        let half: u64 = span / 2;
        let tried: u64 = m + half;
        let reach = scale(&b, tried);
        proof {
            assert(sd * tried == tried * sd) by (nonlinear_arith);
            lemma_pow2_pos(bits);
        }
        if relate(&reach, &a) != Relation::Above {
            m = tried;
        }
        span = half;
    }
    let mid = scale(&b, 2 * m + 1);
    let twice = scale(&a, 2);
    let up: bool = match relate(&twice, &mid) {
        Relation::Above => true,
        Relation::Equal => m % 2 == 1,
        Relation::Below => false,
    };
    let rounded: u64 = if up {
        m + 1
    } else {
        m
    };
    proof {
        lemma_nearest_integer(sn, sd, m as nat, digits_value(twice@), digits_value(mid@));
        assert(rounded == nearest_integer(sn, sd));
        if x > MIN_EXPONENT {
            assert(m >= TOP_BIT) by (nonlinear_arith)
                requires
                    sn < (m + 1) * sd,
                    sn >= 0x10_0000_0000_0000 * sd,
                    sd > 0,
            ;
        }
        if x < MAX_EXPONENT {
            lemma_small_grid_is_finite(n, d, x as int);
        } else {
            lemma_overflow_bound(d);
            assert(sd == d * pow2(971));
            if rounded == MANTISSA_BOUND {
                assert(2 * sn >= 0x3f_ffff_ffff_ffff * sd) by (nonlinear_arith)
                    requires
                        digits_value(twice@) == sn * 2,
                        digits_value(mid@) == sd * (2 * m + 1),
                        digits_value(twice@) >= digits_value(mid@),
                        m == 0x1f_ffff_ffff_ffff,
                ;
            } else {
                assert(2 * sn < 0x3f_ffff_ffff_ffff * sd) by (nonlinear_arith)
                    requires
                        digits_value(twice@) == sn * 2,
                        digits_value(mid@) == sd * (2 * m + 1),
                        sn < (m + 1) * sd,
                        sd > 0,
                        m <= 0x1f_ffff_ffff_ffff,
                        m == 0x1f_ffff_ffff_ffff ==> digits_value(twice@) < digits_value(mid@),
                ;
            }
        }
    }
    if rounded == MANTISSA_BOUND {
        if x == MAX_EXPONENT {
            Binary64::Infinite { negative }
        } else {
            Binary64::Finite { negative, mantissa: TOP_BIT, exponent: x + 1 }
        }
    } else {
        Binary64::Finite { negative, mantissa: rounded, exponent: x }
    }
}

/// A ratio of at least `2^1024` rounds to infinity.
pub proof fn lemma_rounds_to_infinity(num: nat, den: nat)
    requires
        num >= den * pow2(1024),
    ensures
        rounds_to_infinity(num, den),
{
    lemma_pow2_unfold(1025);
    lemma_pow2_pos(971);
    let p = pow2(1024);
    let q = pow2(971);
    assert(2 * num >= den * (2 * p - q)) by (nonlinear_arith)
        requires
            num >= den * p,
            q > 0,
    ;
}

/// A ratio below `2^-1075` rounds to zero.
pub proof fn lemma_rounds_to_zero(negative: bool, num: nat, den: nat)
    requires
        num * pow2(1075) < den,
    ensures
        nearest_binary64(negative, num, den) == (Binary64::Finite {
            negative,
            mantissa: 0,
            exponent: MIN_EXPONENT,
        }),
{
    let p = pow2(1074);
    lemma_pow2_unfold(1075);
    lemma_pow2_pos(1074);
    lemma_pow2_pos(971);
    lemma_overflow_bound(den);
    vstd::arithmetic::power2::lemma2_to64();
    let s = num * p;
    assert(2 * s < den && num <= s) by (nonlinear_arith)
        requires
            num * (2 * p) < den,
            s == num * p,
            p > 0,
    ;
    assert(2 * num < 0x3f_ffff_ffff_ffff * (den * pow2(971))) by (nonlinear_arith)
        requires
            2 * num < den,
            pow2(971) > 0,
    ;
    assert(s < 0x20_0000_0000_0000 * (den * 1)) by (nonlinear_arith)
        requires
            2 * s < den,
    ;
    assert(is_grid_exponent(num, den, MIN_EXPONENT as int));
    lemma_grid_exponent_is(num, den, MIN_EXPONENT as int);
    vstd::arithmetic::div_mod::lemma_small_mod(s, den);
    vstd::arithmetic::div_mod::lemma_basic_div(s as int, den as int);
    assert(nearest_integer(s, den * 1) == 0);
}

/// A ratio rounds to a zero exactly where it is no more than `2^-1075`,
/// half of the least number above zero.
pub proof fn lemma_zero_exactly(negative: bool, num: nat, den: nat)
    requires
        den > 0,
    ensures
        ({
            let nearest = nearest_binary64(negative, num, den);
            nearest is Finite && nearest->mantissa == 0
        }) <==> num * pow2(1075) <= den,
{
    let p = pow2(1074);
    let high = pow2(971);
    lemma_pow2_unfold(1075);
    lemma_pow2_pos(1074);
    lemma_overflow_bound(den);
    vstd::arithmetic::power2::lemma2_to64();
    vstd::arithmetic::power2::lemma2_to64_rest();
    assert(pow2(0) == 1);
    let s = num * p;
    assert(num * (2 * p) == 2 * s) by (nonlinear_arith)
        requires
            s == num * p,
    ;
    assert(num <= s) by (nonlinear_arith)
        requires
            s == num * p,
            p > 0,
    ;
    if 2 * s <= den {
        assert(2 * num < 0x3f_ffff_ffff_ffff * (den * high)) by (nonlinear_arith)
            requires
                2 * num <= den,
                den > 0,
                high > 0,
        ;
        assert(den * 1 == den);
        assert(s < 0x20_0000_0000_0000 * den);
        assert(is_grid_exponent(num, den, MIN_EXPONENT as int));
        lemma_grid_exponent_is(num, den, MIN_EXPONENT as int);
        vstd::arithmetic::div_mod::lemma_small_mod(s, den);
        vstd::arithmetic::div_mod::lemma_basic_div(s as int, den as int);
        assert(nearest_integer(s, den) == 0);
    } else if !rounds_to_infinity(num, den) {
        lemma_pow2_adds(53, 971);
        assert(num < den * pow2(1024)) by (nonlinear_arith)
            requires
                2 * num < 0x3f_ffff_ffff_ffff * (den * high),
                pow2(1024) == 0x20_0000_0000_0000 * high,
                den > 0,
                high > 0,
        ;
        lemma_grid_exponent_exists(num, den);
        let x = grid_exponent(num, den);
        let sn = scaled_num(num, x);
        let sd = scaled_den(den, x);
        lemma_pow2_pos(positive_part(x));
        assert(sd > 0) by (nonlinear_arith)
            requires
                sd == den * pow2(positive_part(x)),
                den > 0,
                pow2(positive_part(x)) > 0,
        ;
        let q = sn / sd;
        let r = sn % sd;
        vstd::arithmetic::div_mod::lemma_fundamental_div_mod(sn as int, sd as int);
        vstd::arithmetic::div_mod::lemma_mod_bound(sn as int, sd as int);
        if x > MIN_EXPONENT {
            assert(q >= 0x10_0000_0000_0000) by (nonlinear_arith)
                requires
                    sn == sd * q + r,
                    r < sd,
                    sn >= 0x10_0000_0000_0000 * sd,
                    sd > 0,
            ;
        } else {
            assert(sn == s);
            assert(sd == den);
            if q == 0 {
                assert(sd * 0 == 0);
                assert(r == sn);
            }
        }
        assert(nearest_integer(sn, sd) >= 1);
        assert(q < 0x20_0000_0000_0000) by (nonlinear_arith)
            requires
                sn == sd * q + r,
                0 <= r,
                sn < 0x20_0000_0000_0000 * sd,
                sd > 0,
        ;
    }
}

/// The nearest binary64 number is written in the one accepted form.
pub proof fn lemma_nearest_is_wf(negative: bool, num: nat, den: nat)
    requires
        den > 0,
    ensures
        nearest_binary64(negative, num, den).wf(),
{
    if !rounds_to_infinity(num, den) {
        lemma_overflow_bound(den);
        let p = pow2(971);
        lemma_pow2_adds(53, 971);
        vstd::arithmetic::power2::lemma2_to64_rest();
        assert(pow2(1024) == 0x20_0000_0000_0000 * p);
        assert(num < den * (0x20_0000_0000_0000 * p)) by (nonlinear_arith)
            requires
                2 * num < 0x3f_ffff_ffff_ffff * (den * p),
                den > 0,
                p > 0,
        ;
        lemma_grid_exponent_exists(num, den);
        let x = grid_exponent(num, den);
        let s = scaled_num(num, x);
        let t = scaled_den(den, x);
        let q = s / t;
        let r = s % t;
        lemma_pow2_pos(positive_part(x));
        assert(t > 0) by (nonlinear_arith)
            requires
                t == den * pow2(positive_part(x)),
                den > 0,
                pow2(positive_part(x)) > 0,
        ;
        vstd::arithmetic::div_mod::lemma_fundamental_div_mod(s as int, t as int);
        vstd::arithmetic::div_mod::lemma_mod_bound(s as int, t as int);
        assert(q < 0x20_0000_0000_0000) by (nonlinear_arith)
            requires
                s == t * q + r,
                0 <= r,
                s < 0x20_0000_0000_0000 * t,
                t > 0,
        ;
        if x > MIN_EXPONENT {
            assert(q >= 0x10_0000_0000_0000) by (nonlinear_arith)
                requires
                    s == t * q + r,
                    r < t,
                    s >= 0x10_0000_0000_0000 * t,
                    t > 0,
            ;
        }
        let m = nearest_integer(s, t);
        assert(m == q || m == q + 1);
        if m == MANTISSA_BOUND && x == MAX_EXPONENT {
            vstd::arithmetic::power2::lemma2_to64();
            assert(pow2(0) == 1);
            assert(s == num) by {
                assert(num * 1 == num);
            }
            assert(2 * s >= 0x3f_ffff_ffff_ffff * t) by (nonlinear_arith)
                requires
                    s == t * q + r,
                    q == 0x1f_ffff_ffff_ffff,
                    2 * r >= t,
            ;
        }
    }
}

/// A common factor of numerator and denominator does not change the
/// nearest integer.
pub proof fn lemma_nearest_integer_scaled(num: nat, den: nat, k: nat)
    requires
        den > 0,
        k > 0,
    ensures
        nearest_integer(k * num, k * den) == nearest_integer(num, den),
{
    vstd::arithmetic::div_mod::lemma_truncate_middle(num as int, k as int, den as int);
    vstd::arithmetic::div_mod::lemma_div_multiples_vanish_quotient(
        k as int,
        num as int,
        den as int,
    );
    let r = num % den;
    assert((k * num) % (k * den) == k * r);
    assert((k * num) / (k * den) == num / den);
    assert(2 * (k * r) < k * den <==> 2 * r < den) by (nonlinear_arith)
        requires
            k > 0,
    ;
    assert(2 * (k * r) == k * den <==> 2 * r == den) by (nonlinear_arith)
        requires
            k > 0,
    ;
}

/// A common factor of numerator and denominator does not change the grid
/// exponent.
proof fn lemma_grid_exponent_scaled(num: nat, den: nat, k: nat, x: int)
    requires
        den > 0,
        k > 0,
    ensures
        is_grid_exponent(k * num, k * den, x) == is_grid_exponent(num, den, x),
        scaled_num(k * num, x) == k * scaled_num(num, x),
        scaled_den(k * den, x) == k * scaled_den(den, x),
{
    let u = pow2(negative_part(x));
    let d = pow2(positive_part(x));
    let s = num * u;
    let t = den * d;
    assert((k * num) * u == k * s) by (nonlinear_arith)
        requires
            s == num * u,
    ;
    assert((k * den) * d == k * t) by (nonlinear_arith)
        requires
            t == den * d,
    ;
    assert(k * s < 0x20_0000_0000_0000 * (k * t) <==> s < 0x20_0000_0000_0000 * t)
        by (nonlinear_arith)
        requires
            k > 0,
    ;
    assert(k * s >= 0x10_0000_0000_0000 * (k * t) <==> s >= 0x10_0000_0000_0000 * t)
        by (nonlinear_arith)
        requires
            k > 0,
    ;
}

/// A common factor of numerator and denominator does not change the
/// nearest binary64 number.
pub proof fn lemma_nearest_scaled(negative: bool, num: nat, den: nat, k: nat)
    requires
        den > 0,
        k > 0,
    ensures
        nearest_binary64(negative, k * num, k * den) == nearest_binary64(negative, num, den),
{
    let bound = pow2(1025) - pow2(971);
    lemma_overflow_bound(den);
    assert(bound > 0) by (nonlinear_arith)
        requires
            den * bound == 0x3f_ffff_ffff_ffff * (den * pow2(971)),
            den > 0,
            pow2(971) > 0,
    ;
    assert(2 * (k * num) >= (k * den) * bound <==> 2 * num >= den * bound) by (nonlinear_arith)
        requires
            k > 0,
    ;
    assert(k * den > 0) by (nonlinear_arith)
        requires
            k > 0,
            den > 0,
    ;
    if !rounds_to_infinity(num, den) {
        let p = pow2(971);
        lemma_pow2_adds(53, 971);
        vstd::arithmetic::power2::lemma2_to64_rest();
        assert(num < den * pow2(1024)) by (nonlinear_arith)
            requires
                2 * num < 0x3f_ffff_ffff_ffff * (den * p),
                pow2(1024) == 0x20_0000_0000_0000 * p,
                den > 0,
                p > 0,
        ;
        lemma_grid_exponent_exists(num, den);
        let x = grid_exponent(num, den);
        lemma_grid_exponent_scaled(num, den, k, x);
        lemma_grid_exponent_is(k * num, k * den, x);
        lemma_pow2_pos(positive_part(x));
        assert(scaled_den(den, x) > 0) by (nonlinear_arith)
            requires
                scaled_den(den, x) == den * pow2(positive_part(x)),
                den > 0,
                pow2(positive_part(x)) > 0,
        ;
        lemma_nearest_integer_scaled(scaled_num(num, x), scaled_den(den, x), k);
    }
}

/// Equal ratios have one nearest binary64 number: the rounding depends on
/// the value of a ratio, not on how it is written.
pub proof fn lemma_nearest_of_equal_ratios(negative: bool, a: nat, b: nat, c: nat, d: nat)
    requires
        b > 0,
        d > 0,
        a * d == c * b,
    ensures
        nearest_binary64(negative, a, b) == nearest_binary64(negative, c, d),
{
    lemma_nearest_scaled(negative, a, b, d);
    lemma_nearest_scaled(negative, c, d, b);
    assert(d * a == a * d && b * c == c * b && d * b == b * d) by (nonlinear_arith);
}

} // verus!
