//! Natural numbers of any size, held as decimal digits with the least
//! significant digit first.
//!
//! Rounding and formatting need no more arithmetic of such numbers than a
//! product with a machine word and a three-way comparison, so those are the
//! only operations offered, beside writing a number out.

use vstd::arithmetic::power2::{lemma_pow2_unfold, pow2};
use vstd::prelude::*;
use vstd::string::StringExecFns;

verus! {

/// Ten to the power `n`.
pub open spec fn pow10(n: nat) -> nat
    decreases n,
{
    if n == 0 {
        1
    } else {
        10 * pow10((n - 1) as nat)
    }
}

/// Every element of `s` is a decimal digit.
pub open spec fn all_digits(s: Seq<u8>) -> bool {
    forall|i: int| 0 <= i < s.len() ==> s[i] < 10
}

/// The number whose digit of weight `10^i` is `s[i]`.
pub open spec fn digits_value(s: Seq<u8>) -> nat
    decreases s.len(),
{
    if s.len() == 0 {
        0
    } else {
        digits_value(s.drop_last()) + s.last() as nat * pow10((s.len() - 1) as nat)
    }
}

/// The digit of weight `10^i`, zero beyond the written digits.
pub open spec fn digit_at(s: Seq<u8>, i: int) -> nat {
    if 0 <= i < s.len() {
        s[i] as nat
    } else {
        0
    }
}

/// The number formed by the digits of weight below `10^i`.
pub open spec fn low_value(s: Seq<u8>, i: nat) -> nat {
    if i <= s.len() {
        digits_value(s.take(i as int))
    } else {
        digits_value(s)
    }
}

/// A power of ten is not zero.
pub proof fn lemma_pow10_positive(n: nat)
    ensures
        pow10(n) > 0,
    decreases n,
{
    if n > 0 {
        lemma_pow10_positive((n - 1) as nat);
    }
}

/// Powers of ten multiply by adding their exponents.
pub proof fn lemma_pow10_adds(a: nat, b: nat)
    ensures
        pow10(a + b) == pow10(a) * pow10(b),
    decreases a,
{
    if a == 0 {
        assert(pow10(0) == 1);
        assert(pow10(a + b) == 1 * pow10(b));
    } else {
        lemma_pow10_adds((a - 1) as nat, b);
        assert(pow10(a + b) == 10 * pow10((a - 1 + b) as nat));
        assert(10 * (pow10((a - 1) as nat) * pow10(b)) == (10 * pow10((a - 1) as nat)) * pow10(b))
            by (nonlinear_arith);
    }
}

/// The powers of ten do not fall as the exponent rises.
pub proof fn lemma_pow10_monotonic(a: nat, b: nat)
    requires
        a <= b,
    ensures
        pow10(a) <= pow10(b),
    decreases b,
{
    if a < b {
        lemma_pow10_monotonic(a, (b - 1) as nat);
    }
}

/// Appending a digit adds it at the weight of its position.
pub proof fn lemma_value_push(s: Seq<u8>, d: u8)
    ensures
        digits_value(s.push(d)) == digits_value(s) + d as nat * pow10(s.len()),
{
    assert(s.push(d).drop_last() =~= s);
}

/// A number of `n` digits lies below `10^n`.
pub proof fn lemma_value_bound(s: Seq<u8>)
    requires
        all_digits(s),
    ensures
        digits_value(s) < pow10(s.len()),
    decreases s.len(),
{
    if s.len() > 0 {
        lemma_value_bound(s.drop_last());
        let n = (s.len() - 1) as nat;
        let p = pow10(n);
        let d = s.last() as nat;
        assert(pow10(s.len()) == 10 * p);
        assert(d * p <= 9 * p) by (nonlinear_arith)
            requires
                d <= 9,
                p >= 0,
        ;
    }
}

/// One more low digit, written or not, adds that digit at its weight.
pub proof fn lemma_low_value_step(s: Seq<u8>, i: nat)
    ensures
        low_value(s, i + 1) == low_value(s, i) + digit_at(s, i as int) * pow10(i),
{
    if i < s.len() {
        assert(s.take(i as int + 1).drop_last() =~= s.take(i as int));
    } else if i == s.len() {
        assert(s.take(i as int) =~= s);
    }
}

/// The digits below weight `10^i` form a number below `10^i`.
pub proof fn lemma_low_value_bound(s: Seq<u8>, i: nat)
    requires
        all_digits(s),
    ensures
        low_value(s, i) < pow10(i),
{
    if i <= s.len() {
        lemma_value_bound(s.take(i as int));
    } else {
        lemma_value_bound(s);
        lemma_pow10_monotonic(s.len(), i);
    }
}

/// A number of one digit is that digit.
pub proof fn lemma_value_single(d: u8)
    ensures
        digits_value(seq![d]) == d,
{
    let t = seq![d];
    let none = Seq::<u8>::empty();
    assert(t =~= none.push(d));
    assert(digits_value(none) == 0);
    assert(pow10(0) == 1);
    lemma_value_push(none, d);
    assert(digits_value(t) == 0 + (d as nat) * 1);
}

/// A digit put below the others adds itself and moves them up by one place.
pub proof fn lemma_value_prepend(d: u8, s: Seq<u8>)
    ensures
        digits_value(seq![d] + s) == d as nat + 10 * digits_value(s),
    decreases s.len(),
{
    if s.len() == 0 {
        assert(seq![d] + s =~= seq![d]);
        lemma_value_single(d);
        assert(digits_value(s) == 0);
    } else {
        let t = seq![d] + s;
        let front = s.drop_last();
        let top = s.last();
        let p = pow10(front.len());
        let rest = digits_value(front);
        assert(s =~= front.push(top));
        assert(t =~= (seq![d] + front).push(top));
        lemma_value_push(front, top);
        lemma_value_push(seq![d] + front, top);
        lemma_value_prepend(d, front);
        assert((seq![d] + front).len() == front.len() + 1);
        assert(pow10(front.len() + 1) == 10 * p);
        assert(digits_value(s) == rest + (top as nat) * p);
        assert(digits_value(t) == (d as nat + 10 * rest) + (top as nat) * (10 * p));
        assert((top as nat) * (10 * p) == 10 * ((top as nat) * p)) by (nonlinear_arith);
    }
}

/// Zeros put below a number multiply it by a power of ten.
pub proof fn lemma_value_shifted(zeros: Seq<u8>, s: Seq<u8>)
    requires
        forall|i: int| 0 <= i < zeros.len() ==> zeros[i] == 0,
    ensures
        digits_value(zeros + s) == pow10(zeros.len()) * digits_value(s),
    decreases zeros.len(),
{
    if zeros.len() == 0 {
        assert(zeros + s =~= s);
        assert(pow10(0) == 1);
        assert(1 * digits_value(s) == digits_value(s));
    } else {
        let rest = zeros.drop_first();
        assert(zeros + s =~= seq![0u8] + (rest + s));
        lemma_value_prepend(0u8, rest + s);
        lemma_value_shifted(rest, s);
        let v = digits_value(s);
        let p = pow10(rest.len());
        assert(pow10(zeros.len()) == 10 * p);
        assert(10 * (p * v) == (10 * p) * v) by (nonlinear_arith);
    }
}

/// A number is at least any one of its digits at its weight.
pub proof fn lemma_value_at_least(s: Seq<u8>, j: int)
    requires
        0 <= j < s.len(),
    ensures
        digits_value(s) >= s[j] as nat * pow10(j as nat),
    decreases s.len(),
{
    if j < s.len() - 1 {
        lemma_value_at_least(s.drop_last(), j);
    }
}

/// A number whose digits from place `k` on are zero lies below `10^k`.
pub proof fn lemma_value_below(s: Seq<u8>, k: nat)
    requires
        all_digits(s),
        forall|i: int| k <= i < s.len() ==> s[i] == 0,
    ensures
        digits_value(s) < pow10(k),
    decreases s.len(),
{
    if s.len() <= k {
        lemma_value_bound(s);
        lemma_pow10_monotonic(s.len(), k);
    } else {
        lemma_value_below(s.drop_last(), k);
        assert(s.last() == 0);
        assert(0 * pow10((s.len() - 1) as nat) == 0);
    }
}

/// The product of a number and a machine word.
pub fn scale(a: &Vec<u8>, k: u64) -> (r: Vec<u8>)
    requires
        all_digits(a@),
    ensures
        all_digits(r@),
        digits_value(r@) == digits_value(a@) * k,
{
    let mut out: Vec<u8> = Vec::new();
    let mut carry: u128 = 0;
    let mut i: usize = 0;
    proof {
        assert(a@.take(0) =~= Seq::<u8>::empty());
        assert(digits_value(a@.take(0)) == 0);
        assert(digits_value(out@) == 0);
    }
    while i < a.len()
        invariant
            i <= a.len(),
            all_digits(a@),
            all_digits(out@),
            out@.len() == i,
            carry <= k,
            digits_value(out@) + carry * pow10(i as nat) == digits_value(a@.take(i as int)) * k,
        decreases a.len() - i,
    {
        let d: u128 = a[i] as u128;
        assert(d * k <= 9 * k) by (nonlinear_arith)
            requires
                d <= 9,
                k >= 0,
        ;
        let t: u128 = d * (k as u128) + carry;
        let low: u8 = (t % 10) as u8;
        proof {
            let p = pow10(i as nat);
            let v = digits_value(out@);
            let w = digits_value(a@.take(i as int));
            lemma_value_push(out@, low);
            assert(a@.take(i + 1).drop_last() =~= a@.take(i as int));
            assert(digits_value(a@.take(i + 1)) == w + d * p);
            assert(pow10((i + 1) as nat) == 10 * p);
            assert(t == 10 * (t / 10) + t % 10);
            assert((v + (t % 10) * p) + (t / 10) * (10 * p) == (w + d * p) * k)
                by (nonlinear_arith)
                requires
                    v + carry * p == w * k,
                    t == d * k + carry,
                    t == 10 * (t / 10) + t % 10,
            ;
        }
        out.push(low);
        carry = t / 10;
        i += 1;
    }
    assert(a@.take(a@.len() as int) =~= a@);
    while carry > 0
        invariant
            all_digits(out@),
            digits_value(out@) + carry * pow10(out@.len()) == digits_value(a@) * k,
        decreases carry,
    {
        let low: u8 = (carry % 10) as u8;
        proof {
            let p = pow10(out@.len());
            lemma_value_push(out@, low);
            assert(pow10(out@.len() + 1) == 10 * p);
            assert(carry == 10 * (carry / 10) + carry % 10);
            assert((carry % 10) * p + (carry / 10) * (10 * p) == carry * p) by (nonlinear_arith)
                requires
                    carry == 10 * (carry / 10) + carry % 10,
            ;
        }
        out.push(low);
        carry = carry / 10;
    }
    out
}

/// How one number stands to another.
#[derive(Clone, Copy, Debug, PartialEq, Eq, Structural)]
pub enum Relation {
    Below,
    Equal,
    Above,
}

/// How `x` stands to `y`.
pub open spec fn relation_of(x: int, y: int) -> Relation {
    if x < y {
        Relation::Below
    } else if x == y {
        Relation::Equal
    } else {
        Relation::Above
    }
}

/// A differing digit decides the comparison, whatever stands below it.
proof fn lemma_high_digit_decides(x: nat, y: nat, dx: nat, dy: nat, p: nat)
    requires
        x < p,
        y < p,
        dx < dy,
    ensures
        x + dx * p < y + dy * p,
{
    assert(x + dx * p < y + dy * p) by (nonlinear_arith)
        requires
            x < p,
            y < p,
            dx < dy,
            0 <= y,
    ;
}

/// Compares two numbers.
pub fn relate(a: &Vec<u8>, b: &Vec<u8>) -> (r: Relation)
    requires
        all_digits(a@),
        all_digits(b@),
    ensures
        r == relation_of(digits_value(a@) as int, digits_value(b@) as int),
{
    let n: usize = if a.len() < b.len() {
        b.len()
    } else {
        a.len()
    };
    let mut state = Relation::Equal;
    let mut i: usize = 0;
    proof {
        assert(a@.take(0) =~= Seq::<u8>::empty());
        assert(b@.take(0) =~= Seq::<u8>::empty());
        assert(low_value(a@, 0) == 0);
        assert(low_value(b@, 0) == 0);
    }
    while i < n
        invariant
            i <= n,
            n >= a.len(),
            n >= b.len(),
            all_digits(a@),
            all_digits(b@),
            state == relation_of(low_value(a@, i as nat) as int, low_value(b@, i as nat) as int),
        decreases n - i,
    {
        let da: u8 = if i < a.len() {
            a[i]
        } else {
            0
        };
        let db: u8 = if i < b.len() {
            b[i]
        } else {
            0
        };
        proof {
            lemma_low_value_step(a@, i as nat);
            lemma_low_value_step(b@, i as nat);
            lemma_low_value_bound(a@, i as nat);
            lemma_low_value_bound(b@, i as nat);
            let p = pow10(i as nat);
            if da < db {
                lemma_high_digit_decides(
                    low_value(a@, i as nat),
                    low_value(b@, i as nat),
                    da as nat,
                    db as nat,
                    p,
                );
            } else if db < da {
                lemma_high_digit_decides(
                    low_value(b@, i as nat),
                    low_value(a@, i as nat),
                    db as nat,
                    da as nat,
                    p,
                );
            }
        }
        if da < db {
            state = Relation::Below;
        } else if db < da {
            state = Relation::Above;
        }
        i += 1;
    }
    proof {
        assert(a@.take(a@.len() as int) =~= a@);
        assert(b@.take(b@.len() as int) =~= b@);
    }
    state
}

/// The digits of a machine word.
pub fn digits_of(m: u64) -> (r: Vec<u8>)
    ensures
        all_digits(r@),
        digits_value(r@) == m,
{
    let mut out: Vec<u8> = Vec::new();
    let mut rest: u64 = m;
    proof {
        assert(digits_value(out@) == 0);
        assert(pow10(0) == 1);
    }
    while rest > 0
        invariant
            all_digits(out@),
            digits_value(out@) + rest * pow10(out@.len()) == m,
        decreases rest,
    {
        let low: u8 = (rest % 10) as u8;
        proof {
            let p = pow10(out@.len());
            lemma_value_push(out@, low);
            assert(pow10(out@.len() + 1) == 10 * p);
            assert(rest == 10 * (rest / 10) + rest % 10);
            assert((rest % 10) * p + (rest / 10) * (10 * p) == rest * p) by (nonlinear_arith)
                requires
                    rest == 10 * (rest / 10) + rest % 10,
            ;
        }
        out.push(low);
        rest = rest / 10;
    }
    out
}

/// The product of a number and a power of two.
pub fn scale_pow2(a: &Vec<u8>, x: u32) -> (r: Vec<u8>)
    requires
        all_digits(a@),
    ensures
        all_digits(r@),
        digits_value(r@) == digits_value(a@) * pow2(x as nat),
{
    let mut out: Vec<u8> = scale(a, 1);
    let mut done: u32 = 0;
    proof {
        assert(pow2(0) == 1) by {
            vstd::arithmetic::power2::lemma2_to64();
        }
    }
    while done < x
        invariant
            done <= x,
            all_digits(out@),
            digits_value(out@) == digits_value(a@) * pow2(done as nat),
        decreases x - done,
    {
        proof {
            lemma_pow2_unfold((done + 1) as nat);
            let v = digits_value(a@);
            let q = pow2(done as nat);
            assert((v * q) * 2 == v * (2 * q)) by (nonlinear_arith);
        }
        out = scale(&out, 2);
        done += 1;
    }
    out
}

/// The place of the highest digit that is not zero, if there is one.
pub fn top_digit(digits: &Vec<u8>) -> (r: Option<usize>)
    ensures
        match r {
            Some(top) => top < digits.len() && digits@[top as int] != 0 && forall|i: int|
                top < i < digits.len() ==> digits@[i] == 0,
            None => forall|i: int| 0 <= i < digits.len() ==> digits@[i] == 0,
        },
{
    let mut left: usize = digits.len();
    while left > 0
        invariant
            left <= digits.len(),
            forall|i: int| left <= i < digits.len() ==> digits@[i] == 0,
        decreases left,
    {
        left -= 1;
        if digits[left] != 0 {
            return Some(left);
        }
    }
    None
}

/// The character of a digit.
pub open spec fn digit_char(d: nat) -> char {
    if d == 0 {
        '0'
    } else if d == 1 {
        '1'
    } else if d == 2 {
        '2'
    } else if d == 3 {
        '3'
    } else if d == 4 {
        '4'
    } else if d == 5 {
        '5'
    } else if d == 6 {
        '6'
    } else if d == 7 {
        '7'
    } else if d == 8 {
        '8'
    } else {
        '9'
    }
}

/// A number as it is written: its decimal digits, the most significant
/// first, with no zero before them; `0` for zero.
pub open spec fn numeral(n: nat) -> Seq<char>
    decreases n,
{
    if n < 10 {
        seq![digit_char(n)]
    } else {
        numeral(n / 10).push(digit_char(n % 10))
    }
}

/// The one character that writes a digit.
pub fn digit_str(d: u8) -> (r: &'static str)
    requires
        d < 10,
    ensures
        r@ == seq![digit_char(d as nat)],
{
    proof {
        reveal_strlit("0");
        reveal_strlit("1");
        reveal_strlit("2");
        reveal_strlit("3");
        reveal_strlit("4");
        reveal_strlit("5");
        reveal_strlit("6");
        reveal_strlit("7");
        reveal_strlit("8");
        reveal_strlit("9");
    }
    let r = if d == 0 {
        "0"
    } else if d == 1 {
        "1"
    } else if d == 2 {
        "2"
    } else if d == 3 {
        "3"
    } else if d == 4 {
        "4"
    } else if d == 5 {
        "5"
    } else if d == 6 {
        "6"
    } else if d == 7 {
        "7"
    } else if d == 8 {
        "8"
    } else {
        "9"
    };
    assert(r@ =~= seq![digit_char(d as nat)]);
    r
}

/// Writes a number.
pub fn numeral_text(digits: &Vec<u8>) -> (r: String)
    requires
        all_digits(digits@),
    ensures
        r@ == numeral(digits_value(digits@)),
{
    let top = match top_digit(digits) {
        Some(top) => top,
        None => {
            proof {
                lemma_value_below(digits@, 0);
                assert(pow10(0) == 1);
            }
            return String::from_str(digit_str(0));
        },
    };
    let mut out = String::from_str(digit_str(digits[top]));
    let mut i: usize = top;
    proof {
        let above = digits@.skip(top + 1);
        lemma_value_below(above, 0);
        assert(pow10(0) == 1);
        assert(digits@.skip(top as int) =~= seq![digits@[top as int]] + above);
        lemma_value_prepend(digits@[top as int], above);
    }
    while i > 0
        invariant
            i <= top < digits.len(),
            all_digits(digits@),
            digits_value(digits@.skip(i as int)) > 0,
            out@ == numeral(digits_value(digits@.skip(i as int))),
        decreases i,
    {
        i -= 1;
        proof {
            let above = digits@.skip(i + 1);
            assert(digits@.skip(i as int) =~= seq![digits@[i as int]] + above);
            lemma_value_prepend(digits@[i as int], above);
        }
        out.append(digit_str(digits[i]));
    }
    proof {
        assert(digits@.skip(0) =~= digits@);
    }
    out
}

} // verus!
