//! The decimal literals that are read as numbers.
//!
//! ```text
//! Literal ::= Sign? ( 'inf' | 'infinity' | 'nan' | Number )
//! Number  ::= ( Digit+ | Digit+ '.' Digit* | Digit* '.' Digit+ ) Exp?
//! Exp     ::= ( 'e' | 'E' ) Sign? Digit+
//! Sign    ::= '+' | '-'
//! ```
//!
//! The three words are accepted in any mix of small and capital letters.
//! Nothing may stand before or after a literal, not even a blank.

use crate::digits::{all_digits, digit_char, digits_value, lemma_value_prepend, numeral};
use vstd::prelude::*;

verus! {

/// What a literal says.
pub enum Literal {
    /// `coefficient * 10^exponent`, negated if `negative`.
    Number { negative: bool, coefficient: nat, exponent: int },
    /// An infinity.
    Infinity { negative: bool },
    /// What is no number.
    NotANumber,
}

/// `c` is one of the ten digits.
pub open spec fn is_digit(c: char) -> bool {
    '0' <= c && c <= '9'
}

/// The value of a digit character.
pub open spec fn digit_of(c: char) -> nat {
    (c as int - '0' as int) as nat
}

/// The first place at or after `i` that holds no digit.
pub open spec fn digits_end(s: Seq<char>, i: int) -> int
    decreases s.len() - i,
{
    if 0 <= i < s.len() && is_digit(s[i]) {
        digits_end(s, i + 1)
    } else {
        i
    }
}

/// The number that a run of digits writes, most significant digit first.
pub open spec fn numeral_value(s: Seq<char>) -> nat
    decreases s.len(),
{
    if s.len() == 0 {
        0
    } else {
        10 * numeral_value(s.drop_last()) + digit_of(s.last())
    }
}

/// `s` is `small`, with any of its letters replaced by the letter at the
/// same place in `capital`.
pub open spec fn spells(s: Seq<char>, small: Seq<char>, capital: Seq<char>) -> bool {
    &&& s.len() == small.len()
    &&& forall|i: int| 0 <= i < s.len() ==> s[i] == small[i] || s[i] == capital[i]
}

/// `s` is `inf` or `infinity`, in any mix of small and capital letters.
pub open spec fn is_infinity_word(s: Seq<char>) -> bool {
    ||| spells(s, seq!['i', 'n', 'f'], seq!['I', 'N', 'F'])
    ||| spells(
        s,
        seq!['i', 'n', 'f', 'i', 'n', 'i', 't', 'y'],
        seq!['I', 'N', 'F', 'I', 'N', 'I', 'T', 'Y'],
    )
}

/// `s` is `nan`, in any mix of small and capital letters.
pub open spec fn is_nan_word(s: Seq<char>) -> bool {
    spells(s, seq!['n', 'a', 'n'], seq!['N', 'A', 'N'])
}

/// `c` is a plus or a minus.
pub open spec fn is_sign(c: char) -> bool {
    c == '+' || c == '-'
}

/// The exponent written from place `i` to the end of `s`: none written
/// counts as zero.
pub open spec fn parse_exponent(s: Seq<char>, i: int) -> Option<int> {
    if i >= s.len() {
        Some(0)
    } else if s[i] == 'e' || s[i] == 'E' {
        let signed = i + 1 < s.len() && is_sign(s[i + 1]);
        let from = if signed {
            i + 2
        } else {
            i + 1
        };
        if from < s.len() && digits_end(s, from) == s.len() {
            let magnitude = numeral_value(s.subrange(from, s.len() as int));
            if signed && s[i + 1] == '-' {
                Some(-magnitude)
            } else {
                Some(magnitude as int)
            }
        } else {
            None
        }
    } else {
        None
    }
}

/// Coefficient and exponent of the number written from place `start` to
/// the end of `s`. The digits on both sides of the point form the
/// coefficient; each digit behind the point lowers the exponent by one.
pub open spec fn parse_number(s: Seq<char>, start: int) -> Option<(nat, int)> {
    let a = digits_end(s, start);
    let dotted = a < s.len() && s[a] == '.';
    let b = if dotted {
        digits_end(s, a + 1)
    } else {
        a
    };
    let whole = s.subrange(start, a);
    let fraction = if dotted {
        s.subrange(a + 1, b)
    } else {
        Seq::<char>::empty()
    };
    if whole.len() + fraction.len() == 0 {
        None
    } else {
        match parse_exponent(s, b) {
            Some(e) => Some((numeral_value(whole + fraction), e - fraction.len())),
            None => None,
        }
    }
}

/// What `s` says as a literal, if it is one.
pub open spec fn parse_literal(s: Seq<char>) -> Option<Literal> {
    let signed = s.len() > 0 && is_sign(s[0]);
    let start: int = if signed {
        1
    } else {
        0
    };
    let negative = signed && s[0] == '-';
    let body = s.skip(start);
    if is_infinity_word(body) {
        Some(Literal::Infinity { negative })
    } else if is_nan_word(body) {
        Some(Literal::NotANumber)
    } else {
        match parse_number(s, start) {
            Some((coefficient, exponent)) => Some(
                Literal::Number { negative, coefficient, exponent },
            ),
            None => None,
        }
    }
}

/// The bound beyond which an exponent is not told from the bound itself.
pub const EXPONENT_LIMIT: i128 = 0x8_0000_0000_0000_0000_0000_0000;

/// A wider bound, for an exponent from which digits are still to be taken
/// off.
pub const WRITTEN_LIMIT: u128 = 0x10_0000_0000_0000_0000_0000_0000;

/// `e`, or the one of `bound` and `-bound` that it passes.
pub open spec fn clamp(e: int, bound: int) -> int {
    if e > bound {
        bound
    } else if e < -bound {
        -bound
    } else {
        e
    }
}

/// The exponent, or the bound that it passes.
pub open spec fn clamp_exponent(e: int) -> int {
    clamp(e, EXPONENT_LIMIT as int)
}

/// A literal as it was read: the coefficient's digits, least significant
/// first, and the exponent, clamped.
pub enum Scanned {
    Number { negative: bool, digits: Vec<u8>, exponent: i128 },
    Infinity { negative: bool },
    NotANumber,
}

impl Scanned {
    /// The scan holds what the literal says.
    pub open spec fn reads(self, literal: Literal) -> bool {
        match (self, literal) {
            (
                Scanned::Number { negative, digits, exponent },
                Literal::Number { negative: n, coefficient, exponent: e },
            ) => {
                &&& negative == n
                &&& all_digits(digits@)
                &&& digits_value(digits@) == coefficient
                &&& exponent == clamp_exponent(e)
            },
            (Scanned::Infinity { negative }, Literal::Infinity { negative: n }) => negative == n,
            (Scanned::NotANumber, Literal::NotANumber) => true,
            _ => false,
        }
    }
}

/// A run of digits ends where the first character that is no digit stands.
pub proof fn lemma_digits_end(s: Seq<char>, i: int, j: int)
    requires
        0 <= i <= j <= s.len(),
        forall|k: int| i <= k < j ==> is_digit(s[k]),
        j == s.len() || !is_digit(s[j]),
    ensures
        digits_end(s, i) == j,
    decreases j - i,
{
    if i < j {
        lemma_digits_end(s, i + 1, j);
    }
}

/// A numeral is worth the number of its digits taken in reverse.
pub proof fn lemma_numeral_digits(text: Seq<char>, le: Seq<u8>)
    requires
        le.len() == text.len(),
        forall|k: int| 0 <= k < le.len() ==> le[k] == digit_of(text[text.len() - 1 - k]),
    ensures
        digits_value(le) == numeral_value(text),
    decreases text.len(),
{
    if text.len() == 0 {
        assert(digits_value(le) == 0);
    } else {
        let rest = le.drop_first();
        assert(le =~= seq![le[0]] + rest);
        lemma_value_prepend(le[0], rest);
        assert forall|k: int| 0 <= k < rest.len() implies rest[k] == digit_of(
            text.drop_last()[text.drop_last().len() - 1 - k],
        ) by {
            assert(rest[k] == le[k + 1]);
        }
        lemma_numeral_digits(text.drop_last(), rest);
    }
}

/// A number that is written out is a run of digits that reads as the
/// number.
pub proof fn lemma_numeral_reads_back(n: nat)
    ensures
        numeral(n).len() > 0,
        forall|i: int| 0 <= i < numeral(n).len() ==> is_digit(#[trigger] numeral(n)[i]),
        numeral_value(numeral(n)) == n,
    decreases n,
{
    if n >= 10 {
        lemma_numeral_reads_back(n / 10);
        let s = numeral(n);
        assert(s.drop_last() =~= numeral(n / 10));
        assert(digit_of(digit_char(n % 10)) == n % 10);
        assert forall|i: int| 0 <= i < s.len() implies is_digit(#[trigger] s[i]) by {
            if i < s.len() - 1 {
                assert(s[i] == numeral(n / 10)[i]);
            }
        }
    } else {
        let s = numeral(n);
        assert(s.drop_last() =~= Seq::<char>::empty());
        assert(numeral_value(s.drop_last()) == 0);
        assert(digit_of(digit_char(n)) == n);
    }
}

/// A number that is written out is a literal for itself.
pub proof fn lemma_numeral_is_literal(n: nat)
    ensures
        parse_literal(numeral(n)) == Some(
            Literal::Number { negative: false, coefficient: n, exponent: 0 },
        ),
{
    let s = numeral(n);
    lemma_numeral_reads_back(n);
    lemma_digits_end(s, 0, s.len() as int);
    assert(is_digit(s[0]));
    assert(s.skip(0) =~= s);
    assert(s.subrange(0, s.len() as int) =~= s);
    assert(s + Seq::<char>::empty() =~= s);
}

/// Whether the characters from place `start` on spell the word.
fn spells_at(chars: &Vec<char>, start: usize, small: &Vec<char>, capital: &Vec<char>) -> (r: bool)
    requires
        start <= chars.len(),
        small.len() == capital.len(),
    ensures
        r == spells(chars@.skip(start as int), small@, capital@),
{
    if chars.len() - start != small.len() {
        return false;
    }
    let mut i: usize = 0;
    while i < small.len()
        invariant
            i <= small.len(),
            start <= chars.len(),
            chars.len() - start == small.len(),
            small.len() == capital.len(),
            forall|k: int|
                0 <= k < i ==> chars@.skip(start as int)[k] == small@[k] || chars@.skip(
                    start as int,
                )[k] == capital@[k],
        decreases small.len() - i,
    {
        let c = chars[start + i];
        if c != small[i] && c != capital[i] {
            assert(chars@.skip(start as int)[i as int] == c);
            return false;
        }
        i += 1;
    }
    true
}

/// The value of a digit character, if it is one.
fn digit_value(c: char) -> (r: Option<u8>)
    ensures
        r is Some <==> is_digit(c),
        r is Some ==> r->0 == digit_of(c) && r->0 < 10,
{
    if '0' <= c && c <= '9' {
        Some(((c as u32) - 48) as u8)
    } else {
        None
    }
}

/// Reads the digits that stand from place `from` on, and puts their values
/// behind those already in `be`.
fn scan_digits(chars: &Vec<char>, from: usize, be: &mut Vec<u8>) -> (end: usize)
    requires
        from <= chars.len(),
        all_digits(old(be)@),
    ensures
        from <= end <= chars.len(),
        end == digits_end(chars@, from as int),
        all_digits(final(be)@),
        final(be)@.len() == old(be)@.len() + (end - from),
        forall|k: int| 0 <= k < old(be)@.len() ==> final(be)@[k] == old(be)@[k],
        forall|k: int|
            from <= k < end ==> is_digit(chars@[k]) && final(be)@[old(be)@.len() + k - from]
                == digit_of(chars@[k]),
{
    let n = chars.len();
    let mut pos: usize = from;
    let ghost before = be@;
    loop
        invariant
            from <= pos <= n,
            n == chars.len(),
            all_digits(be@),
            be@.len() == before.len() + (pos - from),
            forall|k: int| 0 <= k < before.len() ==> be@[k] == before[k],
            forall|k: int|
                from <= k < pos ==> is_digit(chars@[k]) && be@[before.len() + k - from]
                    == digit_of(chars@[k]),
        ensures
            pos == n || !is_digit(chars@[pos as int]),
        decreases n - pos,
    {
        if pos >= n {
            break ;
        }
        match digit_value(chars[pos]) {
            Some(d) => {
                be.push(d);
                pos += 1;
            },
            None => {
                break ;
            },
        }
    }
    proof {
        lemma_digits_end(chars@, from as int, pos as int);
    }
    pos
}

/// Reads the exponent that stands from place `i` to the end.
fn scan_exponent(chars: &Vec<char>, i: usize) -> (r: Option<i128>)
    requires
        i <= chars.len(),
    ensures
        match parse_exponent(chars@, i as int) {
            Some(e) => r == Some(clamp(e, WRITTEN_LIMIT as int) as i128),
            None => r is None,
        },
{
    let n = chars.len();
    if i >= n {
        return Some(0);
    }
    if chars[i] != 'e' && chars[i] != 'E' {
        return None;
    }
    let signed = i + 1 < n && (chars[i + 1] == '+' || chars[i + 1] == '-');
    let from: usize = if signed {
        i + 2
    } else {
        i + 1
    };
    if from >= n {
        return None;
    }
    let minus = signed && chars[i + 1] == '-';
    let mut pos: usize = from;
    let mut magnitude: u128 = 0;
    proof {
        assert(chars@.subrange(from as int, from as int) =~= Seq::<char>::empty());
    }
    while pos < n
        invariant
            from <= pos <= n,
            n == chars.len(),
            i < n,
            chars@[i as int] == 'e' || chars@[i as int] == 'E',
            signed == (i + 1 < n && is_sign(chars@[i + 1])),
            from == if signed {
                i + 2
            } else {
                i + 1
            },
            forall|k: int| from <= k < pos ==> is_digit(chars@[k]),
            magnitude <= WRITTEN_LIMIT,
            magnitude == clamp(
                numeral_value(chars@.subrange(from as int, pos as int)) as int,
                WRITTEN_LIMIT as int,
            ),
        decreases n - pos,
    {
        match digit_value(chars[pos]) {
            None => {
                proof {
                    lemma_digits_end(chars@, from as int, pos as int);
                }
                return None;
            },
            Some(d) => {
                proof {
                    assert(chars@.subrange(from as int, pos + 1).drop_last() =~= chars@.subrange(
                        from as int,
                        pos as int,
                    ));
                }
                let t: u128 = magnitude * 10 + d as u128;
                magnitude =
                if t > WRITTEN_LIMIT {
                    WRITTEN_LIMIT
                } else {
                    t
                };
                pos += 1;
            },
        }
    }
    proof {
        lemma_digits_end(chars@, from as int, n as int);
    }
    if minus {
        Some(-(magnitude as i128))
    } else {
        Some(magnitude as i128)
    }
}

/// The digits of `be` in reverse.
fn reversed(be: &Vec<u8>) -> (le: Vec<u8>)
    ensures
        le@.len() == be@.len(),
        forall|k: int| 0 <= k < le@.len() ==> le@[k] == be@[be@.len() - 1 - k],
{
    let mut le: Vec<u8> = Vec::new();
    let mut left: usize = be.len();
    while left > 0
        invariant
            left <= be.len(),
            le@.len() == be.len() - left,
            forall|k: int| 0 <= k < le@.len() ==> le@[k] == be@[be@.len() - 1 - k],
        decreases left,
    {
        left -= 1;
        le.push(be[left]);
    }
    le
}

/// Reads the number that stands from place `start` to the end.
fn scan_number(chars: &Vec<char>, start: usize, negative: bool) -> (r: Option<Scanned>)
    requires
        start <= chars.len(),
    ensures
        match parse_number(chars@, start as int) {
            Some((coefficient, exponent)) => r is Some && r->0.reads(
                Literal::Number { negative, coefficient, exponent },
            ),
            None => r is None,
        },
{
    let n = chars.len();
    let mut be: Vec<u8> = Vec::new();
    let a = scan_digits(chars, start, &mut be);
    let dotted = a < n && chars[a] == '.';
    let b = if dotted {
        scan_digits(chars, a + 1, &mut be)
    } else {
        a
    };
    if be.len() == 0 {
        return None;
    }
    let fraction_len: usize = if dotted {
        b - (a + 1)
    } else {
        0
    };
    let written = match scan_exponent(chars, b) {
        Some(e) => e,
        None => {
            return None;
        },
    };
    let le = reversed(&be);
    proof {
        let whole = chars@.subrange(start as int, a as int);
        let fraction = if dotted {
            chars@.subrange(a + 1, b as int)
        } else {
            Seq::<char>::empty()
        };
        let text = whole + fraction;
        assert(text.len() == be@.len());
        assert forall|k: int| 0 <= k < le@.len() implies le@[k] == digit_of(
            text[text.len() - 1 - k],
        ) by {
            let j = be@.len() - 1 - k;
            if j < whole.len() {
                assert(text[j] == chars@[start + j]);
            } else {
                assert(text[j] == chars@[a + 1 + (j - whole.len())]);
            }
        }
        lemma_numeral_digits(text, le@);
        assert forall|k: int| 0 <= k < le@.len() implies le@[k] < 10 by {
            assert(le@[k] == be@[be@.len() - 1 - k]);
        }
    }
    let lowered: i128 = written - fraction_len as i128;
    let exponent: i128 = if lowered > EXPONENT_LIMIT {
        EXPONENT_LIMIT
    } else if lowered < -EXPONENT_LIMIT {
        -EXPONENT_LIMIT
    } else {
        lowered
    };
    Some(Scanned::Number { negative, digits: le, exponent })
}

/// Reads a literal.
pub fn scan(chars: &Vec<char>) -> (r: Option<Scanned>)
    ensures
        match parse_literal(chars@) {
            Some(literal) => r is Some && r->0.reads(literal),
            None => r is None,
        },
{
    let n = chars.len();
    let signed = n > 0 && (chars[0] == '+' || chars[0] == '-');
    let start: usize = if signed {
        1
    } else {
        0
    };
    let negative = signed && chars[0] == '-';
    let inf_small = vec!['i', 'n', 'f'];
    let inf_capital = vec!['I', 'N', 'F'];
    let infinity_small = vec!['i', 'n', 'f', 'i', 'n', 'i', 't', 'y'];
    let infinity_capital = vec!['I', 'N', 'F', 'I', 'N', 'I', 'T', 'Y'];
    let nan_small = vec!['n', 'a', 'n'];
    let nan_capital = vec!['N', 'A', 'N'];
    proof {
        assert(inf_small@ =~= seq!['i', 'n', 'f']);
        assert(inf_capital@ =~= seq!['I', 'N', 'F']);
        assert(infinity_small@ =~= seq!['i', 'n', 'f', 'i', 'n', 'i', 't', 'y']);
        assert(infinity_capital@ =~= seq!['I', 'N', 'F', 'I', 'N', 'I', 'T', 'Y']);
        assert(nan_small@ =~= seq!['n', 'a', 'n']);
        assert(nan_capital@ =~= seq!['N', 'A', 'N']);
    }
    if spells_at(chars, start, &inf_small, &inf_capital) || spells_at(
        chars,
        start,
        &infinity_small,
        &infinity_capital,
    ) {
        return Some(Scanned::Infinity { negative });
    }
    if spells_at(chars, start, &nan_small, &nan_capital) {
        return Some(Scanned::NotANumber);
    }
    scan_number(chars, start, negative)
}

} // verus!
