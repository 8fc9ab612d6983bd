//! Cents values as the format writes them: decimal literals with a point.
//!
//! ```text
//! literal  ::= sign? ( digit+ '.' digit* | digit* '.' digit+ ) exponent?
//! exponent ::= ( 'e' | 'E' ) sign? digit+
//! sign     ::= '+' | '-'
//! ```
//!
//! A cents value is kept as the literal that denotes it, so that nothing of
//! what was written is lost. Which binary floating-point number a literal
//! stands for is arithmetic that this crate leaves to its callers.

use crate::text::{all_in, lemma_run_bounds, lemma_run_is, run, scan, CharClass};
use vstd::prelude::*;

verus! {

/// A sign character.
pub open spec fn is_sign(c: char) -> bool {
    c == '+' || c == '-'
}

/// The point that tells a cents value from a ratio.
pub open spec fn has_point(s: Seq<char>) -> bool {
    s.contains('.')
}

/// A character that can occur in a cents literal.
pub open spec fn is_literal_char(c: char) -> bool {
    CharClass::Digit.has(c) || is_sign(c) || c == '.' || c == 'e' || c == 'E'
}

/// `s` is an exponent: `e` or `E`, an optional sign, and at least one digit.
pub open spec fn is_exponent(s: Seq<char>) -> bool {
    &&& s.len() >= 2
    &&& (s[0] == 'e' || s[0] == 'E')
    &&& {
        let digits = if is_sign(s[1]) {
            s.skip(2)
        } else {
            s.skip(1)
        };
        digits.len() > 0 && all_in(digits, CharClass::Digit)
    }
}

/// `s` is a cents literal: an optional sign, digits, a point, digits, and an
/// optional exponent, with at least one digit beside the point.
pub open spec fn is_cents_literal(s: Seq<char>) -> bool {
    let body = if s.len() > 0 && is_sign(s[0]) {
        s.skip(1)
    } else {
        s
    };
    let whole = run(body, CharClass::Digit) as int;
    &&& whole < body.len()
    &&& body[whole] == '.'
    &&& {
        let rest = body.skip(whole + 1);
        let fraction = run(rest, CharClass::Digit) as int;
        &&& whole + fraction > 0
        &&& (fraction == rest.len() || is_exponent(rest.skip(fraction)))
    }
}

/// A cents literal is not empty, has a point, and is made of digits, signs,
/// the point and the exponent's letter alone.
pub proof fn lemma_cents_literal_chars(s: Seq<char>)
    requires
        is_cents_literal(s),
    ensures
        s.len() > 0,
        has_point(s),
        forall|i: int| 0 <= i < s.len() ==> is_literal_char(#[trigger] s[i]),
{
    let signed: int = if is_sign(s[0]) {
        1
    } else {
        0
    };
    let body = s.skip(signed);
    assert(s.skip(0) == s);
    let whole = run(body, CharClass::Digit) as int;
    let rest = body.skip(whole + 1);
    let fraction = run(rest, CharClass::Digit) as int;
    lemma_run_bounds(body, CharClass::Digit);
    lemma_run_bounds(rest, CharClass::Digit);
    assert(s[signed + whole] == '.');
    let tail = rest.skip(fraction);
    assert forall|i: int| 0 <= i < s.len() implies is_literal_char(#[trigger] s[i]) by {
        if i < signed {
        } else if i < signed + whole {
            assert(body.take(whole)[i - signed] == s[i]);
        } else if i == signed + whole {
        } else if i < signed + whole + 1 + fraction {
            assert(rest.take(fraction)[i - signed - whole - 1] == s[i]);
        } else {
            let j = i - signed - whole - 1 - fraction;
            assert(tail[j] == s[i]);
            let digits = if is_sign(tail[1]) {
                tail.skip(2)
            } else {
                tail.skip(1)
            };
            if j >= tail.len() - digits.len() {
                assert(digits[j - (tail.len() - digits.len())] == tail[j]);
            }
        }
    }
}

/// `s` is nothing, or one sign.
pub open spec fn is_optional_sign(s: Seq<char>) -> bool {
    s.len() == 0 || (s.len() == 1 && is_sign(s[0]))
}

/// The four parts are those of a cents literal: an optional sign, the digits
/// before the point, the digits after it, and an optional exponent, with a
/// digit on at least one side of the point.
pub open spec fn are_literal_parts(
    sign: Seq<char>,
    whole: Seq<char>,
    fraction: Seq<char>,
    exponent: Seq<char>,
) -> bool {
    &&& is_optional_sign(sign)
    &&& all_in(whole, CharClass::Digit)
    &&& all_in(fraction, CharClass::Digit)
    &&& whole.len() + fraction.len() > 0
    &&& (exponent.len() == 0 || is_exponent(exponent))
}

/// The literal made of the four parts, with the point between the digits.
pub open spec fn literal_of_parts(
    sign: Seq<char>,
    whole: Seq<char>,
    fraction: Seq<char>,
    exponent: Seq<char>,
) -> Seq<char> {
    sign + whole + seq!['.'] + fraction + exponent
}

/// Whatever the grammar makes is a cents literal.
pub proof fn lemma_literal_of_parts(
    sign: Seq<char>,
    whole: Seq<char>,
    fraction: Seq<char>,
    exponent: Seq<char>,
)
    requires
        are_literal_parts(sign, whole, fraction, exponent),
    ensures
        is_cents_literal(literal_of_parts(sign, whole, fraction, exponent)),
{
    let s = literal_of_parts(sign, whole, fraction, exponent);
    let signed = sign.len() as int;
    let w = whole.len() as int;
    let f = fraction.len() as int;
    assert(s.skip(0) == s);
    if signed == 0 {
        if w > 0 {
            assert(CharClass::Digit.has(whole[0]) && s[0] == whole[0]);
        } else {
            assert(s[0] == '.');
        }
    } else {
        assert(s[0] == sign[0]);
    }
    let body = s.skip(signed);
    assert(body == whole + seq!['.'] + fraction + exponent);
    assert forall|i: int| 0 <= i < w implies CharClass::Digit.has(#[trigger] body[i]) by {
        assert(body[i] == whole[i]);
    }
    assert(body[w] == '.');
    lemma_run_is(body, CharClass::Digit, w);
    let rest = body.skip(w + 1);
    assert(rest == fraction + exponent);
    assert forall|i: int| 0 <= i < f implies CharClass::Digit.has(#[trigger] rest[i]) by {
        assert(rest[i] == fraction[i]);
    }
    if f < rest.len() {
        assert(rest[f] == exponent[0]);
    }
    lemma_run_is(rest, CharClass::Digit, f);
    assert(rest.skip(f) == exponent);
}

/// A cents literal is made by the grammar: it falls into the four parts.
pub proof fn lemma_parts_of_literal(s: Seq<char>) -> (parts: (
    Seq<char>,
    Seq<char>,
    Seq<char>,
    Seq<char>,
))
    requires
        is_cents_literal(s),
    ensures
        are_literal_parts(parts.0, parts.1, parts.2, parts.3),
        s == literal_of_parts(parts.0, parts.1, parts.2, parts.3),
{
    let signed: int = if is_sign(s[0]) {
        1
    } else {
        0
    };
    assert(s.skip(0) == s);
    let body = s.skip(signed);
    let w = run(body, CharClass::Digit) as int;
    let rest = body.skip(w + 1);
    let f = run(rest, CharClass::Digit) as int;
    lemma_run_bounds(body, CharClass::Digit);
    lemma_run_bounds(rest, CharClass::Digit);
    let parts = (s.take(signed), body.take(w), rest.take(f), rest.skip(f));
    assert(s == literal_of_parts(parts.0, parts.1, parts.2, parts.3));
    parts
}

/// The cents literals are what the grammar makes, and nothing else.
pub proof fn law_cents_literals_follow_the_grammar(s: Seq<char>)
    ensures
        is_cents_literal(s) <==> exists|
            sign: Seq<char>,
            whole: Seq<char>,
            fraction: Seq<char>,
            exponent: Seq<char>,
        |
            #![trigger literal_of_parts(sign, whole, fraction, exponent)]
            are_literal_parts(sign, whole, fraction, exponent) && s == literal_of_parts(
                sign,
                whole,
                fraction,
                exponent,
            ),
{
    if is_cents_literal(s) {
        let parts = lemma_parts_of_literal(s);
        assert(s == literal_of_parts(parts.0, parts.1, parts.2, parts.3));
    }
    assert forall|sign: Seq<char>, whole: Seq<char>, fraction: Seq<char>, exponent: Seq<char>|
        are_literal_parts(sign, whole, fraction, exponent) && s == #[trigger] literal_of_parts(
            sign,
            whole,
            fraction,
            exponent,
        ) implies is_cents_literal(s) by {
        lemma_literal_of_parts(sign, whole, fraction, exponent);
    }
}

/// Whether `c` is a sign character.
fn sign(c: char) -> (r: bool)
    ensures
        r == is_sign(c),
{
    c == '+' || c == '-'
}

/// Whether the part of `s` from `from` on is an exponent.
fn exponent_from(s: &[char], from: usize) -> (r: bool)
    requires
        from <= s@.len(),
    ensures
        r == is_exponent(s@.skip(from as int)),
{
    let ghost tail = s@.skip(from as int);
    if s.len() - from < 2 {
        return false;
    }
    assert(tail[0] == s@[from as int] && tail[1] == s@[from + 1]);
    if s[from] != 'e' && s[from] != 'E' {
        return false;
    }
    let start = if sign(s[from + 1]) {
        from + 2
    } else {
        from + 1
    };
    let end = scan(s, start, CharClass::Digit);
    proof {
        let digits = s@.skip(start as int);
        assert(digits == tail.skip(start - from));
        lemma_run_bounds(digits, CharClass::Digit);
        if end == s@.len() {
            assert(digits.take(digits.len() as int) == digits);
        }
    }
    start < s.len() && end == s.len()
}

/// Whether `s` is a cents literal.
pub fn is_cents(s: &[char]) -> (r: bool)
    ensures
        r == is_cents_literal(s@),
{
    let start: usize = if s.len() > 0 && sign(s[0]) {
        1
    } else {
        0
    };
    let ghost body = s@.skip(start as int);
    assert(s@.skip(0) == s@);
    let point = scan(s, start, CharClass::Digit);
    if point == s.len() || s[point] != '.' {
        return false;
    }
    let end = scan(s, point + 1, CharClass::Digit);
    proof {
        assert(body[point - start] == s@[point as int]);
        assert(body.skip(point - start + 1) == s@.skip(point + 1));
        assert(s@.skip(point + 1).skip(end - point - 1) == s@.skip(end as int));
    }
    if (point - start) + (end - point - 1) == 0 {
        return false;
    }
    end == s.len() || exponent_from(s, end)
}

} // verus!
