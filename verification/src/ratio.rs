//! Frequency ratios: `numerator/denominator` or a bare numerator, both of 32
//! bits, kept in lowest terms.

use crate::decimal::{parse_unsigned, unsigned_of};
use crate::text::{run, scan, CharClass};
use vstd::arithmetic::div_mod::{
    lemma_fundamental_div_mod, lemma_mod_multiples_basic, lemma_mod_multiples_vanish,
    lemma_mod_self_0, lemma_small_mod,
};
use vstd::prelude::*;
use vstd::slice::slice_subrange;

verus! {

/// The greatest common divisor of `a` and `b`, by Euclid's rule; it is `a`
/// when `b` is zero.
pub open spec fn gcd(a: nat, b: nat) -> nat
    decreases b,
{
    if b == 0 {
        a
    } else {
        gcd(b, a % b)
    }
}

/// `k` divides `a`.
pub open spec fn divides(k: nat, a: nat) -> bool {
    k > 0 && a % k == 0
}

/// `numer / denom` in lowest terms: both divided by their greatest common
/// divisor.
pub open spec fn lowest_terms_of(numer: nat, denom: nat) -> (nat, nat) {
    (numer / gcd(numer, denom), denom / gcd(numer, denom))
}

/// The ratio that the token `s` denotes, in lowest terms: a numerator, then
/// optionally the first `/` of the token and a denominator after it, each an
/// unsigned decimal number of 32 bits. There is none where a part is not such
/// a number, or where either is zero.
pub open spec fn ratio_of(s: Seq<char>) -> Option<(nat, nat)> {
    let slash = run(s, CharClass::BeforeSlash) as int;
    let numer = unsigned_of(s.take(slash), u32::MAX as nat);
    let denom = if slash < s.len() {
        unsigned_of(s.skip(slash + 1), u32::MAX as nat)
    } else {
        Some(1nat)
    };
    match (numer, denom) {
        (Some(n), Some(d)) => if n > 0 && d > 0 {
            Some(lowest_terms_of(n, d))
        } else {
            None
        },
        _ => None,
    }
}

/// A divisor of `x` divides `x * q + y` exactly when it divides `y`.
proof fn lemma_divides_sum(k: nat, x: nat, q: nat, y: nat)
    requires
        divides(k, x),
    ensures
        divides(k, x * q + y) == divides(k, y),
{
    let m = x / k;
    lemma_fundamental_div_mod(x as int, k as int);
    assert(x * q + y == k * (m * q) + y) by (nonlinear_arith)
        requires
            x == k * m,
    ;
    lemma_mod_multiples_vanish((m * q) as int, y as int, k as int);
}

/// The greatest common divisor is positive unless both numbers are zero.
pub proof fn lemma_gcd_positive(a: nat, b: nat)
    requires
        a > 0 || b > 0,
    ensures
        gcd(a, b) > 0,
    decreases b,
{
    if b != 0 {
        lemma_gcd_positive(b, a % b);
    }
}

/// The greatest common divisor divides both numbers.
pub proof fn lemma_gcd_divides(a: nat, b: nat)
    requires
        a > 0 || b > 0,
    ensures
        divides(gcd(a, b), a),
        divides(gcd(a, b), b),
    decreases b,
{
    if b == 0 {
        lemma_mod_self_0(a as int);
    } else {
        let g = gcd(a, b);
        lemma_gcd_divides(b, a % b);
        lemma_fundamental_div_mod(a as int, b as int);
        lemma_divides_sum(g, b, a / b, a % b);
    }
}

/// Whatever divides both numbers divides their greatest common divisor.
pub proof fn lemma_divides_gcd(k: nat, a: nat, b: nat)
    requires
        divides(k, a),
        divides(k, b),
    ensures
        divides(k, gcd(a, b)),
    decreases b,
{
    if b != 0 {
        lemma_fundamental_div_mod(a as int, b as int);
        lemma_divides_sum(k, b, a / b, a % b);
        lemma_divides_gcd(k, b, a % b);
    }
}

/// A ratio in lowest terms has nothing left to divide out, and stands for the
/// same fraction as before.
pub proof fn lemma_lowest_terms(a: nat, b: nat)
    requires
        b > 0,
    ensures
        gcd(lowest_terms_of(a, b).0, lowest_terms_of(a, b).1) == 1,
        lowest_terms_of(a, b).1 > 0,
        lowest_terms_of(a, b).0 <= a,
        lowest_terms_of(a, b).1 <= b,
        a > 0 ==> lowest_terms_of(a, b).0 > 0,
        lowest_terms_of(a, b).0 * b == a * lowest_terms_of(a, b).1,
{
    let g = gcd(a, b);
    let p = a / g;
    let q = b / g;
    lemma_gcd_positive(a, b);
    lemma_gcd_divides(a, b);
    lemma_fundamental_div_mod(a as int, g as int);
    lemma_fundamental_div_mod(b as int, g as int);
    assert(a == g * p && b == g * q);
    assert(q > 0 && p <= a && q <= b && (a > 0 ==> p > 0) && p * b == a * q) by (nonlinear_arith)
        requires
            a == g * p,
            b == g * q,
            g > 0,
            b > 0,
    ;
    let h = gcd(p, q);
    lemma_gcd_positive(p, q);
    lemma_gcd_divides(p, q);
    lemma_fundamental_div_mod(p as int, h as int);
    lemma_fundamental_div_mod(q as int, h as int);
    let x = p / h;
    let y = q / h;
    assert(a == x * (g * h) && b == y * (g * h) && g * h >= g && (h > 1 ==> g * h > g))
        by (nonlinear_arith)
        requires
            a == g * p,
            b == g * q,
            p == h * x,
            q == h * y,
            g > 0,
            h > 0,
    ;
    lemma_mod_multiples_basic(x as int, (g * h) as int);
    lemma_mod_multiples_basic(y as int, (g * h) as int);
    lemma_divides_gcd(g * h, a, b);
    if h > 1 {
        lemma_small_mod(g, g * h);
    }
}

/// `num::rational::Ratio::new`, followed by `into_raw`: the fraction
/// `numer / denom` in lowest terms. `Ratio::new` panics on a zero
/// denominator; otherwise it divides both parts by their greatest common
/// divisor (zero becomes `0/1`), and `into_raw` hands the two parts back.
#[verifier::external_body]
fn lowest_terms(numer: u32, denom: u32) -> (r: (u32, u32))
    requires
        denom != 0,
    ensures
        (r.0 as nat, r.1 as nat) == lowest_terms_of(numer as nat, denom as nat),
{
    num::rational::Ratio::new(numer, denom).into_raw()
}

/// `numer / denom` in lowest terms, or `None` where either is zero.
pub fn reduce(numer: u32, denom: u32) -> (r: Option<(u32, u32)>)
    ensures
        match r {
            Some((n, d)) => {
                &&& numer > 0 && denom > 0
                &&& (n as nat, d as nat) == lowest_terms_of(numer as nat, denom as nat)
            },
            None => numer == 0 || denom == 0,
        },
{
    if numer == 0 || denom == 0 {
        None
    } else {
        Some(lowest_terms(numer, denom))
    }
}

/// Reads the token `s` as a ratio.
pub fn parse_ratio(s: &[char]) -> (r: Option<(u32, u32)>)
    ensures
        match r {
            Some((n, d)) => ratio_of(s@) == Some((n as nat, d as nat)),
            None => ratio_of(s@) is None,
        },
{
    let slash = scan(s, 0, CharClass::BeforeSlash);
    assert(s@.skip(0) == s@);
    let numer = match parse_unsigned(slice_subrange(s, 0, slash), 0xffff_ffff) {
        Some(n) => n as u32,
        None => {
            return None;
        },
    };
    let denom = if slash < s.len() {
        match parse_unsigned(slice_subrange(s, slash + 1, s.len()), 0xffff_ffff) {
            Some(d) => d as u32,
            None => {
                return None;
            },
        }
    } else {
        1
    };
    reduce(numer, denom)
}

} // verus!
