//! Exact integer arithmetic for money.
//!
//! Shares of an expense are amounts divided by a participant count.  To keep
//! them exact, the engine works in units of `1 / scale` cents, where `scale`
//! is a common multiple of every participant count in the event log.  This
//! module provides divisibility, greatest common divisors, least common
//! multiples, and the half-away-from-zero rounding used when a value in
//! those units is turned back into whole cents.

use vstd::arithmetic::div_mod::{
    lemma_fundamental_div_mod, lemma_fundamental_div_mod_converse, lemma_mod_self_0,
    lemma_small_mod,
};
use vstd::prelude::*;

verus! {

/// `d` divides `x` exactly.
pub open spec fn divides(d: int, x: int) -> bool {
    x % d == 0
}

/// Greatest common divisor, by Euclid's method.
pub open spec fn gcd(a: int, b: int) -> int
    decreases b,
{
    if b <= 0 {
        a
    } else {
        gcd(b, a % b)
    }
}

/// Least common multiple of two positive integers.
pub open spec fn lcm(a: int, b: int) -> int {
    (a / gcd(a, b)) * b
}

/// Divisibility carries over sums of multiples.
proof fn lemma_divides_linear(g: int, b: int, r: int, k: int)
    requires
        1 <= g,
        divides(g, b),
        divides(g, r),
    ensures
        divides(g, b * k + r),
{
    lemma_fundamental_div_mod(b, g);
    lemma_fundamental_div_mod(r, g);
    let p = b / g;
    let q = r / g;
    assert(b * k + r == (p * k + q) * g) by (nonlinear_arith)
        requires
            b == g * p,
            r == g * q,
    ;
    lemma_fundamental_div_mod_converse(b * k + r, g, p * k + q, 0);
}

/// Divisibility is transitive.
pub proof fn lemma_divides_trans(a: int, b: int, c: int)
    requires
        1 <= a,
        1 <= b,
        divides(a, b),
        divides(b, c),
    ensures
        divides(a, c),
{
    lemma_fundamental_div_mod(b, a);
    lemma_fundamental_div_mod(c, b);
    let p = b / a;
    let q = c / b;
    assert(c == (p * q) * a) by (nonlinear_arith)
        requires
            b == a * p,
            c == b * q,
    ;
    lemma_fundamental_div_mod_converse(c, a, p * q, 0);
}

/// A positive multiple of `a` is at least `a`.
pub proof fn lemma_divides_le(a: int, b: int)
    requires
        1 <= a,
        1 <= b,
        divides(a, b),
    ensures
        a <= b,
        1 <= b / a,
        b == (b / a) * a,
    decreases 0int,
{
    lemma_fundamental_div_mod(b, a);
    let q = b / a;
    assert(b == a * q);
    assert(1 <= q && a <= a * q) by (nonlinear_arith)
        requires
            b == a * q,
            1 <= a,
            1 <= b,
    ;
}

/// The gcd of a positive number and a nonnegative number is positive and
/// divides both.
pub proof fn lemma_gcd(a: int, b: int)
    requires
        1 <= a,
        0 <= b,
    ensures
        1 <= gcd(a, b) <= a,
        divides(gcd(a, b), a),
        divides(gcd(a, b), b),
    decreases b,
{
    if b <= 0 {
        lemma_mod_self_0(a);
        lemma_small_mod(0, a as nat);
    } else {
        let r = a % b;
        assert(0 <= r < b);
        lemma_gcd(b, r);
        let g = gcd(b, r);
        lemma_fundamental_div_mod(a, b);
        lemma_divides_linear(g, b, r, a / b);
        assert(gcd(a, b) == g);
        assert(divides(g, a));
        lemma_divides_le(g, a);
    }
}

/// The least common multiple of positive numbers is a positive common
/// multiple no larger than their product.
pub proof fn lemma_lcm(a: int, b: int)
    requires
        1 <= a,
        1 <= b,
    ensures
        a <= lcm(a, b),
        b <= lcm(a, b),
        divides(a, lcm(a, b)),
        divides(b, lcm(a, b)),
        lcm(a, b) <= a * b,
{
    let g = gcd(a, b);
    lemma_gcd(a, b);
    lemma_divides_le(g, a);
    lemma_divides_le(g, b);
    let p = a / g;
    let q = b / g;
    assert(a == p * g);
    assert(b == q * g);
    assert(lcm(a, b) == p * b);
    assert(b <= p * b && p * b <= a * b) by (nonlinear_arith)
        requires
            1 <= p,
            1 <= b,
            a == p * g,
            1 <= g,
            p * g <= a,
    ;
    assert(p * b == (p * q) * g) by (nonlinear_arith)
        requires
            b == q * g,
    ;
    lemma_fundamental_div_mod_converse(p * b, g, p * q, 0);
    assert(divides(g, p * b));
    assert(p * b == a * q) by (nonlinear_arith)
        requires
            a == p * g,
            b == q * g,
    ;
    assert(a <= a * q) by (nonlinear_arith)
        requires
            1 <= a,
            1 <= q,
    ;
    lemma_fundamental_div_mod_converse(p * b, a, q, 0);
    assert(divides(a, lcm(a, b)));
    lemma_fundamental_div_mod_converse(p * b, b, p, 0);
    assert(divides(b, lcm(a, b)));
}

/// Euclid's algorithm on machine integers.
pub fn gcd_i128(a: i128, b: i128) -> (r: i128)
    requires
        1 <= a,
        0 <= b,
    ensures
        r == gcd(a as int, b as int),
        1 <= r <= a,
    decreases 0int,
{
    let mut x: i128 = a;
    let mut y: i128 = b;
    while y > 0
        invariant
            1 <= x,
            0 <= y,
            gcd(x as int, y as int) == gcd(a as int, b as int),
        decreases y,
    {
        let t = x % y;
        proof {
            lemma_fundamental_div_mod(x as int, y as int);
        }
        x = y;
        y = t;
    }
    proof {
        lemma_gcd(a as int, b as int);
    }
    x
}

/// Rounding of the exact value `x / d` to the nearest integer, halves
/// rounded away from zero; `x` must be nonnegative.
pub open spec fn round_div(x: int, d: int) -> int {
    (2 * x + d) / (2 * d)
}

/// The rounded quotient is within half a unit of the exact one:
/// `2*d*round_div(x, d)` lies in `(2x - d, 2x + d]`.
pub proof fn lemma_round_div_bounds(x: int, d: int)
    requires
        0 <= x,
        1 <= d,
    ensures
        0 <= round_div(x, d),
        2 * d * round_div(x, d) <= 2 * x + d,
        2 * d * round_div(x, d) > 2 * x - d,
{
    lemma_fundamental_div_mod(2 * x + d, 2 * d);
    let q = round_div(x, d);
    let r = (2 * x + d) % (2 * d);
    assert(0 <= r < 2 * d);
    assert(2 * x + d == 2 * d * q + r);
    assert(0 <= q) by (nonlinear_arith)
        requires
            2 * x + d == 2 * d * q + r,
            0 <= x,
            1 <= d,
            r < 2 * d,
    ;
}

/// The rounded quotient never exceeds a bound that the exact quotient obeys.
pub proof fn lemma_round_div_le(x: int, d: int, m: int)
    requires
        0 <= x,
        1 <= d,
        x <= m * d,
    ensures
        round_div(x, d) <= m,
{
    lemma_round_div_bounds(x, d);
    let q = round_div(x, d);
    assert(q <= m) by (nonlinear_arith)
        requires
            2 * d * q <= 2 * x + d,
            x <= m * d,
            1 <= d,
    ;
}

/// Rounding of a possibly negative exact value `x / d` to whole units,
/// halves away from zero.
pub open spec fn round_cents(x: int, d: int) -> int {
    if x >= 0 {
        round_div(x, d)
    } else {
        -round_div(-x, d)
    }
}

/// Rounded whole cents computed on machine integers.
pub fn round_div_i128(x: i128, d: i128) -> (r: i128)
    requires
        0 <= x,
        1 <= d,
        2 * x + d < i128::MAX,
        2 * d < i128::MAX,
    ensures
        r == round_div(x as int, d as int),
        0 <= r,
{
    proof {
        lemma_round_div_bounds(x as int, d as int);
    }
    (2 * x + d) / (2 * d)
}

} // verus!
