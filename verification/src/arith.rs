//! Arithmetic that format expressions need and the machine does not give.

use vstd::arithmetic::div_mod::{
    lemma_fundamental_div_mod, lemma_fundamental_div_mod_converse, lemma_mod_bound,
};
use vstd::prelude::*;

verus! {

/// The floored remainder of `a` by `b`: what is left of `a` above the
/// greatest multiple of `b` that does not exceed `a / b` rounded down. It has
/// the sign of `b`.
pub open spec fn floor_mod(a: int, b: int) -> int
    recommends
        b != 0,
{
    if b > 0 {
        a % b
    } else {
        -((-a) % (-b))
    }
}

/// The floored remainder lies between zero and the divisor, on the divisor's
/// side, and differs from the dividend by a multiple of the divisor.
pub proof fn lemma_floor_mod(a: int, b: int)
    requires
        b != 0,
    ensures
        b > 0 ==> 0 <= floor_mod(a, b) < b,
        b < 0 ==> b < floor_mod(a, b) <= 0,
        (a - floor_mod(a, b)) % b == 0,
{
    if b > 0 {
        lemma_mod_bound(a, b);
        lemma_fundamental_div_mod(a, b);
        let q = a / b;
        assert(a - a % b == q * b + 0) by (nonlinear_arith)
            requires
                a == b * q + a % b,
        ;
        lemma_fundamental_div_mod_converse(a - a % b, b, q, 0);
    } else {
        let c = -b;
        lemma_mod_bound(-a, c);
        lemma_fundamental_div_mod(-a, c);
        let q = (-a) / c;
        let r = (-a) % c;
        assert(a + r == q * b) by (nonlinear_arith)
            requires
                -a == c * q + r,
                c == -b,
        ;
        lemma_multiple_mod(q, b);
    }
}

/// A multiple of `b` leaves no remainder.
proof fn lemma_multiple_mod(q: int, b: int)
    requires
        b != 0,
    ensures
        (q * b) % b == 0,
{
    if b > 0 {
        lemma_fundamental_div_mod_converse(q * b, b, q, 0);
    } else {
        // Euclidean remainder by a negative divisor equals that by its
        // absolute value.
        assert((q * b) % b == 0) by (nonlinear_arith)
            requires
                b < 0,
        ;
    }
}

/// The Euclidean remainder of a negated number, by a positive divisor.
proof fn lemma_mod_of_negation(x: int, b: int)
    requires
        b > 0,
    ensures
        (-x) % b == if x % b == 0 {
            0
        } else {
            b - x % b
        },
{
    lemma_fundamental_div_mod(x, b);
    lemma_mod_bound(x, b);
    let q = x / b;
    let r = x % b;
    if r == 0 {
        assert(-x == (-q) * b + 0) by (nonlinear_arith)
            requires
                x == b * q + 0,
        ;
        lemma_fundamental_div_mod_converse(-x, b, -q, 0);
    } else {
        assert(-x == (-q - 1) * b + (b - r)) by (nonlinear_arith)
            requires
                x == b * q + r,
        ;
        lemma_fundamental_div_mod_converse(-x, b, -q - 1, b - r);
    }
}

/// The floored remainder of `a` by `b`, `b` not zero. It has the sign of
/// `b`; for a positive `b` it lies in `0..b` and is congruent to `a`.
pub fn modulo(a: i64, b: i64) -> (r: i64)
    requires
        b != 0,
    ensures
        r == floor_mod(a as int, b as int),
        b > 0 ==> 0 <= r < b,
        b < 0 ==> b < r <= 0,
        (a - r) % (b as int) == 0,
{
    proof {
        lemma_floor_mod(a as int, b as int);
    }
    if b > 0 {
        let t: i64 = a % b;
        proof {
            lemma_mod_of_negation(-(a as int), b as int);
            lemma_mod_bound(-(a as int), b as int);
        }
        if t < 0 {
            t + b
        } else {
            t
        }
    } else {
        let na: i128 = -(a as i128);
        let nb: i128 = -(b as i128);
        let t: i128 = na % nb;
        proof {
            lemma_mod_of_negation(-(na as int), nb as int);
            lemma_mod_bound(-(na as int), nb as int);
            lemma_mod_bound(na as int, nb as int);
        }
        let m: i128 = if t < 0 {
            t + nb
        } else {
            t
        };
        (-m) as i64
    }
}

} // verus!
