//! Splitting and joining machine words at a bit boundary, stated in plain
//! arithmetic on powers of two.

use vstd::arithmetic::div_mod::{
    lemma_basic_div, lemma_div_denominator, lemma_fundamental_div_mod,
    lemma_fundamental_div_mod_converse, lemma_mod_bound, lemma_mod_breakdown, lemma_mod_mod,
    lemma_small_mod,
};
use vstd::arithmetic::power2::{lemma2_to64_rest, lemma_pow2_adds, lemma_pow2_pos, pow2};
use vstd::bits::{
    lemma_u64_low_bits_mask_is_mod, lemma_u64_pow2_no_overflow, lemma_u64_shl_is_mul,
    lemma_u64_shr_is_div, low_bits_mask,
};
use vstd::prelude::*;

verus! {

/// Dividing `hi * 2^s + lo` by `2^s` splits off `hi` and the top of `lo`; the
/// remainder is that of `lo`.
pub proof fn lemma_split_high(hi: nat, lo: nat, s: nat)
    ensures
        (hi * pow2(s) + lo) / pow2(s) == hi + lo / pow2(s),
        (hi * pow2(s) + lo) % pow2(s) == lo % pow2(s),
{
    let d = pow2(s) as int;
    lemma_pow2_pos(s);
    lemma_fundamental_div_mod(lo as int, d);
    lemma_mod_bound(lo as int, d);
    let q = hi + lo as int / d;
    let r = lo as int % d;
    assert(hi * d + lo == q * d + r) by (nonlinear_arith)
        requires
            lo == d * (lo as int / d) + r,
            q == hi + lo as int / d,
    ;
    lemma_fundamental_div_mod_converse(hi * d + lo, d, q, r);
}

/// Below `2^(s + t)`, the number `lo + hi * 2^s` with `lo < 2^s` keeps `lo`
/// and the low `t` bits of `hi`; above it lies the rest of `hi`.
pub proof fn lemma_split_low(lo: nat, hi: nat, s: nat, t: nat)
    requires
        lo < pow2(s),
    ensures
        (lo + hi * pow2(s)) % pow2(s + t) == lo + (hi % pow2(t)) * pow2(s),
        (lo + hi * pow2(s)) / pow2(s + t) == hi / pow2(t),
{
    let ds = pow2(s) as int;
    let dt = pow2(t) as int;
    lemma_pow2_pos(s);
    lemma_pow2_pos(t);
    lemma_pow2_pos(s + t);
    lemma_pow2_adds(s, t);
    lemma_fundamental_div_mod(hi as int, dt);
    lemma_mod_bound(hi as int, dt);
    let q = hi as int / dt;
    let r = hi as int % dt;
    let low = lo + r * ds;
    assert(lo + hi * ds == q * (ds * dt) + low && 0 <= low < ds * dt) by (nonlinear_arith)
        requires
            hi == dt * q + r,
            0 <= r < dt,
            0 <= lo < ds,
            low == lo + r * ds,
    ;
    lemma_fundamental_div_mod_converse(lo + hi * ds, ds * dt, q, low);
}

/// A number below `2^(s + t)` divided by `2^s` lies below `2^t`.
pub proof fn lemma_div_bound(x: nat, s: nat, t: nat)
    requires
        x < pow2(s + t),
    ensures
        x / pow2(s) < pow2(t),
{
    let ds = pow2(s) as int;
    let dt = pow2(t) as int;
    lemma_pow2_pos(s);
    lemma_pow2_pos(t);
    lemma_pow2_adds(s, t);
    lemma_fundamental_div_mod(x as int, ds);
    lemma_mod_bound(x as int, ds);
    let q = x as int / ds;
    assert(q < dt) by (nonlinear_arith)
        requires
            x == ds * q + x as int % ds,
            0 <= x as int % ds,
            x < ds * dt,
            ds > 0,
    ;
}

/// `hi * 2^s + lo` stays below `2^(s + t)` when `hi < 2^t` and `lo < 2^s`.
pub proof fn lemma_join_bound(hi: nat, lo: nat, s: nat, t: nat)
    requires
        hi < pow2(t),
        lo < pow2(s),
    ensures
        hi * pow2(s) + lo < pow2(s + t),
{
    lemma_pow2_adds(s, t);
    let ds = pow2(s) as int;
    let dt = pow2(t) as int;
    assert(hi * ds + lo < ds * dt) by (nonlinear_arith)
        requires
            0 <= hi < dt,
            0 <= lo < ds,
    ;
}

/// Taking the low `s + n` bits and dropping `s` of them is dropping `s` bits
/// and taking the low `n`.
pub proof fn lemma_mod_then_div(x: nat, s: nat, n: nat)
    ensures
        (x % pow2(s + n)) / pow2(s) == (x / pow2(s)) % pow2(n),
{
    let ds = pow2(s) as int;
    let dn = pow2(n) as int;
    lemma_pow2_pos(s);
    lemma_pow2_pos(n);
    lemma_pow2_adds(s, n);
    lemma_mod_breakdown(x as int, ds, dn);
    lemma_mod_bound(x as int, ds);
    lemma_mod_bound(x as int / ds, dn);
    let hi = ((x as int / ds) % dn) as nat;
    let lo = (x as int % ds) as nat;
    lemma_split_high(hi, lo, s);
    lemma_basic_div(lo as int, ds);
    assert(x as int % (ds * dn) == hi * ds + lo) by (nonlinear_arith)
        requires
            x as int % (ds * dn) == ds * hi + lo,
    ;
}

/// The low `s` bits of the low `t` bits are the low `s` bits, for `s <= t`.
pub proof fn lemma_mod_of_mod(x: nat, s: nat, t: nat)
    requires
        s <= t,
    ensures
        (x % pow2(t)) % pow2(s) == x % pow2(s),
{
    lemma_pow2_pos(s);
    lemma_pow2_pos((t - s) as nat);
    lemma_pow2_adds(s, (t - s) as nat);
    lemma_mod_mod(x as int, pow2(s) as int, pow2((t - s) as nat) as int);
}

/// Dropping `s` bits and then `t` bits is dropping `s + t` bits.
pub proof fn lemma_div_of_div(x: nat, s: nat, t: nat)
    ensures
        (x / pow2(s)) / pow2(t) == x / pow2(s + t),
{
    lemma_pow2_pos(s);
    lemma_pow2_pos(t);
    lemma_pow2_adds(s, t);
    lemma_div_denominator(x as int, pow2(s) as int, pow2(t) as int);
}

/// A number below `2^s` is its own low `s` bits.
pub proof fn lemma_mod_small(x: nat, s: nat)
    requires
        x < pow2(s),
    ensures
        x % pow2(s) == x,
{
    lemma_small_mod(x, pow2(s));
}

/// `2^s` does not exceed `2^t` for `s <= t`.
pub proof fn lemma_pow2_le(s: nat, t: nat)
    requires
        s <= t,
    ensures
        pow2(s) <= pow2(t),
{
    if s < t {
        vstd::arithmetic::power2::lemma_pow2_strictly_increases(s, t);
    }
}

/// The word whose low `s` bits are set and no other.
pub(crate) fn low_mask(s: u64) -> (m: u64)
    requires
        s < 64,
    ensures
        m as nat == low_bits_mask(s as nat),
{
    proof {
        lemma_u64_pow2_no_overflow(s as nat);
        lemma_u64_shl_is_mul(1, s);
    }
    (1u64 << s) - 1
}

/// The low `s` bits of `x`.
pub(crate) fn keep_low(x: u64, s: u64) -> (r: u64)
    requires
        s <= 64,
    ensures
        r as nat == x as nat % pow2(s as nat),
{
    if s >= 64 {
        proof {
            lemma2_to64_rest();
            lemma_small_mod(x as nat, pow2(64));
        }
        x
    } else {
        let m = low_mask(s);
        proof {
            lemma_u64_pow2_no_overflow(s as nat);
            lemma_u64_low_bits_mask_is_mod(x, s as nat);
        }
        x & m
    }
}

/// What is left of `x` above its low `s` bits.
pub(crate) fn drop_low(x: u64, s: u64) -> (r: u64)
    requires
        s <= 64,
    ensures
        r as nat == x as nat / pow2(s as nat),
{
    if s >= 64 {
        proof {
            lemma2_to64_rest();
            lemma_basic_div(x as int, pow2(64) as int);
        }
        0
    } else {
        proof {
            lemma_u64_shr_is_div(x, s);
        }
        x >> s
    }
}

/// `hi` set above the `s` bits of `lo`.
pub(crate) fn join(hi: u64, lo: u64, s: u64) -> (r: u64)
    requires
        s <= 64,
        lo < pow2(s as nat),
        hi * pow2(s as nat) + lo <= u64::MAX,
    ensures
        r as nat == hi * pow2(s as nat) + lo,
{
    if s >= 64 {
        proof {
            lemma2_to64_rest();
            assert(hi == 0) by (nonlinear_arith)
                requires
                    hi * pow2(64) + lo <= u64::MAX,
                    pow2(64) > u64::MAX,
            ;
        }
        lo
    } else {
        let top = hi << s;
        proof {
            lemma_u64_pow2_no_overflow(s as nat);
            lemma_u64_shl_is_mul(1, s);
            assert(hi * pow2(s as nat) <= u64::MAX);
            lemma_u64_shl_is_mul(hi, s);
            assert(lo | top == lo + top) by (bit_vector)
                requires
                    top == hi << s,
                    lo < (1u64 << s),
                    s < 64,
            ;
        }
        lo | top
    }
}

} // verus!
