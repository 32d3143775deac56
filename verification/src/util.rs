//! Shared integer arithmetic: powers of ten and of the scaling bases, and the
//! half-away-from-zero rounding rule that both formatters apply.

use vstd::prelude::*;
use vstd::arithmetic::power::{pow, lemma_pow_positive, lemma_pow_adds, lemma_pow1};
use vstd::arithmetic::div_mod::{
    lemma_div_decreases, lemma_div_is_ordered, lemma_fundamental_div_mod,
    lemma_fundamental_div_mod_converse_div,
};

verus! {

/// 10 raised to `e`, as a mathematical integer.
pub open spec fn pow10(e: nat) -> int {
    pow(10, e)
}

/// `n / d` rounded to the nearest integer, halves rounded up
/// (for the non-negative values handled here this is "half away from zero").
pub open spec fn round_half_up(n: int, d: int) -> int {
    (2 * n + d) / (2 * d)
}

pub proof fn lemma_pow10_positive(e: nat)
    ensures
        pow10(e) > 0,
{
    lemma_pow_positive(10, e);
}

pub proof fn lemma_pow10_adds(a: nat, b: nat)
    ensures
        pow10(a + b) == pow10(a) * pow10(b),
{
    lemma_pow_adds(10, a, b);
}

pub proof fn lemma_pow10_step(e: nat)
    ensures
        pow10(e + 1) == pow10(e) * 10,
        pow10(0) == 1,
{
    lemma_pow_adds(10, e, 1);
    lemma_pow1(10);
    vstd::arithmetic::power::lemma_pow0(10);
}

/// Floor of the base-`base` logarithm of `n`, with `0` for `n < base`.
pub open spec fn scale_exp(base: int, n: nat) -> nat
    decreases n,
        when base >= 2
        via scale_exp_decreases
{
    if n < base {
        0
    } else {
        1 + scale_exp(base, (n as int / base) as nat)
    }
}

#[via_fn]
proof fn scale_exp_decreases(base: int, n: nat) {
    if n >= base {
        lemma_div_decreases(n as int, base);
    }
}

/// `scale_exp` really is the floor of the logarithm: `base^scale_exp(n)` is
/// the largest power of `base` that does not exceed `n`.
pub proof fn lemma_scale_exp_range(base: int, n: nat)
    requires
        base >= 2,
        n >= 1,
    ensures
        pow(base, scale_exp(base, n)) <= n < pow(base, scale_exp(base, n) + 1),
    decreases n,
{
    lemma_pow1(base);
    if n < base {
        vstd::arithmetic::power::lemma_pow0(base);
        assert(pow(base, 1) == base);
    } else {
        let q = (n as int / base) as nat;
        lemma_div_decreases(n as int, base);
        assert(q >= 1) by {
            lemma_div_is_ordered(base, n as int, base);
            assert(base / base == 1) by {
                lemma_fundamental_div_mod_converse_div(base, base, 1, 0);
            }
        }
        lemma_scale_exp_range(base, q);
        let e = scale_exp(base, q);
        lemma_pow_adds(base, e, 1);
        lemma_pow_adds(base, e + 1, 1);
        lemma_fundamental_div_mod(n as int, base);
        lemma_pow_positive(base, e);
        // pow(base, e) <= q, so pow(base, e + 1) <= q * base <= n
        assert(pow(base, e) * base <= q * base) by (nonlinear_arith)
            requires pow(base, e) <= q, base >= 2;
        assert(q * base <= n) by (nonlinear_arith)
            requires n as int == base * (q as int) + n as int % base, n as int % base >= 0;
        // n < (q + 1) * base <= pow(base, e + 1) * base
        assert(n < (q + 1) * base) by (nonlinear_arith)
            requires n as int == base * (q as int) + n as int % base, n as int % base < base;
        assert((q + 1) * base <= pow(base, e + 1) * base) by (nonlinear_arith)
            requires q + 1 <= pow(base, e + 1), base >= 2;
    }
}

/// A larger count never selects a smaller unit.
pub proof fn lemma_scale_exp_monotonic(base: int, n1: nat, n2: nat)
    requires
        base >= 2,
        n1 <= n2,
    ensures
        scale_exp(base, n1) <= scale_exp(base, n2),
    decreases n1,
{
    if n1 >= base {
        lemma_div_is_ordered(n1 as int, n2 as int, base);
        lemma_div_decreases(n1 as int, base);
        lemma_scale_exp_monotonic(base, (n1 as int / base) as nat, (n2 as int / base) as nat);
    }
}

/// Exact powers of the base sit exactly at their own exponent.
pub proof fn lemma_scale_exp_of_pow(base: int, k: nat)
    requires
        base >= 2,
    ensures
        scale_exp(base, pow(base, k) as nat) == k,
    decreases k,
{
    lemma_pow_positive(base, k);
    if k == 0 {
        vstd::arithmetic::power::lemma_pow0(base);
    } else {
        lemma_pow_adds(base, (k - 1) as nat, 1);
        lemma_pow1(base);
        lemma_pow_positive(base, (k - 1) as nat);
        let p = pow(base, (k - 1) as nat);
        assert(pow(base, k) == p * base);
        assert(p * base >= base) by (nonlinear_arith)
            requires p >= 1, base >= 2;
        assert((p * base) / base == p) by {
            lemma_fundamental_div_mod_converse_div(p * base, base, p, 0);
        }
        lemma_scale_exp_of_pow(base, (k - 1) as nat);
    }
}

/// The unit index for a count of `n`: the floored base-`base` logarithm,
/// capped at the index of the largest defined unit.
pub fn exponent_of(n: u64, base: u64) -> (e: u32)
    requires
        base == 1000 || base == 1024,
    ensures
        e == vstd::math::min(scale_exp(base as int, n as nat) as int, 6),
{
    let mut m: u64 = n;
    let mut e: u32 = 0;
    while m >= base && e < 6
        invariant
            base == 1000 || base == 1024,
            e <= 6,
            scale_exp(base as int, n as nat) == e + scale_exp(base as int, m as nat),
        decreases m,
    {
        proof {
            lemma_div_decreases(m as int, base as int);
        }
        m = m / base;
        e = e + 1;
    }
    e
}

/// Computes `base` raised to `e` for small exponents without overflow.
pub fn pow_small(base: u64, e: u32) -> (r: u64)
    requires
        base == 1000 || base == 1024,
        e <= 6,
    ensures
        r == pow(base as int, e as nat),
        1 <= r <= 0x1000000000000000,
{
    let mut r: u64 = 1;
    let mut i: u32 = 0;
    proof {
        reveal_with_fuel(pow, 7);
        assert(pow(1024, 6) == 0x1000000000000000);
        assert(pow(1000, 6) == 1000000000000000000);
    }
    while i < e
        invariant
            i <= e,
            e <= 6,
            base == 1000 || base == 1024,
            r == pow(base as int, i as nat),
            r <= pow(base as int, e as nat),
            pow(base as int, e as nat) <= 0x1000000000000000,
        decreases e - i,
    {
        proof {
            lemma_pow_adds(base as int, i as nat, 1);
            assert(pow(base as int, 1) == base) by {
                vstd::arithmetic::power::lemma_pow1(base as int);
            }
            vstd::arithmetic::power::lemma_pow_increases(base as nat, (i + 1) as nat, e as nat);
        }
        r = r * base;
        i = i + 1;
    }
    r
}

} // verus!
