//! Library-wide laws of the formatters, each proved against the same spec
//! functions that the formatters' contracts use.

use vstd::prelude::*;
use vstd::arithmetic::power::{pow, lemma_pow0, lemma_pow1, lemma_pow_adds, lemma_pow_increases, lemma_pow_positive};
use vstd::arithmetic::div_mod::{lemma_div_is_ordered, lemma_fundamental_div_mod_converse_div};
use crate::util::{pow10, round_half_up, scale_exp, lemma_pow10_positive, lemma_scale_exp_range, lemma_scale_exp_monotonic, lemma_scale_exp_of_pow};
use crate::magnitude::{spec_scale, spec_round, strip_zeros, full_places, lemma_strip_zeros_value};
use crate::decimal::{dec_exp, dec_scaled_signed};
use crate::binary::{bin_exp, bin_scaled_signed};

verus! {

/// The unit never shrinks as the byte count grows, in either unit system.
pub proof fn lemma_unit_monotonic(n1: nat, n2: nat)
    requires
        n1 <= n2,
    ensures
        dec_exp(n1) <= dec_exp(n2),
        bin_exp(n1) <= bin_exp(n2),
{
    lemma_scale_exp_monotonic(1000, n1, n2);
    lemma_scale_exp_monotonic(1024, n1, n2);
}

/// Formatting zero gives magnitude zero with the smallest unit, whatever the
/// rounding argument.
pub proof fn lemma_zero(places: Option<u8>)
    ensures
        dec_exp(0) == 0,
        bin_exp(0) == 0,
        spec_scale(1000, 0, 0, places).0 == 0,
        spec_scale(1000, 0, 0, places).1 == 0,
        spec_scale(1024, 0, 0, places).0 == 0,
        spec_scale(1024, 0, 0, places).1 == 0,
{
    lemma_pow0(1000);
    lemma_pow0(1024);
    lemma_pow0(10);
    assert(pow10(0) == 1);
    match places {
        None => {
            assert(0int / 1 == 0);
        },
        Some(p) => {
            assert(2 * 0 + 1 == 1int);
            assert(1int / 2int == 0);
            assert(round_half_up(0, 1) == 0);
        },
    }
}

/// The scaled pair `(s, l)` stands for the value `s / 10^l`; comparing it to
/// a bound `c` means comparing `s` to `c * 10^l`. For a positive count the
/// unrounded magnitude is at least one, and under the base unless the count
/// passed the largest unit.
pub proof fn lemma_magnitude_in_range(base: int, n: nat)
    requires
        base == 1000 || base == 1024,
        n >= 1,
    ensures
        ({
            let e = vstd::math::min(scale_exp(base, n) as int, 6) as nat;
            let s = spec_scale(base, n, e, None).0;
            let l = spec_scale(base, n, e, None).1;
            &&& s >= pow10(l)
            &&& (scale_exp(base, n) <= 6 ==> s < base * pow10(l))
        }),
{
    let e = vstd::math::min(scale_exp(base, n) as int, 6) as nat;
    let d = pow(base, e);
    let l0 = full_places(base, e);
    let s0 = n * pow10(l0) / d;
    let s = spec_scale(base, n, e, None).0;
    let l = spec_scale(base, n, e, None).1;
    lemma_pow_positive(base, e);
    lemma_pow10_positive(l0);
    lemma_pow10_positive(l);
    lemma_scale_exp_range(base, n);
    lemma_pow_increases(base as nat, e, scale_exp(base, n));
    assert(d <= n);
    // the unstripped scaled value is at least 10^l0
    assert(d * pow10(l0) <= n * pow10(l0)) by (nonlinear_arith)
        requires
            d <= n,
            pow10(l0) >= 1,
    ;
    lemma_div_is_ordered(d * pow10(l0), n * pow10(l0), d);
    assert((d * pow10(l0)) / d == pow10(l0)) by {
        assert(d * pow10(l0) == pow10(l0) * d + 0) by (nonlinear_arith);
        lemma_fundamental_div_mod_converse_div(d * pow10(l0), d, pow10(l0), 0);
    }
    assert(s0 >= pow10(l0));
    // stripping trailing zeros rescales both sides alike
    lemma_strip_zeros_value(s0, l0);
    let k = (l0 - l) as nat;
    lemma_pow10_positive(k);
    crate::util::lemma_pow10_adds(l, k);
    assert(s >= pow10(l)) by (nonlinear_arith)
        requires
            s * pow10(k) == s0,
            s0 >= pow10(l) * pow10(k),
            pow10(k) >= 1,
    ;
    if scale_exp(base, n) <= 6 {
        assert(e == scale_exp(base, n));
        lemma_pow_adds(base, e, 1);
        lemma_pow1(base);
        assert(n < d * base);
        assert(n * pow10(l0) < d * (base * pow10(l0))) by (nonlinear_arith)
            requires
                n < d * base,
                pow10(l0) >= 1,
        ;
        vstd::arithmetic::div_mod::lemma_multiply_divide_lt(n * pow10(l0), d, base * pow10(l0));
        assert(s0 < base * pow10(l0));
        assert((base * pow10(l)) * pow10(k) == base * (pow10(l) * pow10(k))) by (nonlinear_arith);
        assert(s < base * pow10(l)) by (nonlinear_arith)
            requires
                s * pow10(k) == s0,
                s0 < (base * pow10(l)) * pow10(k),
                pow10(k) >= 1,
        ;
    }
}

/// A count whose natural exponent passes the largest unit keeps that unit,
/// and its magnitude reaches the base or more.
pub proof fn lemma_clamped(base: int, n: nat)
    requires
        base == 1000 || base == 1024,
        scale_exp(base, n) > 6,
    ensures
        vstd::math::min(scale_exp(base, n) as int, 6) == 6,
        ({
            let s = spec_scale(base, n, 6, None).0;
            let l = spec_scale(base, n, 6, None).1;
            s >= base * pow10(l)
        }),
{
    let d = pow(base, 6);
    let l0 = full_places(base, 6);
    let s0 = n * pow10(l0) / d;
    let s = spec_scale(base, n, 6, None).0;
    let l = spec_scale(base, n, 6, None).1;
    lemma_pow_positive(base, 6);
    lemma_pow10_positive(l0);
    assert(n >= 1) by {
        if n == 0 {
            assert(scale_exp(base, 0nat) == 0);
        }
    }
    lemma_scale_exp_range(base, n);
    lemma_pow_increases(base as nat, 7, scale_exp(base, n));
    lemma_pow_adds(base, 6, 1);
    lemma_pow1(base);
    assert(d * base <= n);
    assert((d * base) * pow10(l0) <= n * pow10(l0)) by (nonlinear_arith)
        requires
            d * base <= n,
            pow10(l0) >= 1,
    ;
    lemma_div_is_ordered((d * base) * pow10(l0), n * pow10(l0), d);
    assert(((d * base) * pow10(l0)) / d == base * pow10(l0)) by {
        assert((d * base) * pow10(l0) == (base * pow10(l0)) * d + 0) by (nonlinear_arith);
        lemma_fundamental_div_mod_converse_div((d * base) * pow10(l0), d, base * pow10(l0), 0);
    }
    assert(s0 >= base * pow10(l0));
    lemma_strip_zeros_value(s0, l0);
    let k = (l0 - l) as nat;
    lemma_pow10_positive(k);
    crate::util::lemma_pow10_adds(l, k);
    assert((base * pow10(l)) * pow10(k) == base * (pow10(l) * pow10(k))) by (nonlinear_arith);
    assert(s >= base * pow10(l)) by (nonlinear_arith)
        requires
            s * pow10(k) == s0,
            s0 >= (base * pow10(l)) * pow10(k),
            pow10(k) >= 1,
    ;
}

/// Formatting an exact power of the base, within the defined unit range,
/// gives magnitude exactly one under that power's own unit.
pub proof fn lemma_exact_power(base: int, k: nat)
    requires
        base == 1000 || base == 1024,
        k <= 6,
    ensures
        scale_exp(base, pow(base, k) as nat) == k,
        spec_scale(base, pow(base, k) as nat, k, None).0 == 1,
        spec_scale(base, pow(base, k) as nat, k, None).1 == 0,
{
    lemma_scale_exp_of_pow(base, k);
    let d = pow(base, k);
    let l0 = full_places(base, k);
    lemma_pow_positive(base, k);
    lemma_pow10_positive(l0);
    assert((d * pow10(l0)) / d == pow10(l0)) by {
        assert(d * pow10(l0) == pow10(l0) * d + 0) by (nonlinear_arith);
        lemma_fundamental_div_mod_converse_div(d * pow10(l0), d, pow10(l0), 0);
    }
    crate::magnitude::lemma_strip_zeros_reaches(pow10(l0), l0, 1, l0);
}

/// Rounding an already-rounded value again, to the same or more decimal
/// places, returns the same value.
pub proof fn lemma_rounding_idempotent(s: int, l: nat, p1: nat, p2: nat)
    requires
        p1 <= p2,
    ensures
        spec_round(spec_round(s, l, p1).0, spec_round(s, l, p1).1, p2).0 == spec_round(s, l, p1).0,
        spec_round(spec_round(s, l, p1).0, spec_round(s, l, p1).1, p2).1 == spec_round(s, l, p1).1,
{
    if p1 < l {
        if s >= 0 {
            lemma_strip_zeros_value(round_half_up(s, pow10((l - p1) as nat)), p1);
        } else {
            lemma_strip_zeros_value(round_half_up(-s, pow10((l - p1) as nat)), p1);
        }
    }
}

/// Signed symmetry: negating the input negates the scaled magnitude and
/// keeps the unit, in either unit system.
pub proof fn lemma_signed_symmetry(n: int, places: Option<u8>)
    requires
        n > 0,
    ensures
        dec_scaled_signed(-n, places) == -dec_scaled_signed(n, places),
        bin_scaled_signed(-n, places) == -bin_scaled_signed(n, places),
        dec_exp(vstd::math::abs(-n)) == dec_exp(vstd::math::abs(n)),
        bin_exp(vstd::math::abs(-n)) == bin_exp(vstd::math::abs(n)),
{
    assert(vstd::math::abs(-n) == vstd::math::abs(n));
}

/// Rounding never pulls a positive count's magnitude below one.
pub proof fn lemma_rounded_magnitude_at_least_one(base: int, n: nat, p: u8)
    requires
        base == 1000 || base == 1024,
        n >= 1,
    ensures
        ({
            let e = vstd::math::min(scale_exp(base, n) as int, 6) as nat;
            let s = spec_scale(base, n, e, Some(p)).0;
            let l = spec_scale(base, n, e, Some(p)).1;
            s >= pow10(l)
        }),
{
    let e = vstd::math::min(scale_exp(base, n) as int, 6) as nat;
    let d = pow(base, e);
    let l0 = full_places(base, e);
    let pe: nat = if (p as nat) < l0 {
        p as nat
    } else {
        l0
    };
    let x = n * pow10(pe);
    let r = round_half_up(x, d);
    let s = spec_scale(base, n, e, Some(p)).0;
    let l = spec_scale(base, n, e, Some(p)).1;
    lemma_pow_positive(base, e);
    lemma_pow10_positive(pe);
    lemma_pow10_positive(l);
    lemma_scale_exp_range(base, n);
    lemma_pow_increases(base as nat, e, scale_exp(base, n));
    assert(d <= n);
    let c = pow10(pe);
    assert(2 * (d * c) + d <= 2 * x + d) by (nonlinear_arith)
        requires
            d <= n,
            c >= 1,
            d >= 1,
            x == n * c,
    ;
    lemma_div_is_ordered(2 * (d * c) + d, 2 * x + d, 2 * d);
    assert((2 * (d * c) + d) / (2 * d) == c) by {
        assert(2 * (d * c) + d == c * (2 * d) + d) by (nonlinear_arith);
        lemma_fundamental_div_mod_converse_div(2 * (d * c) + d, 2 * d, c, d);
    }
    assert(r >= c);
    lemma_strip_zeros_value(r, pe);
    let k = (pe - l) as nat;
    lemma_pow10_positive(k);
    crate::util::lemma_pow10_adds(l, k);
    assert(s >= pow10(l)) by (nonlinear_arith)
        requires
            s * pow10(k) == r,
            r >= pow10(l) * pow10(k),
            pow10(k) >= 1,
    ;
}

} // verus!
