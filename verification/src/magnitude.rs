//! The exact scaled magnitude: a sign, an integer part and a sequence of
//! decimal fraction digits. Scaling a byte count by a power of the base and
//! rounding half away from zero are long division and a final carry, so the
//! whole value stays in integer arithmetic.

use vstd::prelude::*;
use vstd::string::StringExecFns;
use vstd::arithmetic::power::pow;
use vstd::arithmetic::div_mod::{
    lemma_fundamental_div_mod, lemma_fundamental_div_mod_converse_div,
    lemma_fundamental_div_mod_converse_mod, lemma_mod_multiples_basic, lemma_mod_self_0,
    lemma_div_is_ordered_by_denominator,
};
use crate::util::{pow10, round_half_up, lemma_pow10_positive, lemma_pow10_adds, lemma_pow10_step, pow_small};

verus! {

/// The numeric part of a formatted byte count, kept exactly: the value is
/// `int_part` followed by the decimal digits of `frac` after the point
/// (most significant first), negated when `neg` is set.
pub struct Magnitude {
    pub neg: bool,
    pub int_part: u64,
    pub frac: Vec<u8>,
}

/// The value of a big-endian sequence of decimal digits read as one integer.
pub open spec fn digits_val(s: Seq<u8>) -> int
    decreases s.len(),
{
    if s.len() == 0 {
        0
    } else {
        digits_val(s.drop_last()) * 10 + s.last()
    }
}

/// Every entry is a single decimal digit.
pub open spec fn digits_ok(s: Seq<u8>) -> bool {
    forall|i: int| 0 <= i < s.len() ==> s[i] < 10
}

impl Magnitude {
    /// The absolute value scaled to an integer: `|self| * 10^places()`.
    pub open spec fn abs_scaled(self) -> int {
        self.int_part * pow10(self.frac@.len()) + digits_val(self.frac@)
    }

    /// The signed value scaled to an integer: `self * 10^places()`.
    pub open spec fn scaled(self) -> int {
        if self.neg {
            -self.abs_scaled()
        } else {
            self.abs_scaled()
        }
    }

    /// How many decimal places the digit form carries.
    pub open spec fn places(self) -> nat {
        self.frac@.len()
    }

    /// Canonical form: single digits, no trailing zero digit, and a sign
    /// only on a non-zero value.
    pub open spec fn wf(self) -> bool {
        &&& digits_ok(self.frac@)
        &&& (self.frac@.len() == 0 || self.frac@.last() != 0)
        &&& (self.neg ==> self.abs_scaled() != 0)
    }
}

/// Strips trailing decimal zeros: the canonical scaled pair for the value
/// `s / 10^l`.
pub open spec fn strip_zeros(s: int, l: nat) -> (int, nat)
    decreases l,
{
    if l > 0 && s % 10 == 0 {
        strip_zeros(s / 10, (l - 1) as nat)
    } else {
        (s, l)
    }
}

/// Decimal digits that the exact expansion of a fraction over `base^e` needs.
pub open spec fn full_places(base: int, e: nat) -> nat {
    if base == 1000 {
        3 * e
    } else {
        10 * e
    }
}

/// The canonical scaled form of `n / base^e`: a pair `(s, l)` whose value is
/// `s / 10^l`, rounded half away from zero to `places` decimal places when
/// given (places beyond the exact expansion change nothing).
pub open spec fn spec_scale(base: int, n: nat, e: nat, places: Option<u8>) -> (int, nat) {
    let d = pow(base, e);
    let l0 = full_places(base, e);
    match places {
        None => strip_zeros(n * pow10(l0) / d, l0),
        Some(p) => {
            let pe = if p < l0 { p as nat } else { l0 };
            strip_zeros(round_half_up(n * pow10(pe), d), pe)
        },
    }
}

pub proof fn lemma_digits_val_bounds(s: Seq<u8>)
    requires
        digits_ok(s),
    ensures
        0 <= digits_val(s) < pow10(s.len()),
    decreases s.len(),
{
    lemma_pow10_positive(s.len());
    if s.len() > 0 {
        lemma_digits_val_bounds(s.drop_last());
        lemma_pow10_step((s.len() - 1) as nat);
        let v = digits_val(s.drop_last());
        let p = pow10((s.len() - 1) as nat);
        assert(v * 10 + s.last() < p * 10) by (nonlinear_arith)
            requires
                v < p,
                s.last() < 10,
        ;
        assert(v * 10 + s.last() >= 0) by (nonlinear_arith)
            requires
                v >= 0,
                s.last() >= 0,
        ;
    }
}

/// A scaled value ends in the last fraction digit.
proof fn lemma_scaled_last_mod(a: int, s: Seq<u8>)
    requires
        digits_ok(s),
        s.len() >= 1,
        a >= 0,
    ensures
        (a * pow10(s.len()) + digits_val(s)) % 10 == s.last(),
{
    let l1 = (s.len() - 1) as nat;
    lemma_pow10_step(l1);
    lemma_pow10_positive(l1);
    let q = a * pow10(l1) + digits_val(s.drop_last());
    assert(a * pow10(s.len()) + digits_val(s) == q * 10 + s.last()) by (nonlinear_arith)
        requires
            pow10(s.len()) == pow10(l1) * 10,
            digits_val(s) == digits_val(s.drop_last()) * 10 + s.last(),
            q == a * pow10(l1) + digits_val(s.drop_last()),
    ;
    lemma_fundamental_div_mod_converse_mod(a * pow10(s.len()) + digits_val(s), 10, q, s.last() as int);
}

/// Walking `strip_zeros` down `k` known zero digits.
pub proof fn lemma_strip_zeros_reaches(s: int, l: nat, s2: int, k: nat)
    requires
        k <= l,
        s == s2 * pow10(k),
        l - k == 0 || s2 % 10 != 0,
    ensures
        strip_zeros(s, l) == (s2, (l - k) as nat),
    decreases k,
{
    if k == 0 {
        assert(pow10(0) == 1) by {
            vstd::arithmetic::power::lemma_pow0(10);
        }
    } else {
        let p1 = pow10((k - 1) as nat);
        lemma_pow10_step((k - 1) as nat);
        lemma_pow10_positive((k - 1) as nat);
        assert(s == (s2 * p1) * 10) by (nonlinear_arith)
            requires
                s == s2 * (p1 * 10),
        ;
        lemma_fundamental_div_mod_converse_mod(s, 10, s2 * p1, 0);
        lemma_fundamental_div_mod_converse_div(s, 10, s2 * p1, 0);
        lemma_strip_zeros_reaches(s2 * p1, (l - 1) as nat, s2, (k - 1) as nat);
    }
}

/// What `strip_zeros` returns still scales back to the value it was given.
pub proof fn lemma_strip_zeros_value(s: int, l: nat)
    ensures
        strip_zeros(s, l).1 <= l,
        strip_zeros(s, l).0 * pow10((l - strip_zeros(s, l).1) as nat) == s,
    decreases l,
{
    if l > 0 && s % 10 == 0 {
        lemma_fundamental_div_mod(s, 10);
        lemma_strip_zeros_value(s / 10, (l - 1) as nat);
        let (s2, l2) = strip_zeros(s / 10, (l - 1) as nat);
        lemma_pow10_step((l - 1 - l2) as nat);
        assert(s2 * pow10((l - l2) as nat) == s) by (nonlinear_arith)
            requires
                s2 * pow10((l - 1 - l2) as nat) == s / 10,
                s == (s / 10) * 10,
                pow10((l - l2) as nat) == pow10((l - 1 - l2) as nat) * 10,
        ;
    } else {
        assert(pow10(0) == 1) by {
            vstd::arithmetic::power::lemma_pow0(10);
        }
    }
}

/// Dropping a trailing nine while a carry of one is pending.
proof fn lemma_carry_pop(t: int, a: int, v: int, l: nat, k: nat)
    requires
        l >= 1,
        t == (a * pow10(l) + (v * 10 + 9) + 1) * pow10(k),
    ensures
        t == (a * pow10((l - 1) as nat) + v + 1) * pow10((k + 1) as nat),
{
    lemma_pow10_step((l - 1) as nat);
    lemma_pow10_step(k);
    assert(t == (a * pow10((l - 1) as nat) + v + 1) * pow10((k + 1) as nat)) by (nonlinear_arith)
        requires
            t == (a * (pow10((l - 1) as nat) * 10) + (v * 10 + 9) + 1) * pow10(k),
            pow10((k + 1) as nat) == pow10(k) * 10,
    ;
}

/// Dropping a trailing zero digit.
proof fn lemma_zero_pop(t: int, a: int, v: int, l: nat, k: nat)
    requires
        l >= 1,
        t == (a * pow10(l) + v * 10) * pow10(k),
    ensures
        t == (a * pow10((l - 1) as nat) + v) * pow10((k + 1) as nat),
{
    lemma_pow10_step((l - 1) as nat);
    lemma_pow10_step(k);
    assert(t == (a * pow10((l - 1) as nat) + v) * pow10((k + 1) as nat)) by (nonlinear_arith)
        requires
            t == (a * (pow10((l - 1) as nat) * 10) + v * 10) * pow10(k),
            pow10((k + 1) as nat) == pow10(k) * 10,
    ;
}

/// Brings a raw digit expansion into canonical form, first adding one unit in
/// the last place when `round_up` asks for it: the pending carry turns each
/// trailing nine into a zero that stripping would remove anyway.
#[verifier::rlimit(50)]
#[verifier::spinoff_prover]
fn settle(int_part: u64, frac: Vec<u8>, round_up: bool) -> (m: Magnitude)
    requires
        digits_ok(frac@),
        round_up ==> int_part < u64::MAX,
    ensures
        m.wf(),
        !m.neg,
        m.abs_scaled() == strip_zeros(
            int_part * pow10(frac@.len()) + digits_val(frac@) + (if round_up { 1int } else { 0int }),
            frac@.len(),
        ).0,
        m.places() == strip_zeros(
            int_part * pow10(frac@.len()) + digits_val(frac@) + (if round_up { 1int } else { 0int }),
            frac@.len(),
        ).1,
{
    let ghost l0: nat = frac@.len();
    let ghost orig_int: u64 = int_part;
    let ghost orig_frac: Seq<u8> = frac@;
    let ghost t: int = int_part * pow10(l0) + digits_val(frac@)
        + (if round_up { 1int } else { 0int });
    let mut int_part = int_part;
    let mut frac = frac;
    proof {
        lemma_pow10_step(0);
    }
    if round_up {
        while frac.len() > 0 && frac[frac.len() - 1] == 9
            invariant
                digits_ok(frac@),
                frac@.len() <= l0,
                int_part < u64::MAX,
                t == (int_part * pow10(frac@.len()) + digits_val(frac@) + 1)
                    * pow10((l0 - frac@.len()) as nat),
            decreases frac@.len(),
        {
            let ghost prev = frac@;
            let ghost k = (l0 - prev.len()) as nat;
            frac.pop();
            proof {
                assert(frac@ =~= prev.drop_last());
                lemma_carry_pop(t, int_part as int, digits_val(frac@), prev.len(), k);
            }
        }
        if frac.len() == 0 {
            int_part = int_part + 1;
            proof {
                assert(pow10(0) == 1) by {
                    vstd::arithmetic::power::lemma_pow0(10);
                }
                assert(t == int_part * pow10(l0));
                lemma_strip_zeros_reaches(t, l0, int_part as int, l0);
                assert(strip_zeros(t, l0).0 == int_part);
                assert(strip_zeros(t, l0).1 == 0);
                assert(digits_val(frac@) == 0);
            }
        } else {
            let ghost before = frac@;
            let d = frac[frac.len() - 1];
            frac.pop();
            frac.push(d + 1);
            proof {
                assert(frac@.drop_last() =~= before.drop_last());
                assert(frac@.last() == d + 1);
                assert(digits_val(frac@) == digits_val(before.drop_last()) * 10 + d + 1);
                assert(digits_val(before) == digits_val(before.drop_last()) * 10 + d);
                let s2 = int_part * pow10(frac@.len()) + digits_val(frac@);
                lemma_scaled_last_mod(int_part as int, frac@);
                assert(s2 % 10 == d + 1);
                assert(t == s2 * pow10((l0 - frac@.len()) as nat));
                lemma_strip_zeros_reaches(t, l0, s2, (l0 - frac@.len()) as nat);
                assert(strip_zeros(t, l0).0 == s2);
                assert(strip_zeros(t, l0).1 == frac@.len());
            }
        }
    } else {
        while frac.len() > 0 && frac[frac.len() - 1] == 0
            invariant
                digits_ok(frac@),
                frac@.len() <= l0,
                t == (int_part * pow10(frac@.len()) + digits_val(frac@))
                    * pow10((l0 - frac@.len()) as nat),
            decreases frac@.len(),
        {
            let ghost prev = frac@;
            let ghost k = (l0 - prev.len()) as nat;
            frac.pop();
            proof {
                assert(frac@ =~= prev.drop_last());
                lemma_zero_pop(t, int_part as int, digits_val(frac@), prev.len(), k);
            }
        }
        proof {
            let s2 = int_part * pow10(frac@.len()) + digits_val(frac@);
            if frac@.len() > 0 {
                lemma_scaled_last_mod(int_part as int, frac@);
            }
            assert(t == s2 * pow10((l0 - frac@.len()) as nat));
            lemma_strip_zeros_reaches(t, l0, s2, (l0 - frac@.len()) as nat);
            assert(strip_zeros(t, l0).0 == s2);
            assert(strip_zeros(t, l0).1 == frac@.len());
        }
    }
    let m = Magnitude { neg: false, int_part, frac };
    proof {
        assert(t == orig_int * pow10(orig_frac.len()) + digits_val(orig_frac) + (if round_up {
            1int
        } else {
            0int
        }));
        assert(m.int_part == int_part);
        assert(m.frac@ =~= frac@);
        assert(m.abs_scaled() == int_part * pow10(frac@.len()) + digits_val(frac@));
        assert(m.abs_scaled() == strip_zeros(t, l0).0);
        assert(m.places() == strip_zeros(t, l0).1);
    }
    m
}

/// Rounding a canonical scaled pair to `p` decimal places, half away from
/// zero; asking for at least as many places as the pair carries changes
/// nothing.
pub open spec fn spec_round(s: int, l: nat, p: nat) -> (int, nat) {
    if p >= l {
        (s, l)
    } else if s >= 0 {
        strip_zeros(round_half_up(s, pow10((l - p) as nat)), p)
    } else {
        let r = strip_zeros(round_half_up(-s, pow10((l - p) as nat)), p);
        (-r.0, r.1)
    }
}

/// A digit string splits at `p` into a high and a low part.
proof fn lemma_digits_split(s: Seq<u8>, p: nat)
    requires
        p <= s.len(),
    ensures
        digits_val(s) == digits_val(s.take(p as int)) * pow10((s.len() - p) as nat)
            + digits_val(s.skip(p as int)),
    decreases s.len(),
{
    if p == s.len() {
        assert(s.take(p as int) =~= s);
        assert(s.skip(p as int) =~= Seq::<u8>::empty());
        lemma_pow10_step(0);
    } else {
        let d = s.drop_last();
        assert(s.take(p as int) =~= d.take(p as int));
        assert(s.skip(p as int).drop_last() =~= d.skip(p as int));
        assert(s.skip(p as int).last() == s.last());
        lemma_digits_split(d, p);
        lemma_pow10_step((d.len() - p) as nat);
        let hi: int = digits_val(s.take(p as int));
        assert(digits_val(s) == hi * pow10((s.len() - p) as nat) + digits_val(
            s.skip(p as int),
        )) by (nonlinear_arith)
            requires
                digits_val(s) == digits_val(d) * 10 + s.last(),
                digits_val(d) == hi * pow10((d.len() - p) as nat) + digits_val(d.skip(p as int)),
                digits_val(s.skip(p as int)) == digits_val(d.skip(p as int)) * 10 + s.last(),
                pow10((s.len() - p) as nat) == pow10((d.len() - p) as nat) * 10,
                s.len() == d.len() + 1,
        ;
    }
}

impl Magnitude {
    /// Rounds to `places` decimal places, half away from zero, as the
    /// rounding helper of the formatters does; extra places are a no-op.
    pub fn round_to(&self, places: u8) -> (r: Magnitude)
        requires
            self.wf(),
            self.int_part < u64::MAX,
        ensures
            r.wf(),
            r.scaled() == spec_round(self.scaled(), self.places(), places as nat).0,
            r.places() == spec_round(self.scaled(), self.places(), places as nat).1,
    {
        if self.frac.len() <= places as usize {
            let mut digits: Vec<u8> = Vec::new();
            let mut i: usize = 0;
            while i < self.frac.len()
                invariant
                    i <= self.frac@.len(),
                    digits@ =~= self.frac@.take(i as int),
                decreases self.frac@.len() - i,
            {
                digits.push(self.frac[i]);
                proof {
                    assert(digits@ =~= self.frac@.take(i + 1));
                }
                i = i + 1;
            }
            proof {
                assert(digits@ =~= self.frac@);
            }
            return Magnitude { neg: self.neg, int_part: self.int_part, frac: digits };
        }
        let p: usize = places as usize;
        let mut keep: Vec<u8> = Vec::new();
        let mut i: usize = 0;
        while i < p
            invariant
                i <= p,
                p < self.frac@.len(),
                keep@ =~= self.frac@.take(i as int),
            decreases p - i,
        {
            keep.push(self.frac[i]);
            proof {
                assert(keep@ =~= self.frac@.take(i + 1));
            }
            i = i + 1;
        }
        let round_up: bool = self.frac[p] >= 5;
        proof {
            assert(keep@ =~= self.frac@.take(p as int));
            assert(digits_ok(keep@));
            lemma_round_decision(self.int_part as int, self.frac@, p as nat);
        }
        let ghost gkeep: Seq<u8> = keep@;
        let out = settle(self.int_part, keep, round_up);
        proof {
            let l: nat = self.places();
            let kd: nat = (l - p) as nat;
            let s_abs: int = self.abs_scaled();
            let target: int = round_half_up(s_abs, pow10(kd));
            assert(target == self.int_part * pow10(p as nat) + digits_val(gkeep) + (if round_up {
                1int
            } else {
                0int
            }));
            assert(out.abs_scaled() == strip_zeros(target, p as nat).0);
            assert(out.places() == strip_zeros(target, p as nat).1);
            lemma_digits_val_bounds(self.frac@);
            lemma_pow10_positive(l);
            assert(self.int_part * pow10(l) >= 0) by (nonlinear_arith)
                requires
                    self.int_part >= 0,
                    pow10(l) >= 1,
            ;
            assert(s_abs >= 0);
        }
        if self.neg && (out.int_part > 0 || out.frac.len() > 0) {
            proof {
                lemma_digits_val_bounds(out.frac@);
                lemma_pow10_positive(out.frac@.len());
                if out.int_part > 0 {
                    assert(out.int_part * pow10(out.frac@.len()) >= pow10(out.frac@.len()))
                        by (nonlinear_arith)
                        requires
                            out.int_part >= 1,
                            pow10(out.frac@.len()) >= 1,
                    ;
                }
                if out.frac@.len() > 0 {
                    lemma_scaled_last_mod(out.int_part as int, out.frac@);
                }
            }
            Magnitude { neg: true, int_part: out.int_part, frac: out.frac }
        } else {
            out
        }
    }
}

/// Truncating at `p` and looking at the first dropped digit is exactly
/// rounding half away from zero on the absolute value.
proof fn lemma_round_decision(a: int, s: Seq<u8>, p: nat)
    requires
        digits_ok(s),
        p < s.len(),
        a >= 0,
    ensures
        round_half_up(a * pow10(s.len()) + digits_val(s), pow10((s.len() - p) as nat)) == a
            * pow10(p) + digits_val(s.take(p as int)) + (if s[p as int] >= 5 {
            1int
        } else {
            0int
        }),
{
    let l = s.len();
    let k = (l - p) as nat;
    let pk = pow10(k);
    let hi: int = a * pow10(p) + digits_val(s.take(p as int));
    let tail = s.skip(p as int);
    let t: int = digits_val(tail);
    lemma_digits_split(s, p);
    lemma_pow10_adds(p, k);
    lemma_pow10_positive(p);
    lemma_pow10_positive(k);
    assert(digits_ok(tail));
    lemma_digits_val_bounds(tail);
    let full: int = a * pow10(l) + digits_val(s);
    assert(full == hi * pk + t) by (nonlinear_arith)
        requires
            pow10(l) == pow10(p) * pk,
            digits_val(s) == digits_val(s.take(p as int)) * pk + t,
            hi == a * pow10(p) + digits_val(s.take(p as int)),
            full == a * pow10(l) + digits_val(s),
    ;
    // the dropped tail is its first digit followed by the rest
    let c: int = s[p as int] as int;
    lemma_digits_split(tail, 1);
    assert(digits_val(Seq::<u8>::empty()) == 0);
    assert(tail.take(1).drop_last() =~= Seq::<u8>::empty());
    assert(tail.take(1).last() == s[p as int]);
    assert(digits_val(tail.take(1)) == c);
    let rest = tail.skip(1);
    assert(digits_ok(rest));
    lemma_digits_val_bounds(rest);
    let pk1 = pow10((k - 1) as nat);
    lemma_pow10_step((k - 1) as nat);
    lemma_pow10_positive((k - 1) as nat);
    assert(t == c * pk1 + digits_val(rest));
    // the decision digit settles whether twice the tail reaches `pk`
    if c >= 5 {
        assert(2 * t >= pk) by (nonlinear_arith)
            requires
                t == c * pk1 + digits_val(rest),
                c >= 5,
                digits_val(rest) >= 0,
                pk == pk1 * 10,
                pk1 >= 1,
        ;
        assert(2 * full + pk == (hi + 1) * (2 * pk) + (2 * t - pk)) by (nonlinear_arith)
            requires
                full == hi * pk + t,
        ;
        lemma_fundamental_div_mod_converse_div(2 * full + pk, 2 * pk, hi + 1, 2 * t - pk);
    } else {
        assert(2 * t < pk) by (nonlinear_arith)
            requires
                t == c * pk1 + digits_val(rest),
                c <= 4,
                digits_val(rest) < pk1,
                pk == pk1 * 10,
                pk1 >= 1,
        ;
        assert(2 * full + pk == hi * (2 * pk) + (2 * t + pk)) by (nonlinear_arith)
            requires
                full == hi * pk + t,
        ;
        lemma_fundamental_div_mod_converse_div(2 * full + pk, 2 * pk, hi, 2 * t + pk);
    }
}

/// A canonical magnitude is zero exactly when both parts are zero.
proof fn lemma_abs_scaled_zero(m: Magnitude)
    requires
        digits_ok(m.frac@),
        m.frac@.len() == 0 || m.frac@.last() != 0,
    ensures
        m.abs_scaled() >= 0,
        (m.abs_scaled() == 0) <==> (m.int_part == 0 && m.frac@.len() == 0),
{
    lemma_digits_val_bounds(m.frac@);
    lemma_pow10_positive(m.frac@.len());
    if m.int_part > 0 {
        assert(m.int_part * pow10(m.frac@.len()) >= pow10(m.frac@.len())) by (nonlinear_arith)
            requires
                m.int_part >= 1,
                pow10(m.frac@.len()) >= 1,
        ;
    } else {
        assert(m.int_part * pow10(m.frac@.len()) == 0) by (nonlinear_arith)
            requires
                m.int_part == 0,
        ;
        if m.frac@.len() > 0 {
            lemma_scaled_last_mod(m.int_part as int, m.frac@);
            assert(m.frac@.last() != 0);
        }
    }
}

impl Magnitude {
    /// Flips the sign; a zero magnitude stays unsigned.
    pub fn negate(&mut self)
        requires
            old(self).wf(),
        ensures
            final(self).wf(),
            final(self).scaled() == -old(self).scaled(),
            final(self).abs_scaled() == old(self).abs_scaled(),
            final(self).places() == old(self).places(),
    {
        proof {
            lemma_abs_scaled_zero(*self);
        }
        if self.int_part > 0 || self.frac.len() > 0 {
            self.neg = !self.neg;
        }
    }
}

/// The character for one decimal digit.
pub open spec fn digit_char(d: nat) -> char {
    if d == 0 {
        '0'
    } else if d == 1 {
        '1'
    } else if d == 2 {
        '2'
    } else if d == 3 {
        '3'
    } else if d == 4 {
        '4'
    } else if d == 5 {
        '5'
    } else if d == 6 {
        '6'
    } else if d == 7 {
        '7'
    } else if d == 8 {
        '8'
    } else {
        '9'
    }
}

/// The decimal digit characters of `n`, most significant first.
pub open spec fn dec_digits(n: nat) -> Seq<char>
    decreases n,
        via dec_digits_decreases
{
    if n < 10 {
        seq![digit_char(n)]
    } else {
        dec_digits(n / 10).push(digit_char(n % 10))
    }
}

#[via_fn]
proof fn dec_digits_decreases(n: nat) {
    if n >= 10 {
        vstd::arithmetic::div_mod::lemma_div_decreases(n as int, 10);
    }
}

/// The fraction digits as characters.
pub open spec fn frac_chars(s: Seq<u8>) -> Seq<char> {
    s.map_values(|d: u8| digit_char(d as nat))
}

/// The textual form of a magnitude: optional sign, integer part, and the
/// fraction digits after a point when there are any.
pub open spec fn spec_rendered(m: Magnitude) -> Seq<char> {
    (if m.neg {
        "-"@
    } else {
        Seq::<char>::empty()
    }) + dec_digits(m.int_part as nat) + (if m.frac@.len() > 0 {
        "."@ + frac_chars(m.frac@)
    } else {
        Seq::<char>::empty()
    })
}

/// The one-character string for a decimal digit.
fn digit_str(d: u8) -> (r: &'static str)
    requires
        d < 10,
    ensures
        r@ == seq![digit_char(d as nat)],
{
    let r: &'static str = if d == 0 {
        "0"
    } else if d == 1 {
        "1"
    } else if d == 2 {
        "2"
    } else if d == 3 {
        "3"
    } else if d == 4 {
        "4"
    } else if d == 5 {
        "5"
    } else if d == 6 {
        "6"
    } else if d == 7 {
        "7"
    } else if d == 8 {
        "8"
    } else {
        "9"
    };
    proof {
        reveal_strlit("0");
        reveal_strlit("1");
        reveal_strlit("2");
        reveal_strlit("3");
        reveal_strlit("4");
        reveal_strlit("5");
        reveal_strlit("6");
        reveal_strlit("7");
        reveal_strlit("8");
        reveal_strlit("9");
        assert(r@ =~= seq![digit_char(d as nat)]);
    }
    r
}

/// Appends the decimal digits of `n`.
fn append_int(out: &mut String, n: u64)
    ensures
        final(out)@ == old(out)@ + dec_digits(n as nat),
    decreases n,
{
    if n >= 10 {
        append_int(out, n / 10);
    }
    out.append(digit_str((n % 10) as u8));
    proof {
        if n < 10 {
            assert(n % 10 == n);
            assert(out@ =~= old(out)@ + dec_digits(n as nat));
        } else {
            assert(out@ =~= old(out)@ + dec_digits(n as nat));
        }
    }
}

impl Magnitude {
    /// Renders the magnitude as its natural decimal text: no forced trailing
    /// zeros, a point only when fraction digits exist.
    pub fn rendered(&self) -> (out: String)
        requires
            self.wf(),
        ensures
            out@ == spec_rendered(*self),
    {
        let mut out = String::new();
        if self.neg {
            out.append("-");
        }
        append_int(&mut out, self.int_part);
        if self.frac.len() > 0 {
            out.append(".");
            let ghost pre: Seq<char> = out@;
            let mut i: usize = 0;
            while i < self.frac.len()
                invariant
                    self.wf(),
                    i <= self.frac@.len(),
                    out@ =~= pre + frac_chars(self.frac@.take(i as int)),
                decreases self.frac@.len() - i,
            {
                out.append(digit_str(self.frac[i]));
                proof {
                    assert(frac_chars(self.frac@.take(i + 1)) =~= frac_chars(
                        self.frac@.take(i as int),
                    ).push(digit_char(self.frac@[i as int] as nat)));
                    assert(out@ =~= pre + frac_chars(self.frac@.take(i + 1)));
                }
                i = i + 1;
            }
            proof {
                assert(self.frac@.take(self.frac@.len() as int) =~= self.frac@);
                assert(out@ =~= spec_rendered(*self));
            }
        } else {
            proof {
                assert(out@ =~= spec_rendered(*self));
            }
        }
        out
    }
}

/// The power of the base divides the matching power of ten, so the exact
/// expansion of a fraction over `base^e` ends within `full_places(base, e)`
/// digits.
proof fn lemma_base_pow_divides(base: int, e: nat)
    requires
        base == 1000 || base == 1024,
    ensures
        pow(base, e) >= 1,
        pow10(full_places(base, e)) % pow(base, e) == 0,
{
    vstd::arithmetic::power::lemma_pow_positive(base, e);
    if base == 1000 {
        assert(pow(10, 3) == 1000) by {
            reveal_with_fuel(pow, 4);
        }
        vstd::arithmetic::power::lemma_pow_multiplies(10, 3, e);
        lemma_mod_self_0(pow(base, e));
    } else {
        assert(pow(2, 10) == 1024) by {
            reveal_with_fuel(pow, 11);
        }
        vstd::arithmetic::power::lemma_pow_multiplies(2, 10, e);
        vstd::arithmetic::power::lemma_pow_distributes(2, 5, 10 * e);
        assert(pow(10, 10 * e) == pow(2, 10 * e) * pow(5, 10 * e));
        lemma_mod_multiples_basic(pow(5, 10 * e), pow(2, 10 * e));
        assert(pow(2, 10 * e) * pow(5, 10 * e) == pow(5, 10 * e) * pow(2, 10 * e))
            by (nonlinear_arith);
    }
}

/// Scales `n` down by `base^e` and returns the canonical digit form of the
/// quotient: exact, or rounded half away from zero to `places` decimal
/// places when given.
pub fn scale_magnitude(n: u64, base: u64, e: u32, places: Option<u8>) -> (m: Magnitude)
    requires
        base == 1000 || base == 1024,
        e <= 6,
    ensures
        m.wf(),
        !m.neg,
        m.abs_scaled() == spec_scale(base as int, n as nat, e as nat, places).0,
        m.places() == spec_scale(base as int, n as nat, e as nat, places).1,
{
    let d: u64 = pow_small(base, e);
    let int_part: u64 = n / d;
    let mut rem: u64 = n % d;
    let l0: u32 = if base == 1000 { 3 * e } else { 10 * e };
    let limit: u32 = match places {
        None => l0,
        Some(p) => if (p as u32) < l0 {
            p as u32
        } else {
            l0
        },
    };
    let mut frac: Vec<u8> = Vec::new();
    let mut i: u32 = 0;
    proof {
        lemma_pow10_step(0);
        vstd::arithmetic::div_mod::lemma_fundamental_div_mod(n as int, d as int);
        assert(n * pow10(0) == (int_part * pow10(0) + digits_val(frac@)) * d + rem)
            by (nonlinear_arith)
            requires
                pow10(0) == 1,
                digits_val(frac@) == 0,
                n == d * (n as int / d as int) + n as int % d as int,
                int_part == n as int / d as int,
                rem == n as int % d as int,
        ;
    }
    while i < limit
        invariant
            base == 1000 || base == 1024,
            e <= 6,
            d == pow(base as int, e as nat),
            1 <= d <= 0x1000000000000000,
            rem < d,
            int_part == n as int / d as int,
            frac@.len() == i,
            i <= limit,
            limit <= l0,
            l0 == full_places(base as int, e as nat),
            digits_ok(frac@),
            n * pow10(i as nat) == (int_part * pow10(i as nat) + digits_val(frac@)) * d + rem,
        decreases limit - i,
    {
        let t: u64 = rem * 10;
        let digit: u64 = t / d;
        let new_rem: u64 = t % d;
        proof {
            lemma_fundamental_div_mod(t as int, d as int);
            vstd::arithmetic::div_mod::lemma_multiply_divide_lt(t as int, d as int, 10);
            lemma_pow10_step(i as nat);
            let q: int = int_part * pow10(i as nat) + digits_val(frac@);
            assert(n * pow10((i + 1) as nat) == (int_part * pow10((i + 1) as nat) + (
            digits_val(frac@) * 10 + digit)) * d + new_rem) by (nonlinear_arith)
                requires
                    n * pow10(i as nat) == q * d + rem,
                    q == int_part * pow10(i as nat) + digits_val(frac@),
                    t == rem * 10,
                    t == d * digit + new_rem,
                    pow10((i + 1) as nat) == pow10(i as nat) * 10,
            ;
        }
        let ghost prev = frac@;
        frac.push(digit as u8);
        proof {
            assert(frac@.drop_last() =~= prev);
            assert(digits_val(frac@) == digits_val(prev) * 10 + digit);
            assert forall|j: int| 0 <= j < frac@.len() implies frac@[j] < 10 by {
                if j < prev.len() {
                    assert(prev[j] < 10);
                }
            }
        }
        rem = new_rem;
        i = i + 1;
    }
    let round_up: bool = match places {
        None => {
            proof {
                lemma_base_pow_divides(base as int, e as nat);
                let p0: int = pow10(l0 as nat);
                lemma_fundamental_div_mod(p0, d as int);
                let c: int = p0 / d as int;
                let q: int = int_part * p0 + digits_val(frac@);
                assert(n * p0 == (n * c) * d) by (nonlinear_arith)
                    requires
                        p0 == d * c + p0 % (d as int),
                        p0 % (d as int) == 0,
                ;
                lemma_fundamental_div_mod_converse_mod(n * p0, d as int, q, rem as int);
                lemma_fundamental_div_mod_converse_mod(n * p0, d as int, n * c, 0);
                assert(rem == 0);
                lemma_fundamental_div_mod_converse_div(n * p0, d as int, q, 0);
            }
            false
        },
        Some(_) => {
            proof {
                let pe: nat = limit as nat;
                let s: int = n * pow10(pe);
                let q: int = int_part * pow10(pe) + digits_val(frac@);
                if 2 * rem >= d {
                    assert(2 * s + d == (q + 1) * (2 * d) + (2 * rem - d)) by (nonlinear_arith)
                        requires
                            s == q * d + rem,
                    ;
                    lemma_fundamental_div_mod_converse_div(
                        2 * s + d,
                        2 * d as int,
                        q + 1,
                        2 * rem - d,
                    );
                } else {
                    assert(2 * s + d == q * (2 * d) + (2 * rem + d)) by (nonlinear_arith)
                        requires
                            s == q * d + rem,
                    ;
                    lemma_fundamental_div_mod_converse_div(
                        2 * s + d,
                        2 * d as int,
                        q,
                        2 * rem + d,
                    );
                }
            }
            2 * rem >= d
        },
    };
    proof {
        if round_up {
            assert(rem >= 1);
            assert(d >= 2);
            assert(e >= 1) by {
                vstd::arithmetic::power::lemma_pow0(base as int);
            }
            assert(d >= 1000) by {
                vstd::arithmetic::power::lemma_pow1(base as int);
                vstd::arithmetic::power::lemma_pow_increases(base as nat, 1, e as nat);
            }
            lemma_div_is_ordered_by_denominator(n as int, 1000, d as int);
            assert(int_part < u64::MAX);
        }
    }
    settle(int_part, frac, round_up)
}

} // verus!
