//! The decimal (base-1000) formatter: scales a byte count by powers of 1000,
//! selects a unit suffix, and optionally rounds the magnitude.

use vstd::prelude::*;
use vstd::string::StringExecFns;
use crate::magnitude::{Magnitude, spec_scale, spec_rendered};
use crate::util::{scale_exp, exponent_of};

verus! {

/// Decimal unit suffixes, ordered by increasing scale; `EB` is the largest
/// one a `u64` byte count can reach.
#[derive(Clone, Copy, Debug, PartialEq, Eq, Structural)]
pub enum ByteValues {
    B,
    KB,
    MB,
    GB,
    TB,
    PB,
    EB,
}

/// The unit at a clamped decimal exponent.
pub open spec fn unit_of(e: nat) -> ByteValues {
    if e == 0 {
        ByteValues::B
    } else if e == 1 {
        ByteValues::KB
    } else if e == 2 {
        ByteValues::MB
    } else if e == 3 {
        ByteValues::GB
    } else if e == 4 {
        ByteValues::TB
    } else if e == 5 {
        ByteValues::PB
    } else {
        ByteValues::EB
    }
}

/// The clamped unit exponent that a decimal byte count selects.
pub open spec fn dec_exp(n: nat) -> nat {
    vstd::math::min(scale_exp(1000, n) as int, 6) as nat
}

/// The characters of a decimal unit suffix.
pub open spec fn unit_chars(u: ByteValues) -> Seq<char> {
    match u {
        ByteValues::B => "B"@,
        ByteValues::KB => "KB"@,
        ByteValues::MB => "MB"@,
        ByteValues::GB => "GB"@,
        ByteValues::TB => "TB"@,
        ByteValues::PB => "PB"@,
        ByteValues::EB => "EB"@,
    }
}

fn unit_at(e: u32) -> (u: ByteValues)
    requires
        e <= 6,
    ensures
        u == unit_of(e as nat),
{
    if e == 0 {
        ByteValues::B
    } else if e == 1 {
        ByteValues::KB
    } else if e == 2 {
        ByteValues::MB
    } else if e == 3 {
        ByteValues::GB
    } else if e == 4 {
        ByteValues::TB
    } else if e == 5 {
        ByteValues::PB
    } else {
        ByteValues::EB
    }
}

fn unit_label(u: ByteValues) -> (r: &'static str)
    ensures
        r@ == unit_chars(u),
{
    match u {
        ByteValues::B => "B",
        ByteValues::KB => "KB",
        ByteValues::MB => "MB",
        ByteValues::GB => "GB",
        ByteValues::TB => "TB",
        ByteValues::PB => "PB",
        ByteValues::EB => "EB",
    }
}

/// A prettified byte value in the decimal system: the exact scaled magnitude
/// and its unit suffix.
pub struct PrettyBytes {
    pub num: Magnitude,
    pub suffix: ByteValues,
}

impl PrettyBytes {
    pub open spec fn wf(self) -> bool {
        self.num.wf()
    }

    /// The textual form `"<magnitude> <suffix>"`.
    pub open spec fn spec_display(self) -> Seq<char> {
        spec_rendered(self.num) + " "@ + unit_chars(self.suffix)
    }

    /// Renders as `"<magnitude> <suffix>"`, the magnitude in its natural
    /// decimal text with no forced trailing zeros.
    pub fn to_string(&self) -> (out: String)
        requires
            self.wf(),
        ensures
            out@ == self.spec_display(),
    {
        let mut out = self.num.rendered();
        out.append(" ");
        out.append(unit_label(self.suffix));
        proof {
            assert(out@ =~= self.spec_display());
        }
        out
    }
}

/// Converts a byte count to its prettified decimal form: the magnitude is
/// exactly `num` scaled down by `1000^e` for the clamped exponent `e`, rounded
/// half away from zero to `round_places` decimal places when given.
pub fn pretty_bytes(num: u64, round_places: Option<u8>) -> (r: PrettyBytes)
    ensures
        r.wf(),
        !r.num.neg,
        r.suffix == unit_of(dec_exp(num as nat)),
        r.num.abs_scaled() == spec_scale(1000, num as nat, dec_exp(num as nat), round_places).0,
        r.num.places() == spec_scale(1000, num as nat, dec_exp(num as nat), round_places).1,
{
    let e: u32 = exponent_of(num, 1000);
    let num = crate::magnitude::scale_magnitude(num, 1000, e, round_places);
    PrettyBytes { num, suffix: unit_at(e) }
}

/// The signed scaled magnitude that `pretty_bytes_signed` yields: the
/// unsigned result on the absolute value, negated for negative input.
pub open spec fn dec_scaled_signed(n: int, places: Option<u8>) -> int {
    let a = vstd::math::abs(n);
    let s = spec_scale(1000, a, dec_exp(a), places).0;
    if n < 0 {
        -s
    } else {
        s
    }
}

/// Converts a signed byte count: the unit and the absolute magnitude are
/// those of the absolute value, and the magnitude keeps the sign.
pub fn pretty_bytes_signed(num: i64, round_places: Option<u8>) -> (r: PrettyBytes)
    ensures
        r.wf(),
        r.suffix == unit_of(dec_exp(vstd::math::abs(num as int))),
        r.num.scaled() == dec_scaled_signed(num as int, round_places),
        r.num.places() == spec_scale(
            1000,
            vstd::math::abs(num as int),
            dec_exp(vstd::math::abs(num as int)),
            round_places,
        ).1,
{
    let n: u64 = if num >= 0 {
        num as u64
    } else {
        (-(num as i128)) as u64
    };
    proof {
        assert(n == vstd::math::abs(num as int));
    }
    let mut r = pretty_bytes(n, round_places);
    if num < 0 {
        r.num.negate();
    }
    r
}

} // verus!
