//! The binary (base-1024) formatter: scales a byte count by powers of 1024,
//! selects a unit suffix in the binary prefix convention, and optionally
//! rounds the magnitude.

use vstd::prelude::*;
use vstd::string::StringExecFns;
use crate::magnitude::{Magnitude, spec_scale, spec_rendered};
use crate::util::{scale_exp, exponent_of};

verus! {

/// Binary unit suffixes, ordered by increasing scale; `EiB` is the largest
/// one a `u64` byte count can reach.
#[derive(Clone, Copy, Debug, PartialEq, Eq, Structural)]
pub enum ByteValuesBinary {
    B,
    KiB,
    MiB,
    GiB,
    TiB,
    PiB,
    EiB,
}

/// The unit at a clamped binary exponent.
pub open spec fn unit_of(e: nat) -> ByteValuesBinary {
    if e == 0 {
        ByteValuesBinary::B
    } else if e == 1 {
        ByteValuesBinary::KiB
    } else if e == 2 {
        ByteValuesBinary::MiB
    } else if e == 3 {
        ByteValuesBinary::GiB
    } else if e == 4 {
        ByteValuesBinary::TiB
    } else if e == 5 {
        ByteValuesBinary::PiB
    } else {
        ByteValuesBinary::EiB
    }
}

/// The clamped unit exponent that a byte count in the binary system selects.
pub open spec fn bin_exp(n: nat) -> nat {
    vstd::math::min(scale_exp(1024, n) as int, 6) as nat
}

/// The characters of a binary unit suffix.
pub open spec fn unit_chars(u: ByteValuesBinary) -> Seq<char> {
    match u {
        ByteValuesBinary::B => "B"@,
        ByteValuesBinary::KiB => "KiB"@,
        ByteValuesBinary::MiB => "MiB"@,
        ByteValuesBinary::GiB => "GiB"@,
        ByteValuesBinary::TiB => "TiB"@,
        ByteValuesBinary::PiB => "PiB"@,
        ByteValuesBinary::EiB => "EiB"@,
    }
}

fn unit_at(e: u32) -> (u: ByteValuesBinary)
    requires
        e <= 6,
    ensures
        u == unit_of(e as nat),
{
    if e == 0 {
        ByteValuesBinary::B
    } else if e == 1 {
        ByteValuesBinary::KiB
    } else if e == 2 {
        ByteValuesBinary::MiB
    } else if e == 3 {
        ByteValuesBinary::GiB
    } else if e == 4 {
        ByteValuesBinary::TiB
    } else if e == 5 {
        ByteValuesBinary::PiB
    } else {
        ByteValuesBinary::EiB
    }
}

fn unit_label(u: ByteValuesBinary) -> (r: &'static str)
    ensures
        r@ == unit_chars(u),
{
    match u {
        ByteValuesBinary::B => "B",
        ByteValuesBinary::KiB => "KiB",
        ByteValuesBinary::MiB => "MiB",
        ByteValuesBinary::GiB => "GiB",
        ByteValuesBinary::TiB => "TiB",
        ByteValuesBinary::PiB => "PiB",
        ByteValuesBinary::EiB => "EiB",
    }
}

/// A prettified byte value in the binary system: the exact scaled magnitude
/// and its unit suffix.
pub struct PrettyBytesBinary {
    pub num: Magnitude,
    pub suffix: ByteValuesBinary,
}

impl PrettyBytesBinary {
    pub open spec fn wf(self) -> bool {
        self.num.wf()
    }

    /// The textual form `"<magnitude> <suffix>"`.
    pub open spec fn spec_display(self) -> Seq<char> {
        spec_rendered(self.num) + " "@ + unit_chars(self.suffix)
    }

    /// Renders as `"<magnitude> <suffix>"`, the magnitude in its natural
    /// decimal text with no forced trailing zeros.
    pub fn to_string(&self) -> (out: String)
        requires
            self.wf(),
        ensures
            out@ == self.spec_display(),
    {
        let mut out = self.num.rendered();
        out.append(" ");
        out.append(unit_label(self.suffix));
        proof {
            assert(out@ =~= self.spec_display());
        }
        out
    }
}

/// Converts a byte count to its prettified binary form: the magnitude is
/// exactly `num` scaled down by `1024^e` for the clamped exponent `e`, rounded
/// half away from zero to `round_places` decimal places when given.
pub fn pretty_bytes_binary(num: u64, round_places: Option<u8>) -> (r: PrettyBytesBinary)
    ensures
        r.wf(),
        !r.num.neg,
        r.suffix == unit_of(bin_exp(num as nat)),
        r.num.abs_scaled() == spec_scale(1024, num as nat, bin_exp(num as nat), round_places).0,
        r.num.places() == spec_scale(1024, num as nat, bin_exp(num as nat), round_places).1,
{
    let e: u32 = exponent_of(num, 1024);
    let num = crate::magnitude::scale_magnitude(num, 1024, e, round_places);
    PrettyBytesBinary { num, suffix: unit_at(e) }
}

/// The signed scaled magnitude that `pretty_bytes_signed_binary` yields: the
/// unsigned result on the absolute value, negated for negative input.
pub open spec fn bin_scaled_signed(n: int, places: Option<u8>) -> int {
    let a = vstd::math::abs(n);
    let s = spec_scale(1024, a, bin_exp(a), places).0;
    if n < 0 {
        -s
    } else {
        s
    }
}

/// Converts a signed byte count: the unit and the absolute magnitude are
/// those of the absolute value, and the magnitude keeps the sign.
pub fn pretty_bytes_signed_binary(num: i64, round_places: Option<u8>) -> (r: PrettyBytesBinary)
    ensures
        r.wf(),
        r.suffix == unit_of(bin_exp(vstd::math::abs(num as int))),
        r.num.scaled() == bin_scaled_signed(num as int, round_places),
        r.num.places() == spec_scale(
            1024,
            vstd::math::abs(num as int),
            bin_exp(vstd::math::abs(num as int)),
            round_places,
        ).1,
{
    let n: u64 = if num >= 0 {
        num as u64
    } else {
        (-(num as i128)) as u64
    };
    proof {
        assert(n == vstd::math::abs(num as int));
    }
    let mut r = pretty_bytes_binary(n, round_places);
    if num < 0 {
        r.num.negate();
    }
    r
}

} // verus!
