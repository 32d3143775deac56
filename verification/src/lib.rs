//! Converts raw byte counts into strongly-typed, unit-scaled representations
//! ("2 MB", "4.9 KiB"), in both the decimal (base-1000) and the binary
//! (base-1024) unit systems, with optional rounding to a fixed number of
//! decimal places.
//!
//! The scaled magnitude is kept exactly, as an integer part together with a
//! sequence of decimal fraction digits, so every formatting step is plain
//! integer arithmetic and carries a full functional contract.

use vstd::prelude::*;

mod binary;
mod decimal;
mod laws;
mod magnitude;
mod util;

verus! {

pub use crate::binary::{ByteValuesBinary, PrettyBytesBinary, pretty_bytes_binary, pretty_bytes_signed_binary};
pub use crate::decimal::{ByteValues, PrettyBytes, pretty_bytes, pretty_bytes_signed};
pub use crate::magnitude::Magnitude;
pub use crate::laws::{lemma_unit_monotonic, lemma_zero, lemma_magnitude_in_range, lemma_clamped, lemma_exact_power, lemma_rounding_idempotent, lemma_signed_symmetry, lemma_rounded_magnitude_at_least_one};

} // verus!
