//! The wall clock, and the time-derived identifier.

use crate::digits::{is_canon_digits, lemma_spec_digits_canon};
use vstd::prelude::*;

verus! {

/// Relies on `std::time::SystemTime::now`, `SystemTime::duration_since` and
/// `Duration::as_secs`: the wall-clock time in whole seconds since the Unix
/// epoch, or zero when the clock reads before it. Nothing can be promised
/// of a clock reading.
#[verifier::external_body]
pub(crate) fn now_secs() -> u64 {
    std::time::SystemTime::now()
        .duration_since(std::time::UNIX_EPOCH)
        .map(|d| d.as_secs())
        .unwrap_or(0)
}

/// Relies on `std::time::SystemTime::now`, `SystemTime::duration_since` and
/// `Duration::as_nanos`: the wall-clock time in nanoseconds since the Unix
/// epoch, or zero when the clock reads before it. Nothing can be promised
/// of a clock reading.
#[verifier::external_body]
pub(crate) fn now_nanos() -> u128 {
    std::time::SystemTime::now()
        .duration_since(std::time::UNIX_EPOCH)
        .map(|d| d.as_nanos())
        .unwrap_or(0)
}

/// A process-local identifier in the classic style of this application:
/// the current time in nanoseconds, rendered as lowercase hexadecimal.
pub fn uuid_simple() -> (r: String)
    ensures
        is_canon_digits(16, r@),
{
    let n = now_nanos();
    proof {
        lemma_spec_digits_canon(16, n as nat);
    }
    crate::digits::hex_u128(n)
}

} // verus!
