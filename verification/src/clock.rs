//! The wall clock, for search time limits.
use vstd::prelude::*;
use std::time::{Duration, Instant};

verus! {

#[verifier::external_type_specification]
#[verifier::external_body]
pub struct ExInstant(Instant);

/// `Instant::now`: the current instant. Nothing is claimed of it.
#[verifier::external_body]
pub(crate) fn now() -> (r: Instant) {
    Instant::now()
}

/// `Instant::elapsed`: the time since `t`. Nothing is claimed of it: it
/// depends on when it is called.
#[verifier::external_body]
pub(crate) fn elapsed(t: &Instant) -> (r: Duration) {
    t.elapsed()
}

/// `Duration::as_millis`: the whole milliseconds of `d`. Nothing is
/// claimed of the value, which Verus cannot see inside `d`.
#[verifier::external_body]
pub(crate) fn millis(d: Duration) -> (r: u128) {
    d.as_millis()
}

/// Whole milliseconds since `t`, saturated to 64 bits.
pub fn elapsed_ms(t: &Instant) -> (r: u64) {
    let ms = millis(elapsed(t));
    if ms > 0xFFFF_FFFF_FFFF_FFFFu128 {
        0xFFFF_FFFF_FFFF_FFFF
    } else {
        ms as u64
    }
}

} // verus!
