use vstd::prelude::*;
use std::time::{Duration, Instant};

verus! {

#[verifier::external_type_specification]
#[verifier::external_body]
pub struct ExInstant(Instant);

/// `Instant::now`: the present reading of the monotonic clock; nothing is
/// promised of it.
#[verifier::external_body]
pub(crate) fn clock_now() -> (t: Instant) {
    Instant::now()
}

/// `Instant::elapsed`: the time the clock has run since `start`; nothing is
/// promised of it.
#[verifier::external_body]
pub(crate) fn elapsed_since(start: &Instant) -> (d: Duration) {
    start.elapsed()
}

/// `>` on `Duration`: whether `a` is the longer span. Verus sees nothing inside
/// a `Duration`, so the comparison is not stated.
#[verifier::external_body]
pub(crate) fn longer_than(a: &Duration, b: &Duration) -> (r: bool) {
    *a > *b
}

/// `Duration::from_secs`: a span of `secs` seconds; Verus sees nothing inside a
/// `Duration`, so nothing is stated.
#[verifier::external_body]
pub(crate) fn seconds(secs: u64) -> (d: Duration) {
    Duration::from_secs(secs)
}

/// `Instant`'s `>`: whether `a` is the later instant. Verus sees nothing inside
/// an `Instant`, so the comparison is not stated.
#[verifier::external_body]
pub(crate) fn is_later(a: &Instant, b: &Instant) -> (r: bool) {
    *a > *b
}

/// `Instant::checked_add`: the instant `d` after `i`, or `None` where the clock
/// cannot hold it. Verus sees nothing inside either, so nothing is stated.
#[verifier::external_body]
pub(crate) fn instant_plus(i: &Instant, d: Duration) -> (r: Option<Instant>) {
    i.checked_add(d)
}

} // verus!
