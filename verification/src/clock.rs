//! Reading the monotonic clock, to report how long a request took.

use vstd::prelude::*;
use std::time::{Duration, Instant};

verus! {

/// The monotonic clock's `Instant`, carried through verified code unopened.
#[verifier::external_type_specification]
#[verifier::external_body]
pub struct ExInstant(std::time::Instant);

/// `Instant::now`: the current instant. Nothing is claimed of it.
#[verifier::external_body]
pub(crate) fn now() -> (r: Instant) {
    Instant::now()
}

/// `Instant::elapsed`: the time since `started`. Nothing is claimed of it.
#[verifier::external_body]
pub(crate) fn elapsed(started: &Instant) -> (r: Duration) {
    started.elapsed()
}

/// `Duration::as_millis`: the whole milliseconds of `d`. Nothing is claimed
/// of it beyond its type.
#[verifier::external_body]
pub(crate) fn as_millis(d: &Duration) -> (r: u128) {
    d.as_millis()
}

/// Whole milliseconds since `started`.
pub(crate) fn millis_since(started: &Instant) -> (r: u128) {
    let d = elapsed(started);
    as_millis(&d)
}

} // verus!
