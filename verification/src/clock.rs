//! The monotonic clock that times each solve.

use std::time::{Duration, Instant};
use vstd::prelude::*;

verus! {

/// A reading of the monotonic clock; nothing inside it is visible to proofs.
#[verifier::external_type_specification]
#[verifier::external_body]
pub struct ExInstant(Instant);

/// `Instant::now` reads the clock. Nothing is claimed about the reading.
pub assume_specification[ Instant::now ]() -> (t: Instant)
;

/// `Instant::elapsed` gives the time since the reading was taken. Nothing is
/// claimed about its size.
pub assume_specification[ Instant::elapsed ](t: &Instant) -> (d: Duration)
;

/// `Duration::as_micros` gives a duration in whole microseconds. Nothing is
/// claimed about the number.
pub assume_specification[ Duration::as_micros ](d: &Duration) -> (micros: u128)
;

} // verus!
