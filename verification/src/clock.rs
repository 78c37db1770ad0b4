//! The monotonic clock and the duration arithmetic of the standard library,
//! with the contracts that the rest of the crate relies on.
//!
//! Nothing in this file is proved: each item states what the documentation of
//! the standard library promises for the function it names.
use std::time::{Duration, Instant};
use vstd::prelude::*;

verus! {

/// `std::time::Instant`, carried through as an opaque value.
#[verifier::external_type_specification]
#[verifier::external_body]
pub struct ExInstant(Instant);

/// The whole number of nanoseconds in a `Duration`, as `Duration::as_nanos`
/// reports it.
pub uninterp spec fn duration_nanos(d: Duration) -> nat;

/// The text that formatting a `Duration` of `nanos` nanoseconds with `{:?}`
/// produces.
pub uninterp spec fn duration_debug_text(nanos: nat) -> Seq<char>;

/// The number of nanoseconds in `Duration::MAX`: `u64::MAX` seconds and
/// 999,999,999 nanoseconds.
pub open spec fn max_duration_nanos() -> nat {
    u64::MAX as nat * 1_000_000_000 + 999_999_999
}

/// The sum of two durations as `Duration::saturating_add` computes it: exact
/// where it fits, `Duration::MAX` where it does not.
pub open spec fn capped_sum(a: nat, b: nat) -> nat {
    if a + b <= max_duration_nanos() {
        a + b
    } else {
        max_duration_nanos()
    }
}

/// The difference of two durations as `Duration::saturating_sub` computes
/// it: exact where `a` is at least `b`, zero where it is not.
pub open spec fn floored_difference(a: nat, b: nat) -> nat {
    if a >= b {
        (a - b) as nat
    } else {
        0
    }
}

/// `Instant::now` reads the clock. Nothing is promised of the value.
pub assume_specification[ Instant::now ]() -> Instant;

/// `Duration::as_nanos` returns the total number of nanoseconds.
pub assume_specification[ Duration::as_nanos ](d: &Duration) -> (n: u128)
    ensures
        n == duration_nanos(*d),
;

/// `Duration::from_nanos` builds the duration of that many nanoseconds.
pub assume_specification[ Duration::from_nanos ](nanos: u64) -> (d: Duration)
    ensures
        duration_nanos(d) == nanos,
;

/// `Duration::saturating_sub` returns `a - b`, or zero where `b` is longer
/// than `a`.
pub assume_specification[ Duration::saturating_sub ](a: Duration, b: Duration) -> (rest: Duration)
    ensures
        duration_nanos(rest) == floored_difference(duration_nanos(a), duration_nanos(b)),
;

/// Calls `Instant::elapsed`, which reads the clock and returns the time that
/// has passed since `start`, zero where the clock has not advanced. Nothing
/// is promised of the value; the call does not panic.
#[verifier::external_body]
pub(crate) fn elapsed_since(start: &Instant) -> Duration
    opens_invariants none
    no_unwind
{
    start.elapsed()
}

/// Calls `Duration::saturating_add`, which returns `a + b`, or
/// `Duration::MAX` where the sum does not fit; the call does not panic.
#[verifier::external_body]
pub(crate) fn saturating_sum(a: Duration, b: Duration) -> (sum: Duration)
    ensures
        duration_nanos(sum) == capped_sum(duration_nanos(a), duration_nanos(b)),
    opens_invariants none
    no_unwind
{
    a.saturating_add(b)
}

/// Formats `d` with `{:?}`, the `Debug` form of `Duration`.
#[verifier::external_body]
pub(crate) fn debug_text(d: &Duration) -> (text: String)
    ensures
        text@ == duration_debug_text(duration_nanos(*d)),
{
    format!("{:?}", d)
}

} // verus!
