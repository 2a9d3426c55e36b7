//! Trusted declarations for the host facilities the harness relies on: the
//! monotonic clock used to time reclamation, and the platform page size.

use vstd::prelude::*;

use std::time::{Duration, Instant};

verus! {

#[verifier::external_type_specification]
#[verifier::external_body]
pub struct ExInstant(Instant);

/// Relies on `std::time::Instant::now`: an opaque reading of the monotonic
/// clock. Nothing is promised of the value; two readings may be anything.
pub assume_specification[ Instant::now ]() -> Instant;

/// Relies on `std::time::Instant::elapsed`: the time since `earlier`, as an
/// opaque `Duration`. Nothing is promised of the value.
pub assume_specification[ Instant::elapsed ](earlier: &Instant) -> Duration;

/// Relies on `std::time::Duration::as_nanos`: the duration in whole
/// nanoseconds. The `Duration` is opaque here, so nothing is promised of
/// the value.
pub assume_specification[ Duration::as_nanos ](d: &Duration) -> u128;

/// Relies on `rustix::param::page_size`, which returns
/// `sysconf(_SC_PAGESIZE)`: the page size of the running process. POSIX
/// sets the least acceptable value of `{PAGESIZE}` at one.
#[verifier::external_body]
pub(crate) fn host_page_size() -> (r: usize)
    ensures
        r >= 1,
{
    rustix::param::page_size()
}

} // verus!
