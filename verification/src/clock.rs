//! The clock that entries are dated by.
use std::time::{Duration, Instant};
use vstd::prelude::*;
use crate::bucket::Timestamp;

verus! {

/// `std::time::Instant`, a reading of the system's monotonic clock.
#[verifier::external_type_specification]
#[verifier::external_body]
pub struct ExInstant(std::time::Instant);

/// `std::time::Instant::now`: the present. Nothing is claimed of it.
pub assume_specification[ std::time::Instant::now ]() -> (now: std::time::Instant);

/// `std::time::Instant::elapsed`: the time that has passed since then. Nothing
/// is claimed of it, because it depends on when it is called.
pub assume_specification[ std::time::Instant::elapsed ](
    instant: &std::time::Instant,
) -> (passed: std::time::Duration);

/// `std::time::Duration::as_secs`: the whole seconds. Nothing is claimed of
/// them, because nothing is known of what is inside a duration.
pub assume_specification[ std::time::Duration::as_secs ](duration: &std::time::Duration) -> (secs:
    u64);

/// `std::time::Duration::subsec_nanos`: the nanoseconds on top of the whole
/// seconds. They are less than one second.
pub assume_specification[ std::time::Duration::subsec_nanos ](
    duration: &std::time::Duration,
) -> (nanos: u32)
    ensures
        nanos < 1_000_000_000,
;

/// The whole seconds of a duration, and the nanoseconds on top of them.
pub open spec fn is_duration(t: Timestamp, passed: Duration) -> bool {
    &&& call_ensures(Duration::as_secs, (&passed,), t.secs)
    &&& call_ensures(Duration::subsec_nanos, (&passed,), t.nanos)
}

/// The time is a reading of how much time has passed since `epoch`.
pub open spec fn is_reading(epoch: Instant, t: Timestamp) -> bool {
    &&& t.nanos < 1_000_000_000
    &&& exists|passed: Duration|
        {
            &&& call_ensures(Instant::elapsed, (&epoch,), passed)
            &&& #[trigger] is_duration(t, passed)
        }
}

/// The time that has passed since `epoch`.
pub fn since(epoch: &Instant) -> (t: Timestamp)
    ensures
        is_reading(*epoch, t),
        t.nanos < 1_000_000_000,
        exists|passed: Duration|
            {
                &&& #[trigger] call_ensures(Instant::elapsed, (epoch,), passed)
                &&& call_ensures(Duration::as_secs, (&passed,), t.secs)
                &&& call_ensures(Duration::subsec_nanos, (&passed,), t.nanos)
            },
{
    let passed: Duration = epoch.elapsed();
    let t = Timestamp { secs: passed.as_secs(), nanos: passed.subsec_nanos() };
    assert(is_duration(t, passed));
    t
}

/// A reading keeps all of the time that has passed: it has the whole seconds of
/// what `Instant::elapsed` gives for the epoch and the nanoseconds on top of
/// them, both of the same duration.
pub proof fn law_reading(epoch: Instant, t: Timestamp)
    requires
        is_reading(epoch, t),
    ensures
        t.nanos < 1_000_000_000,
        exists|passed: Duration|
            {
                &&& #[trigger] call_ensures(Instant::elapsed, (&epoch,), passed)
                &&& call_ensures(Duration::as_secs, (&passed,), t.secs)
                &&& call_ensures(Duration::subsec_nanos, (&passed,), t.nanos)
            },
{
    let passed = choose|passed: Duration|
        {
            &&& call_ensures(Instant::elapsed, (&epoch,), passed)
            &&& #[trigger] is_duration(t, passed)
        };
    assert(call_ensures(Instant::elapsed, (&epoch,), passed));
}

} // verus!
