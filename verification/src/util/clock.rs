//! The wall clock, as far as the stack needs it: whole seconds since the
//! epoch for the scheme policy, and microseconds between two readings for the
//! transfer-speed figures.

use vstd::prelude::*;
use std::time::{Duration, SystemTime, UNIX_EPOCH};

verus! {

/// A reading of the wall clock. Nothing of its inside is visible here.
#[verifier::external_type_specification]
#[verifier::external_body]
pub struct ExSystemTime(SystemTime);

/// `SystemTime::now`: the current reading of the wall clock. Nothing is
/// claimed of it.
#[verifier::external_body]
pub(crate) fn wall_clock() -> (t: SystemTime) {
    SystemTime::now()
}

/// `UNIX_EPOCH`: the reading that marks the epoch.
#[verifier::external_body]
pub(crate) fn epoch() -> (t: SystemTime) {
    UNIX_EPOCH
}

/// `SystemTime::duration_since`: the time from `earlier` to `later`, or
/// `None` where `later` lies before `earlier`. Nothing is claimed of its
/// length.
#[verifier::external_body]
pub(crate) fn time_between(later: &SystemTime, earlier: &SystemTime) -> (d: Option<Duration>) {
    later.duration_since(*earlier).ok()
}

/// `Duration::as_secs`: the whole seconds of `d`.
#[verifier::external_body]
pub(crate) fn whole_seconds(d: &Duration) -> (s: u64) {
    d.as_secs()
}

/// `Duration::as_micros`: the whole microseconds of `d`.
#[verifier::external_body]
pub(crate) fn whole_micros(d: &Duration) -> (us: u128) {
    d.as_micros()
}

/// `now` is what the clock says of the seconds since the epoch: the whole
/// seconds of the time from the epoch to a reading of the wall clock, and
/// `None` where that reading lies before the epoch.
pub(crate) open spec fn is_seconds_now(now: Option<u64>) -> bool {
    exists|t: SystemTime, zero: SystemTime|
        call_ensures(wall_clock, (), t) && call_ensures(epoch, (), zero)
            && #[trigger] is_length_between(&t, &zero, now)
}

/// `length` is the whole seconds of the time from `earlier` to `later`, and
/// `None` where `later` lies before `earlier`.
pub(crate) open spec fn is_length_between(
    later: &SystemTime,
    earlier: &SystemTime,
    length: Option<u64>,
) -> bool {
    &&& length is Some ==> exists|d: Duration|
        #[trigger] call_ensures(time_between, (later, earlier), Some(d)) && call_ensures(
            whole_seconds,
            (&d,),
            length->0,
        )
    &&& length is None ==> call_ensures(time_between, (later, earlier), None::<Duration>)
}

/// `us` is the whole microseconds of the time from `start` to `end`, and
/// `None` where `end` lies before `start`.
pub(crate) open spec fn is_micros_between(
    start: &SystemTime,
    end: &SystemTime,
    us: Option<u128>,
) -> bool {
    &&& us is Some ==> exists|d: Duration|
        #[trigger] call_ensures(time_between, (end, start), Some(d)) && call_ensures(
            whole_micros,
            (&d,),
            us->0,
        )
    &&& us is None ==> call_ensures(time_between, (end, start), None::<Duration>)
}

/// Seconds since the epoch by the wall clock; `None` where the clock reads a
/// time before the epoch.
pub(crate) fn seconds_now() -> (now: Option<u64>)
    ensures
        is_seconds_now(now),
{
    let t = wall_clock();
    let zero = epoch();
    let between = time_between(&t, &zero);
    let now = match between {
        Some(d) => {
            let s = whole_seconds(&d);
            proof {
                assert(call_ensures(time_between, (&t, &zero), Some(d)));
                assert(call_ensures(whole_seconds, (&d,), s));
            }
            Some(s)
        },
        None => {
            proof {
                assert(call_ensures(time_between, (&t, &zero), None::<Duration>));
            }
            None
        },
    };
    proof {
        assert(is_length_between(&t, &zero, now));
        assert(call_ensures(wall_clock, (), t) && call_ensures(epoch, (), zero));
    }
    now
}

/// Microseconds from `start` to `end`; `None` where `end` lies before `start`.
pub(crate) fn micros_between(start: &SystemTime, end: &SystemTime) -> (us: Option<u128>)
    ensures
        is_micros_between(start, end, us),
{
    let between = time_between(end, start);
    match between {
        Some(d) => {
            let u = whole_micros(&d);
            proof {
                assert(call_ensures(time_between, (end, start), Some(d)));
                assert(call_ensures(whole_micros, (&d,), u));
            }
            Some(u)
        },
        None => {
            proof {
                assert(call_ensures(time_between, (end, start), None::<Duration>));
            }
            None
        },
    }
}

} // verus!
