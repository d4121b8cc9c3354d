//! The wall clock.
use vstd::prelude::*;

verus! {

/// `SystemTime::now` and `duration_since` tell the seconds since the Unix epoch, or the words for
/// a clock that is set before it. Nothing is promised of the time.
#[verifier::external_body]
pub(crate) fn unix_time() -> (r: Result<u64, String>) {
    std::time::SystemTime::now()
        .duration_since(std::time::UNIX_EPOCH)
        .map(|d| d.as_secs())
        .map_err(|e| e.to_string())
}

/// Whether `reading` is what a call of the wall clock gave, in seconds and as it came.
pub closed spec fn is_reading(reading: Result<u64, String>) -> bool {
    call_ensures(unix_time, (), reading)
}

/// Nothing but what a call of the wall clock gave is a reading: no other unit, no other moment.
pub(crate) proof fn law_readings_come_from_the_clock(reading: Result<u64, String>)
    ensures
        is_reading(reading) <==> call_ensures(unix_time, (), reading),
{
}

/// What the wall clock tells now.
pub fn read_clock() -> (r: Result<u64, String>)
    ensures
        is_reading(r),
{
    unix_time()
}

/// Whether `now` is what the wall clock told, with zero for a clock that failed.
pub open spec fn is_present(now: u64) -> bool {
    exists|reading: Result<u64, String>| #[trigger]
        is_reading(reading) && (reading is Ok ==> now == reading->Ok_0) && (reading is Err ==> now
            == 0)
}

/// The seconds that a clock told; zero where it failed.
pub fn seconds_or_zero(clock: &Result<u64, String>) -> (r: u64)
    ensures
        r == match *clock {
            Ok(secs) => secs,
            Err(_) => 0,
        },
        is_reading(*clock) ==> is_present(r),
{
    match clock {
        Ok(secs) => *secs,
        Err(_) => 0,
    }
}

/// The seconds since the Unix epoch; zero where the clock is set before it. Of the time itself
/// nothing can be said but that it is what the clock told.
pub fn unix_time_or_zero() -> (now: u64)
    ensures
        is_present(now),
{
    let clock = read_clock();
    seconds_or_zero(&clock)
}

} // verus!
