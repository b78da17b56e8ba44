//! The studio's local time zone.
//!
//! Display strings show wall-clock time in America/Phoenix. The zone's offset
//! from UTC comes from the time-zone database embedded in the `chrono-tz`
//! crate; everything computed from the offset is verified.

use chrono::Offset;
use chrono::TimeZone;
use vstd::prelude::*;

verus! {

/// The America/Phoenix offset from UTC, in seconds, at the instant `t`
/// (seconds since the Unix epoch), as the embedded time-zone database gives
/// it. The offset is a function of the instant alone.
pub uninterp spec fn phoenix_offset_of(t: int) -> int;

/// Relies on `chrono_tz::America::Phoenix` with `TimeZone::offset_from_utc_datetime`
/// and `Offset::fix`: the zone's total offset from UTC at a given instant.
/// The zone's timetable is fixed at -25200 (UTC-7, no daylight saving) for
/// every instant from the Unix epoch on, and every entry lies strictly within
/// a day of UTC.
#[verifier::external_body]
pub(crate) fn phoenix_offset_seconds(utc_secs: i64) -> (r: i32)
    requires
        -8000000000000 <= utc_secs <= 8000000000000,
    ensures
        r == phoenix_offset_of(utc_secs as int),
        utc_secs >= 0 ==> r == -25200,
        -86400 < r < 86400,
{
    let dt = chrono::DateTime::from_timestamp(utc_secs, 0).unwrap();
    chrono_tz::America::Phoenix.offset_from_utc_datetime(&dt.naive_utc()).fix().local_minus_utc()
}

} // verus!
