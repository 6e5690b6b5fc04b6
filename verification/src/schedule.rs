//! A boundary that is crossed once a day.
use vstd::prelude::*;

verus! {

/// The seconds of a day.
pub const DAY: u64 = 86400;

/// The boundary of the day that `now` falls in.
pub open spec fn boundary_of_day(target: int, now: int) -> int {
    (now / 86400) * 86400 + target
}

/// The first boundary after `now`: that of the same day, or of the next
/// one. The target is in seconds after midnight.
pub open spec fn next_daily(target: int, now: int) -> int {
    if now < boundary_of_day(target, now) {
        boundary_of_day(target, now)
    } else {
        boundary_of_day(target, now) + 86400
    }
}

/// The first boundary after `now` out of `at`, the day after it, and so on.
pub open spec fn later_daily(at: int, now: int) -> int {
    if now < at {
        at
    } else {
        at + ((now - at) / 86400 + 1) * 86400
    }
}

/// The unix time at which the boundary is next crossed.
pub fn schedule_next_daily(target_secs: u32, now_unix: u64) -> (t: u64)
    requires
        next_daily(target_secs as int, now_unix as int) <= u64::MAX,
    ensures
        t == next_daily(target_secs as int, now_unix as int),
{
    let midnight: u64 = (now_unix / DAY) * DAY;
    let today: u64 = midnight + target_secs as u64;
    if now_unix < today {
        today
    } else {
        today + DAY
    }
}

/// As `schedule_next_daily`, for other sinks to share.
pub fn schedule_next_daily_public(target_secs: u32, now_unix: u64) -> (t: u64)
    requires
        next_daily(target_secs as int, now_unix as int) <= u64::MAX,
    ensures
        t == next_daily(target_secs as int, now_unix as int),
{
    schedule_next_daily(target_secs, now_unix)
}

/// Whether the next boundary has a unix time that fits.
pub fn schedule_fits(target_secs: u32, now_unix: u64) -> (r: bool)
    ensures
        r == (next_daily(target_secs as int, now_unix as int) <= u64::MAX),
{
    let midnight: u128 = ((now_unix / DAY) * DAY) as u128;
    let today: u128 = midnight + target_secs as u128;
    let next: u128 = if (now_unix as u128) < today {
        today
    } else {
        today + 86400
    };
    next <= u64::MAX as u128
}

/// The boundary that comes after `now`, counted on from `at`.
pub fn advance_daily(at: u64, now_unix: u64) -> (t: u64)
    requires
        later_daily(at as int, now_unix as int) <= u64::MAX,
    ensures
        t == later_daily(at as int, now_unix as int),
{
    if now_unix < at {
        at
    } else {
        let days: u64 = (now_unix - at) / DAY;
        assert(at + (days + 1) * 86400 <= u64::MAX);
        at + (days + 1) * DAY
    }
}

/// A boundary given as a time of day is next crossed within a day, at that
/// time of day.
pub proof fn law_next_boundary_is_within_a_day(target: int, now: int)
    requires
        0 <= target < 86400,
        0 <= now,
    ensures
        now < next_daily(target, now) <= now + 86400,
        next_daily(target, now) % 86400 == target,
{
    let d = now / 86400;
    assert(d * 86400 <= now < d * 86400 + 86400);
    assert((d * 86400 + target) % 86400 == target);
    assert(((d + 1) * 86400 + target) % 86400 == target);
}

/// Once a boundary was crossed, the next one is in the future, less than a
/// day away, at the same time of day, however many days were slept
/// through.
pub proof fn law_boundary_moves_past_now(at: int, now: int)
    requires
        0 <= at <= now,
    ensures
        now < later_daily(at, now) <= now + 86400,
        later_daily(at, now) % 86400 == at % 86400,
{
    let k = (now - at) / 86400;
    assert(k * 86400 <= now - at < k * 86400 + 86400);
    assert((at + (k + 1) * 86400) % 86400 == at % 86400);
}

} // verus!
