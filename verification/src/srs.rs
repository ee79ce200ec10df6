//! The spaced-repetition schedule: how long until a word is asked again.
use vstd::prelude::*;
use crate::clock::{format_rfc3339, representable, rfc3339_text, Timestamp};

verus! {

/// Seconds in a day.
pub const DAY_SECS: i64 = 86_400;

/// The wait, in seconds, before a word is due again: ten minutes after a
/// wrong answer; after a right one, one day for a review count up to 1,
/// three days up to 3, seven days up to 6, and fourteen days beyond.
pub open spec fn interval_secs(was_correct: bool, review_count: u32) -> int {
    if !was_correct {
        600
    } else if review_count <= 1 {
        86_400
    } else if review_count <= 3 {
        259_200
    } else if review_count <= 6 {
        604_800
    } else {
        1_209_600
    }
}

/// The wait before a word is due again (see `interval_secs`).
pub fn review_interval_secs(was_correct: bool, review_count: u32) -> (r: i64)
    ensures
        r == interval_secs(was_correct, review_count),
{
    if !was_correct {
        10 * 60
    } else if review_count <= 1 {
        DAY_SECS
    } else if review_count <= 3 {
        3 * DAY_SECS
    } else if review_count <= 6 {
        7 * DAY_SECS
    } else {
        14 * DAY_SECS
    }
}

/// The instant a word falls due after an answer at `now`.
pub fn next_due_instant(now: Timestamp, was_correct: bool, review_count: u32) -> (r: Timestamp)
    requires
        now.secs + interval_secs(was_correct, review_count) <= i64::MAX,
    ensures
        r.secs == now.secs + interval_secs(was_correct, review_count),
        r.nanos == now.nanos,
{
    Timestamp { secs: now.secs + review_interval_secs(was_correct, review_count), nanos: now.nanos }
}

/// The RFC 3339 text of the instant a word falls due after an answer at
/// `now`.
pub fn compute_next_due(now: Timestamp, was_correct: bool, review_count: u32) -> (r: String)
    requires
        representable(now.secs + interval_secs(was_correct, review_count), now.nanos as int),
    ensures
        rfc3339_text((now.secs + interval_secs(was_correct, review_count)) as i64, now.nanos)
            == Some(r@),
{
    let due = next_due_instant(now, was_correct, review_count);
    match format_rfc3339(due) {
        Some(s) => s,
        None => String::new(),
    }
}

/// A right answer waits longer than a wrong one, and the wait after a right
/// answer never shrinks as the review count grows.
pub proof fn law_interval_grows(c1: u32, c2: u32)
    requires
        c1 <= c2,
    ensures
        interval_secs(false, c1) < interval_secs(true, c2),
        interval_secs(true, c1) <= interval_secs(true, c2),
{
}

} // verus!
