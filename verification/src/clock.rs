//! Instants in UTC as plain numbers, the system clock, and their RFC 3339
//! text, which the `chrono` crate produces.
use vstd::prelude::*;
use chrono::DateTime;
use std::time::{SystemTime, UNIX_EPOCH};

verus! {

/// An instant: whole seconds since 1970-01-01T00:00:00Z and the
/// nanoseconds past that second.
#[derive(Debug, Clone, Copy, PartialEq, Eq, Structural)]
pub struct Timestamp {
    pub secs: i64,
    pub nanos: u32,
}

/// The instants whose RFC 3339 text is certainly available: well inside the
/// years that `chrono` represents, and a nanosecond part below one second.
pub open spec fn representable(secs: int, nanos: int) -> bool {
    -8_000_000_000_000 <= secs <= 8_000_000_000_000 && 0 <= nanos < 1_000_000_000
}

/// `rfc3339_text(secs, nanos)` names the text that `chrono` gives for the
/// instant (`DateTime::<Utc>::to_rfc3339`, such as
/// `2026-04-20T10:00:00.5+00:00`), or `None` where `chrono` cannot represent
/// the instant.
pub uninterp spec fn rfc3339_text(secs: i64, nanos: u32) -> Option<Seq<char>>;

#[verifier::external_type_specification]
#[verifier::external_body]
pub struct ExSystemTime(std::time::SystemTime);

/// Reads the system clock with `std::time::SystemTime::now`; nothing is
/// known of the value.
#[verifier::external_body]
fn system_now() -> (t: SystemTime) {
    SystemTime::now()
}

/// How long after the Unix epoch `t` lies, through
/// `SystemTime::duration_since(UNIX_EPOCH)`, as the `Duration`'s whole
/// seconds and the nanoseconds past them (`as_secs`, `subsec_nanos`; the
/// latter is documented to stay below one second); `None` for a time before
/// the epoch, where `duration_since` reports an error.
#[verifier::external_body]
fn since_epoch(t: SystemTime) -> (r: Option<(u64, u32)>)
    ensures
        r matches Some(d) ==> d.1 < 1_000_000_000,
{
    match t.duration_since(UNIX_EPOCH) {
        Ok(d) => Some((d.as_secs(), d.subsec_nanos())),
        Err(_) => None,
    }
}

/// The current instant from the system clock, or `None` where the clock
/// reads a time before the Unix epoch or past what an `i64` of seconds holds.
pub fn clock_now() -> (t: Option<Timestamp>)
    ensures
        t matches Some(x) ==> 0 <= x.secs && x.nanos < 1_000_000_000,
{
    match since_epoch(system_now()) {
        Some((secs, nanos)) => {
            if secs <= 9_223_372_036_854_775_807u64 {
                Some(Timestamp { secs: secs as i64, nanos })
            } else {
                None
            }
        },
        None => None,
    }
}

/// The RFC 3339 text of an instant, through `chrono::DateTime::from_timestamp`
/// and `to_rfc3339`. The text is named by `rfc3339_text`; the contract adds
/// only that `chrono` represents every instant that `representable` admits.
#[verifier::external_body]
pub fn format_rfc3339(t: Timestamp) -> (r: Option<String>)
    ensures
        match r {
            Some(s) => rfc3339_text(t.secs, t.nanos) == Some(s@),
            None => rfc3339_text(t.secs, t.nanos) is None,
        },
        representable(t.secs as int, t.nanos as int) ==> r is Some,
{
    match DateTime::from_timestamp(t.secs, t.nanos) {
        Some(d) => Some(d.to_rfc3339()),
        None => None,
    }
}

/// `rfc3339_instant(text)` names what `chrono::DateTime::parse_from_rfc3339`
/// reads from `text`: the instant as whole seconds since the Unix epoch (in
/// UTC, the offset applied) and the nanoseconds past that second, or `None`
/// where `text` is not an RFC 3339 date and time.
pub uninterp spec fn rfc3339_instant(text: Seq<char>) -> Option<(i64, u32)>;

/// Reads an RFC 3339 date and time with `chrono::DateTime::parse_from_rfc3339`
/// and gives its `timestamp` and `timestamp_subsec_nanos`; the result is
/// named by `rfc3339_instant`.
#[verifier::external_body]
pub fn parse_rfc3339(text: &str) -> (r: Option<(i64, u32)>)
    ensures
        r == rfc3339_instant(text@),
{
    match DateTime::parse_from_rfc3339(text) {
        Ok(d) => Some((d.timestamp(), d.timestamp_subsec_nanos())),
        Err(_) => None,
    }
}

/// Whether instant `a` comes strictly before instant `b`.
pub open spec fn instant_before(a: (i64, u32), b: (i64, u32)) -> bool {
    a.0 < b.0 || (a.0 == b.0 && a.1 < b.1)
}

/// The message given when the clock reads an instant too far out to write.
pub open spec fn clock_range_message() -> Seq<char> {
    "current time out of range"@
}

} // verus!
