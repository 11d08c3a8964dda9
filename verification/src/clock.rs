//! Instants in time, and the two places where the library reads them:
//! the system clock and RFC 3339 text.
use vstd::prelude::*;

verus! {

/// An instant: whole seconds since the Unix epoch, and the nanoseconds
/// into that second (above 999_999_999 only inside a leap second).
#[derive(Clone, Copy, Debug, PartialEq, Eq, Structural)]
pub struct Timestamp {
    pub secs: i64,
    pub nanos: u32,
}

/// `a` comes strictly before `b`.
pub open spec fn ts_lt(a: Timestamp, b: Timestamp) -> bool {
    a.secs < b.secs || (a.secs == b.secs && a.nanos < b.nanos)
}

/// `a` comes no later than `b`.
pub open spec fn ts_le(a: Timestamp, b: Timestamp) -> bool {
    ts_lt(a, b) || a == b
}

/// Whether `a` comes strictly before `b`.
pub fn timestamp_lt(a: Timestamp, b: Timestamp) -> (r: bool)
    ensures
        r == ts_lt(a, b),
{
    a.secs < b.secs || (a.secs == b.secs && a.nanos < b.nanos)
}

/// The instant that `chrono::DateTime::parse_from_rfc3339` reads from `s`,
/// or `None` where it refuses `s`.
pub uninterp spec fn rfc3339_instant(s: Seq<char>) -> Option<Timestamp>;

/// The current time, read by `chrono::Utc::now`. Nothing is promised of
/// the value: it depends on the clock.
#[verifier::external_body]
pub(crate) fn now() -> Timestamp {
    let d = chrono::Utc::now();
    Timestamp { secs: d.timestamp(), nanos: d.timestamp_subsec_nanos() }
}

/// Parses RFC 3339 text with `chrono::DateTime::parse_from_rfc3339`; the
/// result is the instant it denotes (its offset applied), named
/// `rfc3339_instant`.
#[verifier::external_body]
pub(crate) fn parse_rfc3339(s: &str) -> (r: Option<Timestamp>)
    ensures
        r == rfc3339_instant(s@),
{
    match chrono::DateTime::parse_from_rfc3339(s) {
        Ok(d) => Some(Timestamp { secs: d.timestamp(), nanos: d.timestamp_subsec_nanos() }),
        Err(_) => None,
    }
}

} // verus!
