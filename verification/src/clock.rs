//! Points in time. The store keeps an instant as the number of microseconds
//! since 1970-01-01T00:00:00Z; at its edge an instant is written as an
//! RFC 3339 string. Reading the clock and the two conversions are chrono's.

use vstd::prelude::*;
use vstd::string::StringExecFns;
use crate::error::JotDeckError;

verus! {

/// The days that a row stays in the bin before a cleanup may purge it.
pub const DELETE_AFTER_DAYS: i64 = 30;

/// The microseconds of one day.
pub const MICROS_PER_DAY: i64 = 86_400_000_000;

#[verifier::external_type_specification]
#[verifier::external_body]
pub struct ExParseError(chrono::format::ParseError);

/// The instant that chrono reads from an RFC 3339 string, in microseconds
/// since 1970-01-01T00:00:00Z; none where chrono rejects the string.
pub uninterp spec fn rfc3339_micros(text: Seq<char>) -> Option<i64>;

/// The RFC 3339 string that chrono writes for an instant given in
/// microseconds since 1970-01-01T00:00:00Z; none where chrono cannot hold
/// the instant.
pub uninterp spec fn micros_rfc3339(t: i64) -> Option<Seq<char>>;

/// `chrono::Utc::now`, given by `DateTime::timestamp_micros` as
/// microseconds since 1970-01-01T00:00:00Z. Nothing is known of the reading
/// but that it is not negative: chrono measures it from the epoch onwards,
/// and stops the program where the system clock stands before the epoch.
#[verifier::external_body]
pub(crate) fn utc_now_micros() -> (t: i64)
    ensures
        t >= 0,
{
    chrono::Utc::now().timestamp_micros()
}

/// `chrono::DateTime::parse_from_rfc3339`, with the instant it parsed turned
/// to UTC by `DateTime::with_timezone` and given in microseconds by
/// `DateTime::timestamp_micros`. The contract names the result and states
/// nothing else of it.
#[verifier::external_body]
fn parse_rfc3339(text: &str) -> (r: Result<i64, chrono::format::ParseError>)
    ensures
        match r {
            Ok(t) => rfc3339_micros(text@) == Some(t),
            Err(_) => rfc3339_micros(text@) is None,
        },
{
    chrono::DateTime::parse_from_rfc3339(text).map(
        |dt| dt.with_timezone(&chrono::Utc).timestamp_micros(),
    )
}

/// `chrono::DateTime::to_rfc3339` on the instant that
/// `chrono::DateTime::from_timestamp_micros` makes of `t`. The contract
/// names the result and states nothing else of it.
#[verifier::external_body]
fn write_rfc3339(t: i64) -> (r: Option<String>)
    ensures
        match r {
            Some(text) => micros_rfc3339(t) == Some(text@),
            None => micros_rfc3339(t) is None,
        },
{
    chrono::DateTime::from_timestamp_micros(t).map(|dt| dt.to_rfc3339())
}

/// Reads an instant from an RFC 3339 string. A string that is none is a
/// storage failure.
pub fn parse_datetime(text: &str) -> (r: Result<i64, JotDeckError>)
    ensures
        match r {
            Ok(t) => rfc3339_micros(text@) == Some(t),
            Err(e) => rfc3339_micros(text@) is None && e is Database,
        },
{
    match parse_rfc3339(text) {
        Ok(t) => Ok(t),
        Err(e) => Err(
            JotDeckError::Database(
                String::from_str("invalid timestamp: ").concat(e.to_string().as_str()),
            ),
        ),
    }
}

/// Reads an instant from an RFC 3339 string, or nothing where the string is
/// none.
pub fn parse_datetime_opt(text: &str) -> (r: Option<i64>)
    ensures
        r == rfc3339_micros(text@),
{
    match parse_rfc3339(text) {
        Ok(t) => Some(t),
        Err(_) => None,
    }
}

/// Writes an instant as an RFC 3339 string. An instant that chrono cannot
/// hold is a storage failure.
pub fn format_datetime(t: i64) -> (r: Result<String, JotDeckError>)
    ensures
        match r {
            Ok(text) => micros_rfc3339(t) == Some(text@),
            Err(e) => micros_rfc3339(t) is None && e@ == crate::error::ErrorView::Database(
                "timestamp out of range"@,
            ),
        },
{
    match write_rfc3339(t) {
        Some(text) => Ok(text),
        None => Err(crate::error::database("timestamp out of range")),
    }
}

/// The instant before which a row in the bin is old enough to purge, for a
/// cleanup that runs at `now`.
pub open spec fn retention_threshold(now: int) -> int {
    now - DELETE_AFTER_DAYS * MICROS_PER_DAY
}

/// The retention threshold of a cleanup that runs at `now`.
pub fn threshold_at(now: i64) -> (t: i64)
    requires
        now >= i64::MIN + DELETE_AFTER_DAYS * MICROS_PER_DAY,
    ensures
        t == retention_threshold(now as int),
{
    now - DELETE_AFTER_DAYS * MICROS_PER_DAY
}

} // verus!
