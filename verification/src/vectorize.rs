//! The integer and text parts of turning a fraud-score request into its
//! 14-dimension vector: the instants read from the RFC 3339 timestamps and
//! whether the merchant is already known to the customer. Scaling them into
//! `[0, 1]` is done by the caller.

use vstd::prelude::*;
use chrono::{Datelike, DateTime, Timelike, Utc};

verus! {

/// Dimensions of a query vector.
pub const DIM: usize = 14;

/// `chrono::DateTime::parse_from_rfc3339` accepts the text.
pub uninterp spec fn rfc3339_valid(s: Seq<char>) -> bool;

/// Milliseconds since the Unix epoch (`timestamp_millis`) of the parsed
/// instant.
pub uninterp spec fn rfc3339_millis(s: Seq<char>) -> i64;

/// Hour of the day, in UTC (`Timelike::hour`), of the parsed instant.
pub uninterp spec fn rfc3339_hour(s: Seq<char>) -> u32;

/// Day of the week, in UTC, counted from Monday = 0
/// (`Weekday::num_days_from_monday`), of the parsed instant.
pub uninterp spec fn rfc3339_weekday(s: Seq<char>) -> u32;

/// Fields of an instant, read in UTC.
struct UtcFields {
    millis: i64,
    hour: u32,
    weekday: u32,
}

/// Parses `s` with `chrono::DateTime::parse_from_rfc3339`, converts it to
/// UTC (`with_timezone(&Utc)`) and reads `timestamp_millis()`, `hour()` and
/// `weekday().num_days_from_monday()`. Claimed: the result is present exactly
/// when chrono accepts the text, its fields are chrono's, and (as chrono
/// documents) the hour is below 24 and the weekday below 7.
#[verifier::external_body]
fn parse_utc(s: &str) -> (r: Option<UtcFields>)
    ensures
        r is Some <==> rfc3339_valid(s@),
        r matches Some(f) ==> {
            &&& f.millis == rfc3339_millis(s@)
            &&& f.hour == rfc3339_hour(s@)
            &&& f.weekday == rfc3339_weekday(s@)
            &&& f.hour < 24
            &&& f.weekday < 7
        },
{
    match DateTime::parse_from_rfc3339(s) {
        Ok(d) => {
            let u = d.with_timezone(&Utc);
            Some(UtcFields { millis: u.timestamp_millis(), hour: u.hour(), weekday: u.weekday().num_days_from_monday() })
        },
        Err(_) => None,
    }
}

/// Time-related inputs of the vector.
pub struct TimeFeatures {
    /// Hour of the request, UTC (0..=23).
    pub hour: u32,
    /// Day of the week of the request, Monday = 0 (0..=6).
    pub weekday: u32,
    /// The request instant, in milliseconds since the epoch.
    pub requested_millis: i64,
    /// The previous transaction's instant, when there is one.
    pub previous_millis: Option<i64>,
}

/// Reads the request timestamp and, when there is a previous transaction,
/// its timestamp. `None` when either one is not valid RFC 3339.
pub fn time_features(requested_at: &str, last_timestamp: Option<&str>) -> (r: Option<TimeFeatures>)
    ensures
        r is Some <==> rfc3339_valid(requested_at@) && (last_timestamp matches Some(l) ==> rfc3339_valid(l@)),
        r matches Some(f) ==> {
            &&& f.hour == rfc3339_hour(requested_at@)
            &&& f.weekday == rfc3339_weekday(requested_at@)
            &&& f.requested_millis == rfc3339_millis(requested_at@)
            &&& f.hour < 24
            &&& f.weekday < 7
            &&& match last_timestamp {
                None => f.previous_millis is None,
                Some(l) => f.previous_millis == Some(rfc3339_millis(l@)),
            }
        },
{
    let now = match parse_utc(requested_at) {
        Some(f) => f,
        None => return None,
    };
    let previous_millis = match last_timestamp {
        None => None,
        Some(l) => match parse_utc(l) {
            Some(f) => Some(f.millis),
            None => return None,
        },
    };
    Some(TimeFeatures { hour: now.hour, weekday: now.weekday, requested_millis: now.millis, previous_millis })
}

/// Whether the merchant is among the customer's known merchants.
pub fn merchant_is_known(known_merchants: &Vec<String>, merchant_id: &String) -> (r: bool)
    ensures
        r == exists|i: int| 0 <= i < known_merchants@.len() && (#[trigger] known_merchants@[i])@ == merchant_id@,
{
    let mut i: usize = 0;
    while i < known_merchants.len()
        invariant
            i <= known_merchants@.len(),
            forall|j: int| 0 <= j < i ==> (#[trigger] known_merchants@[j])@ != merchant_id@,
        decreases known_merchants@.len() - i,
    {
        if known_merchants[i] == *merchant_id {
            return true;
        }
        i += 1;
    }
    false
}

} // verus!
