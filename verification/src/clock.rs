//! Reading the arrival time of a query.

use crate::dijkstra::QueryError;
use vstd::prelude::*;

verus! {

/// The seconds past midnight that `text` stands for when read in the format
/// `format`; none where it cannot be read so.
pub uninterp spec fn parsed_time(text: Seq<char>, format: Seq<char>) -> Option<u32>;

/// Reads a time of day with `chrono::NaiveTime::parse_from_str` and gives
/// its `num_seconds_from_midnight`. Taken on trust: that the outcome depends
/// on the two strings alone, and that a time of day has fewer seconds than
/// a day.
#[verifier::external_body]
fn parse_time(text: &str, format: &str) -> (seconds: Option<u32>)
    ensures
        seconds == parsed_time(text@, format@),
        seconds matches Some(s) ==> s < 86_400,
{
    match chrono::NaiveTime::parse_from_str(text, format) {
        Ok(time) => Some(chrono::Timelike::num_seconds_from_midnight(&time)),
        Err(_) => None,
    }
}

/// The arrival time that a query gets from what its text was read as.
pub open spec fn arrival_time_of(parsed: Option<u32>) -> Result<u32, QueryError> {
    match parsed {
        Some(seconds) => Ok(seconds),
        None => Err(QueryError::BadTime),
    }
}

/// The arrival time that a query gets from what its text was read as: the
/// seconds, or `BadTime` where the text could not be read.
pub fn arrival_time_from(parsed: Option<u32>) -> (time: Result<u32, QueryError>)
    ensures
        time == arrival_time_of(parsed),
{
    match parsed {
        Some(seconds) => Ok(seconds),
        None => Err(QueryError::BadTime),
    }
}

/// Reads an arrival time written as `HH:MM:SS` into seconds past midnight.
pub fn parse_arrival_time(text: &str) -> (time: Result<u32, QueryError>)
    ensures
        time == arrival_time_of(parsed_time(text@, "%H:%M:%S"@)),
        time matches Ok(seconds) ==> seconds < 86_400,
{
    arrival_time_from(parse_time(text, "%H:%M:%S"))
}

} // verus!
