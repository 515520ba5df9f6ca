use vstd::prelude::*;

verus! {

/// Largest magnitude of a chrono timestamp in seconds: chrono dates span
/// fewer than 262,144 years around the epoch, under 32 million seconds each.
pub const CHRONO_LIMIT: i64 = 10_000_000_000_000;

/// The instant (seconds since the Unix epoch) that the calendar library
/// reads from a leaderboard time string of the given year, or `None` when
/// the string does not parse.  The result depends on the arguments alone.
pub uninterp spec fn parsed_time(year: i32, text: Seq<char>) -> Option<i64>;

/// Relies on chrono's `NaiveDateTime::parse_from_str` with the format
/// `"%Y %b %d  %H:%M:%S"` (the year prefixed to the scraped text), and on
/// `NaiveDateTime::and_utc().timestamp()`: parsing is a pure function of the
/// input, and chrono dates span fewer than 262,144 years around the epoch,
/// so the timestamp magnitude stays far below `TS_LIMIT`.
#[verifier::external_body]
pub fn parse_leaderboard_time(year: i32, text: &str) -> (r: Option<i64>)
    ensures
        r == parsed_time(year, text@),
        r matches Some(t) ==> -CHRONO_LIMIT < t < CHRONO_LIMIT,
{
    let with_year = format!("{} {}", year, text);
    match chrono::NaiveDateTime::parse_from_str(&with_year, "%Y %b %d  %H:%M:%S") {
        Ok(naive) => Some(naive.and_utc().timestamp()),
        Err(_) => None,
    }
}

/// Relies on chrono's `Utc::now`: the wall clock is outside the program, so
/// nothing is known of the value beyond the range of chrono timestamps.
#[verifier::external_body]
pub fn now_timestamp() -> (r: i64)
    ensures
        -CHRONO_LIMIT < r < CHRONO_LIMIT,
{
    chrono::Utc::now().timestamp()
}

} // verus!
