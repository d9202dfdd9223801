//! Timestamps as whole seconds since 1970-01-01 00:00:00 (no time zone),
//! and the text format `YYYY-MM-DD HH:MM:SS` they are read from.
use vstd::prelude::*;

verus! {

/// Seconds in one minute and in one day.
pub const MINUTE: i64 = 60;

pub const DAY: i64 = 86400;

/// Every timestamp that the calendar can hold lies within this many seconds
/// of the epoch (years -262143 to 262142).
pub const TIME_LIMIT: i64 = 10_000_000_000_000;

/// What `NaiveDateTime::parse_from_str(text, "%Y-%m-%d %H:%M:%S")` yields, in seconds.
pub uninterp spec fn datetime_seconds(text: Seq<char>) -> Option<i64>;

/// What `NaiveDate::parse_from_str(text, "%Y-%m-%d")` yields, as the second
/// at which that day starts.
pub uninterp spec fn date_start_seconds(text: Seq<char>) -> Option<i64>;

pub open spec fn in_time_range(t: i64) -> bool {
    -TIME_LIMIT <= t <= TIME_LIMIT
}

/// Relies on chrono's `NaiveDateTime::parse_from_str` with `%Y-%m-%d %H:%M:%S`
/// and `timestamp()` of the parsed value; chrono's calendar keeps every value
/// within `TIME_LIMIT` seconds of the epoch.
#[verifier::external_body]
fn parse_datetime_text(text: &str) -> (r: Option<i64>)
    ensures
        r == datetime_seconds(text@),
        r matches Some(t) ==> in_time_range(t),
{
    chrono::NaiveDateTime::parse_from_str(text, "%Y-%m-%d %H:%M:%S").ok().map(
        |d| d.and_utc().timestamp(),
    )
}

/// Relies on chrono's `NaiveDate::parse_from_str` with `%Y-%m-%d`, and on
/// `and_hms_opt(0, 0, 0)` and `timestamp()` for the first second of that day.
#[verifier::external_body]
fn parse_date_text(text: &str) -> (r: Option<i64>)
    ensures
        r == date_start_seconds(text@),
        r matches Some(t) ==> in_time_range(t),
{
    chrono::NaiveDate::parse_from_str(text, "%Y-%m-%d").ok().and_then(|d| d.and_hms_opt(0, 0, 0)).map(
        |d| d.and_utc().timestamp(),
    )
}

/// The time-of-day suffix that stands for the end of a day.
pub open spec fn end_of_day_suffix() -> Seq<char> {
    seq![' ', '2', '4', ':', '0', '0', ':', '0', '0']
}

pub open spec fn ends_at_end_of_day(text: Seq<char>) -> bool {
    text.len() >= 9 && text.subrange(text.len() - 9, text.len() as int) == end_of_day_suffix()
}

/// The date text in front of the time of day.
pub open spec fn date_part(text: Seq<char>) -> Seq<char> {
    text.subrange(0, text.len() - 9)
}

/// The instant that a timestamp text denotes: a time of `24:00:00` on day `D`
/// is `00:00:00` on the day after `D`; any other text is read as it stands.
pub open spec fn timestamp_of(text: Seq<char>) -> Option<i64> {
    if ends_at_end_of_day(text) && date_start_seconds(date_part(text)) is Some {
        Some((date_start_seconds(date_part(text))->0 + DAY) as i64)
    } else {
        datetime_seconds(text)
    }
}

pub open spec fn timestamp_in_range(t: Option<i64>) -> bool {
    t matches Some(v) ==> -TIME_LIMIT <= v <= TIME_LIMIT + DAY
}

/// Reads a timestamp text `YYYY-MM-DD HH:MM:SS`, where `24:00:00` stands for
/// midnight at the end of the day.
pub fn parse_timestamp(text: &str) -> (r: Option<i64>)
    ensures
        r == timestamp_of(text@),
        timestamp_in_range(r),
{
    let n = text.unicode_len();
    if n >= 9 && ends_with_end_of_day(text, n) {
        let date = text.substring_char(0, n - 9);
        match parse_date_text(date) {
            Some(start) => {
                return Some(start + DAY);
            },
            None => {},
        }
    }
    parse_datetime_text(text)
}

fn ends_with_end_of_day(text: &str, n: usize) -> (r: bool)
    requires
        n == text@.len(),
        n >= 9,
    ensures
        r == ends_at_end_of_day(text@),
{
    let tail = text.substring_char(n - 9, n);
    let expected = [' ', '2', '4', ':', '0', '0', ':', '0', '0'];
    let mut i: usize = 0;
    while i < 9
        invariant
            n == text@.len(),
            n >= 9,
            tail@.len() == 9,
            tail@ == text@.subrange(n - 9, n as int),
            expected@ == end_of_day_suffix(),
            i <= 9,
            forall|j: int| 0 <= j < i ==> tail@[j] == end_of_day_suffix()[j],
        decreases 9 - i,
    {
        if tail.get_char(i) != expected[i] {
            assert(tail@[i as int] != end_of_day_suffix()[i as int]);
            return false;
        }
        i = i + 1;
    }
    assert(tail@ =~= end_of_day_suffix());
    true
}

/// Reads a calendar date `YYYY-MM-DD` as the first second of that day.
pub fn parse_date(text: &str) -> (r: Option<i64>)
    ensures
        r == date_start_seconds(text@),
        r matches Some(t) ==> in_time_range(t),
{
    parse_date_text(text)
}

/// A day text followed by `24:00:00` denotes midnight at the start of the next day.
pub proof fn lemma_end_of_day_is_next_midnight(day: Seq<char>, text: Seq<char>)
    requires
        text == day + end_of_day_suffix(),
        date_start_seconds(day) is Some,
    ensures
        timestamp_of(text) == Some((date_start_seconds(day)->0 + DAY) as i64),
{
    assert(text.subrange(text.len() - 9, text.len() as int) =~= end_of_day_suffix());
    assert(date_part(text) =~= day);
}

} // verus!
