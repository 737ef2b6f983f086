//! Bridge to chrono for what the library cannot compute itself: parsing date
//! and time text against a strftime format, and reading the local clock.

use vstd::prelude::*;

use crate::date::Date;
use crate::date::DateTime;
use crate::date::Time;

verus! {

/// What chrono's `NaiveDate::parse_from_str` yields on the given text and
/// format: the `(year, month, day)` of the parsed date, or `None` where the
/// text does not match the format. For a fixed format the result depends on
/// the text alone.
pub uninterp spec fn chrono_date_parse(s: Seq<char>, fmt: Seq<char>) -> Option<(i32, u32, u32)>;

/// What chrono's `NaiveTime::parse_from_str` yields on the given text and
/// format: the `(hour, minute, second)` of the parsed time, or `None`.
pub uninterp spec fn chrono_time_parse(s: Seq<char>, fmt: Seq<char>) -> Option<(u32, u32, u32)>;

/// Relies on chrono's `NaiveDate::parse_from_str` and the `Datelike`
/// accessors: parses `s` against the format and hands back the date's parts.
#[verifier::external_body]
pub(crate) fn parse_date_text(s: &str, fmt: &str) -> (r: Option<(i32, u32, u32)>)
    ensures
        r == chrono_date_parse(s@, fmt@),
{
    match chrono::NaiveDate::parse_from_str(s, fmt) {
        Ok(d) => Some(
            (chrono::Datelike::year(&d), chrono::Datelike::month(&d), chrono::Datelike::day(&d)),
        ),
        Err(_) => None,
    }
}

/// Relies on chrono's `NaiveTime::parse_from_str` and the `Timelike`
/// accessors: parses `s` against the format and hands back the time's parts.
#[verifier::external_body]
pub(crate) fn parse_time_text(s: &str, fmt: &str) -> (r: Option<(u32, u32, u32)>)
    ensures
        r == chrono_time_parse(s@, fmt@),
{
    match chrono::NaiveTime::parse_from_str(s, fmt) {
        Ok(t) => Some(
            (
                chrono::Timelike::hour(&t),
                chrono::Timelike::minute(&t),
                chrono::Timelike::second(&t),
            ),
        ),
        Err(_) => None,
    }
}

/// Relies on `std::time::SystemTime::now` and chrono's
/// `DateTime::from_timestamp`: the current UTC date and time as `(year,
/// month, day, hour, minute, second)`, or `None` when the clock reads before
/// the Unix epoch or beyond chrono's range. Neither call can panic, and
/// nothing is assumed of the clock's reading; callers validate every part.
#[verifier::external_body]
pub(crate) fn now_parts() -> (r: Option<(i32, u32, u32, u32, u32, u32)>) {
    let elapsed = std::time::SystemTime::now().duration_since(std::time::UNIX_EPOCH).ok()?;
    let secs = i64::try_from(elapsed.as_secs()).ok()?;
    let now = chrono::DateTime::from_timestamp(secs, 0)?.naive_utc();
    Some(
        (
            chrono::Datelike::year(&now),
            chrono::Datelike::month(&now),
            chrono::Datelike::day(&now),
            chrono::Timelike::hour(&now),
            chrono::Timelike::minute(&now),
            chrono::Timelike::second(&now),
        ),
    )
}

/// The current date and time, checked into the library's range; a clock
/// reading the library cannot hold (before the Unix epoch, or past the year
/// 9999) falls back to 1970-01-01 00:00:00.
pub fn now_datetime() -> (r: DateTime)
    ensures
        r.wf(),
{
    let (y, mo, d, h, mi, s) = match now_parts() {
        Some(parts) => parts,
        None => (1970, 1, 1, 0, 0, 0),
    };
    let date_opt = if 0 <= y && y <= 9999 && 1 <= mo && mo <= 12 && 1 <= d && d <= 31 {
        Date::new(y as u16, mo as u8, d as u8)
    } else {
        None
    };
    let date = match date_opt {
        Some(dd) => dd,
        None => Date { year: 1970, month: 1, day: 1 },
    };
    let time_opt = if h < 24 && mi < 60 && s < 60 {
        Time::new(h as u8, mi as u8, s as u8)
    } else {
        None
    };
    let time = match time_opt {
        Some(t) => t,
        None => Time { hour: 0, minute: 0, second: 0 },
    };
    DateTime { date, time }
}

} // verus!
