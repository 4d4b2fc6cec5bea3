//! The time of day in Tehran, as text.

use vstd::prelude::*;

pub use crate::record::current_tehran_time;

verus! {

/// How the time of a record is written: date and time to the second.
pub const RECORD_TIME_FORMAT: &'static str = "%Y-%m-%d %H:%M:%S";

/// How the time of a report is written: weekday, date and time to the minute.
pub const REPORT_TIME_FORMAT: &'static str = "%a, %d %b %Y %H:%M";

/// The first second that has a date: the start of the year -262143.
pub const EARLIEST: i64 = -8334601228800;

/// The last second that has a date: the end of the year 262142.
pub const LATEST: i64 = 8210266876799;

/// The seconds of a day.
pub const DAY: i64 = 86400;

/// Whether a second, counted from the start of 1970 in UTC, has a date.
pub open spec fn has_date(seconds: i64) -> bool {
    EARLIEST <= seconds <= LATEST
}

/// The local time in Tehran at a second, counted from the start of 1970 in UTC,
/// written as `format` says.
pub uninterp spec fn tehran_text(seconds: i64, format: Seq<char>) -> Seq<char>;

/// `chrono::DateTime::from_timestamp`, then `with_timezone` to
/// `chrono_tz::Asia::Tehran`, then `format`: the local time in Tehran. The text
/// depends on the second and the format alone, and has the name `tehran_text`:
/// the calendar and the history of the zone's offset are in the two crates'
/// tables.
#[verifier::external_body]
fn format_tehran(seconds: i64, format: &str) -> (text: String)
    requires
        has_date(seconds),
        format@ == RECORD_TIME_FORMAT@ || format@ == REPORT_TIME_FORMAT@,
    ensures
        text@ == tehran_text(seconds, format@),
{
    chrono::DateTime::<chrono::Utc>::from_timestamp(seconds, 0)
        .unwrap()
        .with_timezone(&chrono_tz::Asia::Tehran)
        .format(format)
        .to_string()
}

/// What the clock of the machine read. Other modules get one by reading the clock
/// only.
pub struct Reading {
    seconds: i64,
}

impl Reading {
    /// The seconds since the start of 1970 in UTC.
    pub closed spec fn at(&self) -> i64 {
        self.seconds
    }

    /// The seconds since the start of 1970 in UTC.
    pub fn seconds(&self) -> (seconds: i64)
        ensures
            seconds == self.at(),
    {
        self.seconds
    }
}

/// `chrono::Utc::now`: the seconds since the start of 1970 in UTC, by the clock of
/// the machine. All that is claimed is that they have a date.
#[verifier::external_body]
pub(crate) fn utc_seconds() -> (reading: Reading)
    ensures
        has_date(reading.at()),
{
    Reading { seconds: chrono::Utc::now().timestamp() }
}

/// The time of a record made at a second.
pub fn record_time(seconds: i64) -> (text: String)
    requires
        has_date(seconds),
    ensures
        text@ == tehran_text(seconds, RECORD_TIME_FORMAT@),
{
    format_tehran(seconds, RECORD_TIME_FORMAT)
}

/// The time of a report made at a second, and of the next one, a day later.
pub fn report_times(seconds: i64) -> (texts: (String, String))
    requires
        has_date(seconds),
        seconds <= LATEST - DAY,
    ensures
        texts.0@ == tehran_text(seconds, REPORT_TIME_FORMAT@),
        texts.1@ == tehran_text((seconds + DAY) as i64, REPORT_TIME_FORMAT@),
{
    (
        format_tehran(seconds, REPORT_TIME_FORMAT),
        format_tehran(seconds + DAY, REPORT_TIME_FORMAT),
    )
}

/// Whether a text is the time of a record made at a second that the clock read.
pub open spec fn is_record_time(text: Seq<char>) -> bool {
    exists|reading: Reading|
        has_date(#[trigger] reading.at()) && text == tehran_text(reading.at(), RECORD_TIME_FORMAT@)
}

/// The time of a record is the local time in Tehran to the second, and that of a
/// report the local time to the minute; the next report is a day of 86400 seconds
/// later.
pub proof fn law_times(seconds: i64, record: String, report: (String, String))
    requires
        has_date(seconds),
        seconds + 86400 <= LATEST,
        call_ensures(record_time, (seconds,), record),
        call_ensures(report_times, (seconds,), report),
    ensures
        record@ == tehran_text(seconds, "%Y-%m-%d %H:%M:%S"@),
        report.0@ == tehran_text(seconds, "%a, %d %b %Y %H:%M"@),
        report.1@ == tehran_text((seconds + 86400) as i64, "%a, %d %b %Y %H:%M"@),
{
}

} // verus!
