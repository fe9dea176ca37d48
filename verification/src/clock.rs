//! Dates and clock readings, taken from `chrono` and the system clock and
//! handed to the rest of the library as plain numbers.
use vstd::prelude::*;

use chrono::{DateTime, Datelike, Local, NaiveDate, NaiveDateTime, Timelike};

use crate::text::{decimal, digit_char};

verus! {

/// A calendar day: its number counted from January 1 of year 1 (day 1), its
/// ISO week and year, and its weekday counted from Monday = 0.
#[derive(Clone, Copy, Debug, PartialEq, Eq, Structural)]
pub struct CalendarDay {
    pub day: i32,
    pub iso_year: i32,
    pub iso_week: u32,
    pub weekday: u32,
}

/// A time read from the log: seconds since 1970-01-01 00:00:00 (the
/// timestamp read as UTC), the nanosecond within that second (from
/// 1_000_000_000 on during a leap second, as chrono counts it) and its
/// calendar day.
#[derive(Clone, Copy, Debug, PartialEq, Eq, Structural)]
pub struct LogStamp {
    pub seconds: i64,
    pub nanosecond: u32,
    pub date: CalendarDay,
}

/// The order of times: by second, then by nanosecond, so that a leap second
/// comes after the second it extends and before the next.
pub open spec fn stamp_le(a: LogStamp, b: LogStamp) -> bool {
    a.seconds < b.seconds || (a.seconds == b.seconds && a.nanosecond <= b.nanosecond)
}

/// The whole seconds up to a time that count in the length of an interval:
/// a leap second adds one. For times on whole seconds, as the log holds
/// them, the difference of two is the number of seconds chrono measures
/// between them.
pub open spec fn instant(s: LogStamp) -> int {
    s.seconds + if s.nanosecond >= 1_000_000_000 {
        1int
    } else {
        0int
    }
}

/// The ranges of a time chrono reads: its day in chrono's ranges, its
/// seconds within those of chrono's calendar (about 8.3 * 10^12 either side
/// of 1970) and its nanosecond below two seconds' worth.
pub open spec fn stamp_ok(s: LogStamp) -> bool {
    &&& calendar_day_ok(s.date)
    &&& -9_000_000_000_000 <= s.seconds <= 9_000_000_000_000
    &&& s.nanosecond < 2_000_000_000
}

/// Later times count no fewer seconds.
pub proof fn lemma_instant_monotone(a: LogStamp, b: LogStamp)
    requires
        stamp_le(a, b),
    ensures
        instant(a) <= instant(b),
{
}

/// Whether `a` is later than `b` (not `stamp_le`).
pub fn stamp_after(a: &LogStamp, b: &LogStamp) -> (r: bool)
    ensures
        r == !stamp_le(*a, *b),
{
    a.seconds > b.seconds || (a.seconds == b.seconds && a.nanosecond > b.nanosecond)
}

/// The seconds from `from` to `to` (`instant`).
pub fn elapsed(from: &LogStamp, to: &LogStamp) -> (r: i128)
    ensures
        r == instant(*to) - instant(*from),
{
    let a: i128 = if from.nanosecond >= 1_000_000_000 {
        1
    } else {
        0
    };
    let b: i128 = if to.nanosecond >= 1_000_000_000 {
        1
    } else {
        0
    };
    (to.seconds as i128 + b) - (from.seconds as i128 + a)
}

/// The ranges that chrono documents for weekdays and ISO week numbers.
pub open spec fn calendar_day_ok(c: CalendarDay) -> bool {
    &&& c.weekday < 7
    &&& 1 <= c.iso_week <= 53
}

/// The formats this library renders clock readings with.
pub open spec fn supported_time_format(format: Seq<char>) -> bool {
    ||| format == "%Y-%m-%d %H:%M:%S"@
    ||| format == "%Y-%m-%d %H:%M"@
    ||| format == "%Y%m%d-%H%M%S"@
    ||| format == "%Y-%m-%d %H:%M:%S%.3f"@
}

/// What `NaiveDateTime::parse_from_str(text, format)` yields, as a `LogStamp`.
pub uninterp spec fn parsed_timestamp(text: Seq<char>, format: Seq<char>) -> Option<LogStamp>;

/// What `NaiveDate::from_num_days_from_ce_opt(days)` yields, as a `CalendarDay`.
pub uninterp spec fn calendar_day_for(days: int) -> Option<CalendarDay>;

/// Reads `text` as a date and time in `format` with
/// `chrono::NaiveDateTime::parse_from_str`. The result is named
/// `parsed_timestamp`; of it the contract states only chrono's documented
/// ranges (`stamp_ok`: the weekday 0 to 6 from Monday, the ISO week 1 to
/// 53, the seconds of `NaiveDate::MIN` to `NaiveDate::MAX`, the nanosecond
/// below 2_000_000_000), and that for a format without a fraction of a
/// second the nanosecond is 0 or, for a leap second `:60`, 1_000_000_000
/// (`Parsed::to_naive_time`).
#[verifier::external_body]
pub(crate) fn parse_timestamp(text: &str, format: &str) -> (r: Option<LogStamp>)
    ensures
        r == parsed_timestamp(text@, format@),
        r matches Some(s) ==> stamp_ok(s),
        r matches Some(s) ==> format@ == "%Y-%m-%d %H:%M:%S"@ ==> s.nanosecond == 0 || s.nanosecond
            == 1_000_000_000,
{
    match NaiveDateTime::parse_from_str(text, format) {
        Ok(t) => {
            let (d, w) = (t.date(), t.date().iso_week());
            let date = CalendarDay {
                day: d.num_days_from_ce(),
                iso_year: w.year(),
                iso_week: w.week(),
                weekday: d.weekday().num_days_from_monday(),
            };
            Some(LogStamp { seconds: t.and_utc().timestamp(), nanosecond: t.nanosecond(), date })
        },
        Err(_) => None,
    }
}

/// The first and last day numbers chrono's calendar holds: January 1 of
/// year -262143 and December 31 of year 262142 (`NaiveDate::MIN` and
/// `NaiveDate::MAX`).
pub open spec fn first_calendar_day() -> int {
    -95_746_129
}

/// See `first_calendar_day`.
pub open spec fn last_calendar_day() -> int {
    95_745_399
}

/// The day number of 1969-12-31, the earliest local date of a clock reading
/// taken after 1970 began in UTC (a local offset is less than a day).
pub open spec fn clock_epoch_day() -> int {
    719_162
}

/// The calendar day numbered `days` (`chrono::NaiveDate::from_num_days_from_ce_opt`),
/// `None` exactly outside chrono's calendar (from `NaiveDate::MIN` to
/// `NaiveDate::MAX`). Its day number is `days`, as the documentation of
/// `num_days_from_ce` and `from_num_days_from_ce_opt` shows.
#[verifier::external_body]
pub(crate) fn calendar_day(days: i32) -> (r: Option<CalendarDay>)
    ensures
        r == calendar_day_for(days as int),
        r is Some <==> first_calendar_day() <= days <= last_calendar_day(),
        r matches Some(c) ==> c.day == days && calendar_day_ok(c),
{
    NaiveDate::from_num_days_from_ce_opt(days).map(
        |d| CalendarDay {
            day: d.num_days_from_ce(),
            iso_year: d.iso_week().year(),
            iso_week: d.iso_week().week(),
            weekday: d.weekday().num_days_from_monday(),
        },
    )
}

/// Today in local time: the system clock (`SystemTime::now`, read since
/// 1970 with `duration_since`) as a UTC time (`DateTime::from_timestamp`)
/// moved to the local time zone (`with_timezone(&Local)`). `None` when the
/// clock reads a time before 1970 or beyond chrono's calendar. The clock
/// decides the day; stated are chrono's ranges of weekday and ISO week and
/// that the day lies from 1969-12-31 (the UTC date is from 1970 on and a
/// local offset is less than a day) to one day past `NaiveDate::MAX`.
/// Left unsaid: chrono's lookup of the local offset unwraps its result,
/// which fails only for a time-zone definition with an offset of a day or
/// more.
#[verifier::external_body]
pub(crate) fn local_today() -> (r: Option<CalendarDay>)
    ensures
        r matches Some(c) ==> calendar_day_ok(c) && clock_epoch_day() <= c.day <= last_calendar_day() + 1,
{
    let since = std::time::SystemTime::now().duration_since(std::time::UNIX_EPOCH).ok()?;
    let utc = DateTime::from_timestamp(i64::try_from(since.as_secs()).ok()?, since.subsec_nanos())?;
    let d = utc.with_timezone(&Local).date_naive();
    Some(CalendarDay {
        day: d.num_days_from_ce(),
        iso_year: d.iso_week().year(),
        iso_week: d.iso_week().week(),
        weekday: d.weekday().num_days_from_monday(),
    })
}

/// A local date and time as chrono gives it (`Datelike` and `Timelike` of a
/// `DateTime<Local>`): year, month (1 to 12), day of the month, hour,
/// minute, second and nanosecond.
#[derive(Clone, Copy, Debug, PartialEq, Eq, Structural)]
pub struct LocalReading {
    pub year: i32,
    pub month: u32,
    pub day: u32,
    pub hour: u32,
    pub minute: u32,
    pub second: u32,
    pub nanosecond: u32,
}

/// The ranges of a reading of the system clock: a year from 1969 on (the
/// clock reads from 1970 in UTC, and a local offset is less than a day),
/// chrono's ranges of month, day, hour, minute and second, and no leap
/// second (a time taken from a count of seconds has none).
pub open spec fn reading_ok(t: LocalReading) -> bool {
    &&& 1969 <= t.year
    &&& 1 <= t.month <= 12
    &&& 1 <= t.day <= 31
    &&& t.hour < 24
    &&& t.minute < 60
    &&& t.second < 60
    &&& t.nanosecond < 1_000_000_000
}

/// The last `width` decimal digits of `n`, zeros in front.
pub open spec fn padded(n: nat, width: nat) -> Seq<char>
    decreases width,
{
    if width == 0 {
        Seq::<char>::empty()
    } else {
        padded(n / 10, (width - 1) as nat).push(digit_char(n % 10))
    }
}

/// How chrono writes a year from 0 on with `%Y`: four digits up to 9999,
/// beyond that a `+` and its digits.
pub open spec fn year_text(year: int) -> Seq<char> {
    if year < 10000 {
        padded(year as nat, 4)
    } else {
        seq!['+'] + decimal(year as nat)
    }
}

/// The text chrono's `DateTime::format` writes for a reading in one of the
/// supported formats: `%Y` as `year_text`, `%m`, `%d`, `%H`, `%M` and `%S`
/// as two digits, `%.3f` as a point and the milliseconds in three digits.
pub open spec fn rendered_time(format: Seq<char>, t: LocalReading) -> Seq<char> {
    let y = year_text(t.year as int);
    let mo = padded(t.month as nat, 2);
    let d = padded(t.day as nat, 2);
    let h = padded(t.hour as nat, 2);
    let mi = padded(t.minute as nat, 2);
    let s = padded(t.second as nat, 2);
    let date = y + seq!['-'] + mo + seq!['-'] + d;
    if format == "%Y-%m-%d %H:%M"@ {
        date + seq![' '] + h + seq![':'] + mi
    } else if format == "%Y%m%d-%H%M%S"@ {
        y + mo + d + seq!['-'] + h + mi + s
    } else if format == "%Y-%m-%d %H:%M:%S%.3f"@ {
        date + seq![' '] + h + seq![':'] + mi + seq![':'] + s + seq!['.'] + padded(
            (t.nanosecond / 1_000_000) as nat,
            3,
        )
    } else {
        date + seq![' '] + h + seq![':'] + mi + seq![':'] + s
    }
}

/// The local time now, read as `local_today` reads it: the reading as plain
/// values, the text `DateTime::format` writes for it in `format`
/// (`rendered_time`) and the milliseconds since 1970 (`timestamp_millis`);
/// `None` when the clock reads a time before 1970 or beyond chrono's
/// calendar. The clock decides the reading; stated are its ranges
/// (`reading_ok`), the text for it, and that the milliseconds are not
/// negative. Left unsaid, as for `local_today`: the local offset lookup.
#[verifier::external_body]
pub(crate) fn local_now(format: &str) -> (r: Option<(String, i64, LocalReading)>)
    requires
        supported_time_format(format@),
    ensures
        r matches Some((text, ms, t)) ==> reading_ok(t) && ms >= 0 && text@ == rendered_time(format@, t),
{
    let since = std::time::SystemTime::now().duration_since(std::time::UNIX_EPOCH).ok()?;
    let utc = DateTime::from_timestamp(i64::try_from(since.as_secs()).ok()?, since.subsec_nanos())?;
    let now = utc.with_timezone(&Local);
    let t = LocalReading {
        year: now.year(),
        month: now.month(),
        day: now.day(),
        hour: now.hour(),
        minute: now.minute(),
        second: now.second(),
        nanosecond: now.nanosecond(),
    };
    Some((now.format(format).to_string(), now.timestamp_millis(), t))
}

/// The error when the system clock cannot be read as a date.
pub open spec fn clock_error_message() -> Seq<char> {
    "The system clock could not be read."@
}

/// The error when the system clock cannot be read (`clock_error_message`).
pub fn clock_error() -> (r: String)
    ensures
        r@ == clock_error_message(),
{
    "The system clock could not be read.".to_string()
}

/// Microseconds since 1970 by the system clock (`SystemTime::duration_since`),
/// 0 when the clock is set before 1970. The clock decides the value.
#[verifier::external_body]
pub(crate) fn unix_time_micros() -> (r: u64) {
    match std::time::SystemTime::now().duration_since(std::time::UNIX_EPOCH) {
        Ok(elapsed) => elapsed.as_micros() as u64,
        Err(_) => 0,
    }
}

} // verus!
