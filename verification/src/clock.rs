//! A local wall-clock reading and its renderings, which chrono computes.
use vstd::prelude::*;
use crate::text::{digit_char, zero_padded};
use chrono::TimeZone;

verus! {

/// A local date and time with its offset from UTC, as plain values.
pub struct LocalTimestamp {
    pub year: i32,
    pub month: u32,
    pub day: u32,
    pub hour: u32,
    pub minute: u32,
    pub second: u32,
    /// Nanoseconds; from 1_000_000_000 on, a leap second (only when `second` is 59).
    pub nanosecond: u32,
    /// Local time minus UTC, in seconds.
    pub utc_offset_seconds: i32,
}

pub open spec fn is_leap_year(y: int) -> bool {
    y % 4 == 0 && (y % 100 != 0 || y % 400 == 0)
}

pub open spec fn days_in_month(y: int, m: int) -> int {
    if m == 2 {
        if is_leap_year(y) {
            29
        } else {
            28
        }
    } else if m == 4 || m == 6 || m == 9 || m == 11 {
        30
    } else {
        31
    }
}

impl LocalTimestamp {
    /// A real proleptic-Gregorian date and time of day, an offset of less than a
    /// day, and a year inside the range that chrono can shift by such an offset.
    pub open spec fn is_valid(self) -> bool {
        &&& -262142 <= self.year <= 262141
        &&& 1 <= self.month <= 12
        &&& 1 <= self.day <= days_in_month(self.year as int, self.month as int)
        &&& self.hour < 24
        &&& self.minute < 60
        &&& self.second < 60
        &&& self.nanosecond < 2_000_000_000
        &&& (self.nanosecond >= 1_000_000_000 ==> self.second == 59)
        &&& -86_400 < self.utc_offset_seconds < 86_400
    }

    /// The second as displayed: 60 during a leap second.
    pub open spec fn shown_second(self) -> int {
        self.second + if self.nanosecond >= 1_000_000_000 {
            1int
        } else {
            0int
        }
    }
}

/// Two decimal digits of `n < 100`.
pub open spec fn two_digits(n: int) -> Seq<char> {
    seq![digit_char((n / 10) as nat), digit_char((n % 10) as nat)]
}

/// A year as chrono writes it: four digits from 0 to 9999, otherwise a sign
/// and at least four digits.
pub open spec fn year_text(y: int) -> Seq<char> {
    if 0 <= y <= 9999 {
        zero_padded(y as nat, 4)
    } else if y > 9999 {
        seq!['+'] + zero_padded(y as nat, 4)
    } else {
        seq!['-'] + zero_padded((-y) as nat, 4)
    }
}

/// A UTC offset as `+HH:MM` or `-HH:MM`, rounded to the nearest minute.
pub open spec fn offset_text(off: int) -> Seq<char> {
    let sign = if off < 0 {
        '-'
    } else {
        '+'
    };
    let a = if off < 0 {
        -off
    } else {
        off
    };
    let minutes = (a + 30) / 60;
    seq![sign] + two_digits(minutes / 60) + seq![':'] + two_digits(minutes % 60)
}

/// `YYYY.MM.DD`: the date part of a transcript's file name.
pub open spec fn dotted_date(ts: LocalTimestamp) -> Seq<char> {
    year_text(ts.year as int) + seq!['.'] + two_digits(ts.month as int) + seq!['.'] + two_digits(
        ts.day as int,
    )
}

/// RFC 3339 with whole seconds and a numeric offset, e.g. `2026-06-30T09:05:39-05:00`.
pub open spec fn rfc3339_seconds(ts: LocalTimestamp) -> Seq<char> {
    year_text(ts.year as int) + seq!['-'] + two_digits(ts.month as int) + seq!['-'] + two_digits(
        ts.day as int,
    ) + seq!['T'] + two_digits(ts.hour as int) + seq![':'] + two_digits(ts.minute as int) + seq![
        ':',
    ] + two_digits(ts.shown_second()) + offset_text(ts.utc_offset_seconds as int)
}

/// `HH:MM:SS`.
pub open spec fn clock_time(ts: LocalTimestamp) -> Seq<char> {
    two_digits(ts.hour as int) + seq![':'] + two_digits(ts.minute as int) + seq![':'] + two_digits(
        ts.shown_second(),
    )
}

/// The date rendered with chrono's `format("%Y.%m.%d")`.
///
/// Trusted: `chrono::NaiveDate::from_ymd_opt` and `NaiveDate::format`. In
/// chrono 0.4.45, `%Y` writes years 0..=9999 as four zero-padded digits and
/// other years with a sign and at least four digits; `%m` and `%d` write two
/// zero-padded digits. `from_ymd_opt` accepts every date that `is_valid` admits.
#[verifier::external_body]
pub(crate) fn chrono_dotted_date(ts: &LocalTimestamp) -> (r: String)
    requires
        ts.is_valid(),
    ensures
        r@ == dotted_date(*ts),
{
    chrono::NaiveDate::from_ymd_opt(ts.year, ts.month, ts.day).unwrap().format(
        "%Y.%m.%d",
    ).to_string()
}

/// The timestamp rendered with chrono's
/// `to_rfc3339_opts(SecondsFormat::Secs, false)` on a `DateTime<FixedOffset>`.
///
/// Trusted: `chrono::NaiveDate::and_hms_nano_opt`, `FixedOffset::east_opt`,
/// `TimeZone::from_local_datetime` and `DateTime::to_rfc3339_opts`. In chrono
/// 0.4.45 the output is the year (as for `%Y`), `-MM-DDTHH:MM:SS` with a leap
/// second shown as 60, then the offset as a sign and `HH:MM`, rounded to the
/// nearest minute; no `Z` is written because `use_z` is false.
#[verifier::external_body]
pub(crate) fn chrono_rfc3339_seconds(ts: &LocalTimestamp) -> (r: String)
    requires
        ts.is_valid(),
    ensures
        r@ == rfc3339_seconds(*ts),
{
    let date = chrono::NaiveDate::from_ymd_opt(ts.year, ts.month, ts.day).unwrap();
    let local = date.and_hms_nano_opt(ts.hour, ts.minute, ts.second, ts.nanosecond).unwrap();
    let offset = chrono::FixedOffset::east_opt(ts.utc_offset_seconds).unwrap();
    offset.from_local_datetime(&local).unwrap().to_rfc3339_opts(chrono::SecondsFormat::Secs, false)
}

/// The time of day rendered with chrono's `format("%H:%M:%S")`.
///
/// Trusted: `chrono::NaiveTime::from_hms_nano_opt` and `NaiveTime::format`. In
/// chrono 0.4.45 `%H`, `%M` and `%S` write two zero-padded digits, `%S`
/// showing a leap second as 60.
#[verifier::external_body]
pub(crate) fn chrono_clock_time(ts: &LocalTimestamp) -> (r: String)
    requires
        ts.is_valid(),
    ensures
        r@ == clock_time(*ts),
{
    chrono::NaiveTime::from_hms_nano_opt(ts.hour, ts.minute, ts.second, ts.nanosecond).unwrap().format(
        "%H:%M:%S",
    ).to_string()
}

impl LocalTimestamp {
    /// Whether this reading is one that the renderings accept (`is_valid`).
    pub fn check_valid(&self) -> (r: bool)
        ensures
            r == self.is_valid(),
    {
        if !(-262142 <= self.year && self.year <= 262141) || !(1 <= self.month && self.month <= 12) {
            return false;
        }
        let y = self.year;
        let leap = y % 4 == 0 && (y % 100 != 0 || y % 400 == 0);
        assert(leap == is_leap_year(y as int));
        let m = self.month;
        let dim: u32 = if m == 2 {
            if leap {
                29
            } else {
                28
            }
        } else if m == 4 || m == 6 || m == 9 || m == 11 {
            30
        } else {
            31
        };
        1 <= self.day && self.day <= dim && self.hour < 24 && self.minute < 60 && self.second < 60
            && self.nanosecond < 2_000_000_000 && (self.nanosecond < 1_000_000_000 || self.second
            == 59) && -86_400 < self.utc_offset_seconds && self.utc_offset_seconds < 86_400
    }
}

/// Which readings are valid, field by field: a year from -262142 to 262141; a
/// month from 1 to 12; a day from 1 to 31, at most 30 in April, June,
/// September and November, at most 29 in February, and the 29th of February
/// only in a year divisible by 4 and not by 100 unless by 400; an hour below
/// 24, a minute and a second below 60; nanoseconds below 2e9, from 1e9 on only
/// in second 59; and an offset strictly between -86400 and 86400 seconds, east
/// or west of UTC alike.
pub proof fn lemma_valid_fields(ts: LocalTimestamp)
    ensures
        ts.is_valid() <==> {
            &&& -262142 <= ts.year && ts.year <= 262141
            &&& 1 <= ts.month && ts.month <= 12
            &&& 1 <= ts.day && ts.day <= 31
            &&& (ts.month == 4 || ts.month == 6 || ts.month == 9 || ts.month == 11) ==> ts.day
                <= 30
            &&& ts.month == 2 ==> ts.day <= 29
            &&& (ts.month == 2 && ts.day == 29) ==> (ts.year % 4 == 0 && (ts.year % 100 != 0
                || ts.year % 400 == 0))
            &&& ts.hour < 24
            &&& ts.minute < 60
            &&& ts.second < 60
            &&& ts.nanosecond < 2_000_000_000
            &&& (ts.nanosecond >= 1_000_000_000 ==> ts.second == 59)
            &&& -86_400 < ts.utc_offset_seconds && ts.utc_offset_seconds < 86_400
        },
{
}

/// Whether a reading is valid does not depend on its offset: the same local
/// date and time is valid at every offset of less than a day, whether local
/// time is ahead of UTC or behind it.
pub proof fn lemma_valid_at_any_offset(ts: LocalTimestamp, offset: i32)
    requires
        ts.is_valid(),
        -86_400 < offset < 86_400,
    ensures
        (LocalTimestamp {
            year: ts.year,
            month: ts.month,
            day: ts.day,
            hour: ts.hour,
            minute: ts.minute,
            second: ts.second,
            nanosecond: ts.nanosecond,
            utc_offset_seconds: offset,
        }).is_valid(),
{
}

} // verus!
