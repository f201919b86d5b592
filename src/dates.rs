//! Calendar dates: parsing `YYYY-MM-DD` text and whole-day arithmetic, both
//! done by chrono.

use chrono::Datelike;
use vstd::prelude::*;
use crate::value::digit_char;

verus! {

/// A calendar date.
#[derive(Clone, Copy, Debug, PartialEq, Eq, Structural)]
pub struct CalendarDate {
    pub year: i32,
    pub month: u32,
    pub day: u32,
}

pub open spec fn is_leap_year(y: int) -> bool {
    (y % 4 == 0 && y % 100 != 0) || y % 400 == 0
}

pub open spec fn days_in_month(y: int, m: int) -> int {
    if m == 2 {
        if is_leap_year(y) { 29 } else { 28 }
    } else if m == 4 || m == 6 || m == 9 || m == 11 {
        30
    } else {
        31
    }
}

/// Days since 1970-01-01 of a proleptic Gregorian date.
pub open spec fn day_number(d: CalendarDate) -> int {
    let y = if d.month <= 2 { d.year - 1 } else { d.year as int };
    let era = y / 400;
    let yoe = y - era * 400;
    let mp = (d.month + 9) % 12;
    let doy = (153 * mp + 2) / 5 + d.day - 1;
    let doe = yoe * 365 + yoe / 4 - yoe / 100 + doy;
    era * 146097 + doe - 719468
}

impl CalendarDate {
    pub open spec fn valid(&self) -> bool {
        1 <= self.month <= 12 && 1 <= self.day <= days_in_month(self.year as int, self.month as int)
    }
}

/// Whether `a` falls on or before `b`.
pub open spec fn date_le(a: CalendarDate, b: CalendarDate) -> bool {
    a.year < b.year || (a.year == b.year && (a.month < b.month || (a.month == b.month
        && a.day <= b.day)))
}

/// Whether `a` falls on or before `b`.
pub fn date_le_exec(a: CalendarDate, b: CalendarDate) -> (r: bool)
    ensures
        r == date_le(a, b),
{
    a.year < b.year || (a.year == b.year && (a.month < b.month || (a.month == b.month && a.day
        <= b.day)))
}

/// `n` in `width` decimal digits, zero-padded, for `0 <= n < 10^width`.
pub open spec fn padded_digits(n: int, width: nat) -> Seq<char>
    decreases width,
{
    if width == 0 {
        Seq::empty()
    } else {
        padded_digits(n / 10, (width - 1) as nat).push(digit_char(n % 10))
    }
}

/// The text `YYYY-MM-DD` of a date with a four-digit year.
pub open spec fn iso_date_text(d: CalendarDate) -> Seq<char> {
    padded_digits(d.year as int, 4) + seq!['-'] + padded_digits(d.month as int, 2) + seq!['-'] + padded_digits(
        d.day as int,
        2,
    )
}

/// Whether `d` is a real date whose year has four digits.
pub open spec fn plain_date(d: CalendarDate) -> bool {
    d.valid() && 1000 <= d.year <= 9999
}

/// Whether `d` has the shape of a `YYYY-MM-DD` text: four-digit year, month
/// and day below one hundred. Such a date may still not exist.
pub open spec fn date_shaped(d: CalendarDate) -> bool {
    1000 <= d.year <= 9999 && d.month < 100 && d.day < 100
}

/// What chrono's `NaiveDate::parse_from_str` with `%Y-%m-%d` makes of `s`:
/// (year, month, day), or none when `s` does not parse.
pub uninterp spec fn ymd_of(s: Seq<char>) -> Option<(int, int, int)>;

/// The date that the text `s` denotes, as chrono reads it.
pub open spec fn date_of(s: Seq<char>) -> Option<CalendarDate> {
    match ymd_of(s) {
        Some(t) => Some(CalendarDate { year: t.0 as i32, month: t.1 as u32, day: t.2 as u32 }),
        None => None,
    }
}

/// Years that chrono's dates can hold.
pub open spec fn in_chrono_range(d: CalendarDate) -> bool {
    -262143 <= d.year <= 262142
}

/// Whether some date chrono can hold lies `days` days away from `d`.
pub open spec fn shift_exists(d: CalendarDate, days: int) -> bool {
    exists|e: CalendarDate| e.valid() && in_chrono_range(e) && #[trigger] day_number(e) == day_number(d) + days
}

/// Relies on chrono's `NaiveDate::parse_from_str` with the format `%Y-%m-%d`,
/// read back through `Datelike`: it yields only existing calendar dates, reads
/// `YYYY-MM-DD` text of an existing date as that date, rejects such text of a
/// date that does not exist, needs the `-` separators, and depends on the text
/// alone.
#[verifier::external_body]
fn parse_ymd(s: &str) -> (r: Option<CalendarDate>)
    ensures
        r matches Some(d) ==> d.valid() && in_chrono_range(d),
        r matches Some(d) ==> ymd_of(s@) == Some((d.year as int, d.month as int, d.day as int)),
        r is None ==> ymd_of(s@) is None,
        forall|d: CalendarDate| plain_date(d) && #[trigger] iso_date_text(d) == s@ ==> r == Some(d),
        forall|d: CalendarDate| date_shaped(d) && !d.valid() && #[trigger] iso_date_text(d) == s@ ==> r is None,
        r is Some ==> s@.contains('-'),
{
    match chrono::NaiveDate::parse_from_str(s, "%Y-%m-%d") {
        Ok(d) => Some(CalendarDate { year: d.year(), month: d.month(), day: d.day() }),
        Err(_) => None,
    }
}

/// Relies on chrono's `NaiveDate::from_ymd_opt` and `checked_add_signed` with
/// `TimeDelta::try_days`: the date a whole number of days away, which exists
/// exactly when chrono's date range (years -262143 to 262142) holds both dates.
#[verifier::external_body]
fn add_days(d: CalendarDate, days: i64) -> (r: Option<CalendarDate>)
    requires
        d.valid(),
    ensures
        r matches Some(e) ==> e.valid() && in_chrono_range(e) && day_number(e) == day_number(d) + days,
        r is None ==> !in_chrono_range(d) || !shift_exists(d, days as int),
        r is Some ==> in_chrono_range(d),
{
    let start = chrono::NaiveDate::from_ymd_opt(d.year, d.month, d.day)?;
    let shifted = start.checked_add_signed(chrono::TimeDelta::try_days(days)?)?;
    Some(CalendarDate { year: shifted.year(), month: shifted.month(), day: shifted.day() })
}

/// The message of a malformed date.
pub open spec fn malformed_date_message() -> Seq<char> {
    "malformed date, expected YYYY-MM-DD"@
}

/// Parses a business date written `YYYY-MM-DD`.
pub fn parse_date(s: &str) -> (r: Result<CalendarDate, String>)
    ensures
        r is Ok <==> date_of(s@) is Some,
        r matches Ok(d) ==> d.valid() && in_chrono_range(d) && date_of(s@) == Some(d),
        r matches Err(m) ==> m@ == malformed_date_message(),
        forall|d: CalendarDate| plain_date(d) && #[trigger] iso_date_text(d) == s@ ==> r == Ok::<CalendarDate, String>(d),
        forall|d: CalendarDate| date_shaped(d) && !d.valid() && #[trigger] iso_date_text(d) == s@ ==> r is Err,
        !s@.contains('-') ==> r is Err,
{
    match parse_ymd(s) {
        Some(d) => Ok(d),
        None => Err(crate::text::string_of(&crate::text::chars_of("malformed date, expected YYYY-MM-DD"))),
    }
}

/// The date `days` calendar days away from `d`, forward or back; an error
/// exactly when chrono's date range does not hold it.
pub fn shift_date(d: CalendarDate, days: i64) -> (r: Result<CalendarDate, String>)
    requires
        d.valid(),
    ensures
        r matches Ok(e) ==> e.valid() && in_chrono_range(e) && day_number(e) == day_number(d) + days,
        r is Ok <==> in_chrono_range(d) && shift_exists(d, days as int),
{
    match add_days(d, days) {
        Some(e) => Ok(e),
        None => Err(crate::text::string_of(&crate::text::chars_of("date out of range"))),
    }
}

/// Day numbers of dates in chrono's range stay within a billion of the epoch.
pub proof fn lemma_day_number_bound(e: CalendarDate)
    requires
        e.valid(),
        in_chrono_range(e),
    ensures
        -1000000000 <= day_number(e) <= 1000000000,
{
}

} // verus!
