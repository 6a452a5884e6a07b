//! Calendar dates.
use chrono::{Datelike, NaiveDate, TimeZone};
use vstd::prelude::*;
use vstd::utf8::*;

use crate::text;
use crate::cell::common::{now_epoch_ms, stamp};
use crate::color::{digit, digit_text};
use crate::text::utf8;

verus! {

/// A date of the Gregorian calendar.
#[derive(Clone, Copy, Debug, PartialEq, Eq, Structural)]
pub struct Date {
    pub year: i32,
    pub month: u32,
    pub day: u32,
}

/// The first year that has dates.
pub const FIRST_YEAR: i32 = -262143;

/// The last year that has dates.
pub const LAST_YEAR: i32 = 262142;

/// A leap year.
pub open spec fn is_leap(year: int) -> bool {
    year % 4 == 0 && (year % 100 != 0 || year % 400 == 0)
}

/// The days of a month.
pub open spec fn days_of(year: int, month: int) -> int {
    if month == 2 {
        if is_leap(year) {
            29
        } else {
            28
        }
    } else if month == 4 || month == 6 || month == 9 || month == 11 {
        30
    } else {
        31
    }
}

/// There is such a date.
pub open spec fn is_date(year: int, month: int, day: int) -> bool {
    FIRST_YEAR <= year <= LAST_YEAR && 1 <= month <= 12 && 1 <= day <= days_of(year, month)
}

/// The dates of the calendar in order.
pub open spec fn is_before(a: Date, b: Date) -> bool {
    a.year < b.year || a.year == b.year && (a.month < b.month || a.month == b.month && a.day
        < b.day)
}

impl Date {
    /// There is such a date.
    pub open spec fn wf(self) -> bool {
        is_date(self.year as int, self.month as int, self.day as int)
    }

    /// Which day it is, counted from 1 January 1970 on.
    pub open spec fn number(self) -> int {
        year_days(self.year as int) + month_days(self.year as int, self.month as int) + self.day
            - 1
    }

    /// There is a date so many days behind this one, or in front of it.
    pub open spec fn reaches(self, days: int) -> bool {
        self.wf() && FIRST_DAY <= self.number() + days <= LAST_DAY
    }

    /// The date so many days behind this one, or in front of it.
    pub open spec fn shifted(self, days: int) -> Date {
        choose|d: Date| d.wf() && #[trigger] d.number() == self.number() + days
    }

    /// The day of the week, counted from Monday. 1 January 1970 was a Thursday.
    pub open spec fn weekday_model(self) -> int {
        (self.number() + 3) % 7
    }
}

// ---------------------------------------------------------------------------
// The calendar
// ---------------------------------------------------------------------------

/// The days from 1 January 1970 up to that of another year.
pub open spec fn year_days(year: int) -> int {
    365 * (year - 1970) + (year - 1) / 4 - (year - 1) / 100 + (year - 1) / 400 - 477
}

/// The days of a year in front of a month.
pub open spec fn month_days(year: int, month: int) -> int
    decreases month,
{
    if month <= 1 {
        0
    } else {
        month_days(year, month - 1) + days_of(year, month - 1)
    }
}

/// The number of the first date.
pub const FIRST_DAY: i64 = -96_465_292;

/// The number of the last date.
pub const LAST_DAY: i64 = 95_026_236;

proof fn lemma_years(a: int, b: int)
    requires
        a < b,
    ensures
        year_days(a) + 365 + (if is_leap(a) {
            1int
        } else {
            0
        }) <= year_days(b),
    decreases b - a,
{
    if a + 1 < b {
        lemma_years(a + 1, b);
    }
}

proof fn lemma_months(year: int, a: int, b: int)
    requires
        1 <= a < b,
    ensures
        month_days(year, a) + days_of(year, a) <= month_days(year, b),
    decreases b - a,
{
    if a + 1 < b {
        lemma_months(year, a, b - 1);
    }
}

/// Dates are in the order of their numbers, and no two share one.
pub proof fn dates_are_numbered_in_order(a: Date, b: Date)
    requires
        a.wf(),
        b.wf(),
    ensures
        is_before(a, b) == (a.number() < b.number()),
        a.number() == b.number() ==> a == b,
{
    lemma_number_grows(a, b);
    lemma_number_grows(b, a);
}

proof fn lemma_number_grows(a: Date, b: Date)
    requires
        a.wf(),
        b.wf(),
    ensures
        is_before(a, b) ==> a.number() < b.number(),
{
    if a.year < b.year {
        lemma_years(a.year as int, b.year as int);
        lemma_whole_year(a.year as int);
        if a.month < 12 {
            lemma_months(a.year as int, a.month as int, 12);
        }
        if b.month > 1 {
            lemma_months(b.year as int, 1, b.month as int);
        }
    } else if a.year == b.year && a.month < b.month {
        lemma_months(a.year as int, a.month as int, b.month as int);
    }
}

proof fn lemma_whole_year(year: int)
    ensures
        month_days(year, 1) == 0,
        month_days(year, 12) + 31 == 365 + (if is_leap(year) {
            1int
        } else {
            0
        }),
{
    reveal_with_fuel(month_days, 13);
}

proof fn lemma_ends()
    ensures
        ({
            let first = Date { year: FIRST_YEAR, month: 1, day: 1 };
            let last = Date { year: LAST_YEAR, month: 12, day: 31 };
            &&& first.wf() && last.wf()
            &&& first.number() == FIRST_DAY
            &&& last.number() == LAST_DAY
        }),
{
    lemma_whole_year(FIRST_YEAR as int);
    lemma_whole_year(LAST_YEAR as int);
}

/// The numbers of dates are those from `FIRST_DAY` to `LAST_DAY`.
pub proof fn lemma_number_bounds(d: Date)
    requires
        d.wf(),
    ensures
        FIRST_DAY <= d.number() <= LAST_DAY,
{
    let first = Date { year: FIRST_YEAR, month: 1, day: 1 };
    let last = Date { year: LAST_YEAR, month: 12, day: 31 };
    lemma_ends();
    dates_are_numbered_in_order(first, d);
    dates_are_numbered_in_order(d, last);
}

/// The day behind another in the calendar has the next number.
pub proof fn days_follow_each_other(d: Date)
    requires
        d.wf(),
        d.number() < LAST_DAY,
    ensures
        ({
            let y = d.year as int;
            let m = d.month as int;
            let next = if (d.day as int) < days_of(y, m) {
                Date { day: (d.day + 1) as u32, ..d }
            } else if m < 12 {
                Date { month: (d.month + 1) as u32, day: 1, ..d }
            } else {
                Date { year: (d.year + 1) as i32, month: 1, day: 1 }
            };
            next.wf() && next.number() == d.number() + 1
        }),
{
    lemma_ends();
    lemma_whole_year(d.year as int);
    lemma_whole_year(d.year + 1);
}

/// Every number from that of the first date to that of the last is that of a date.
pub proof fn every_number_has_a_date(n: int) -> (d: Date)
    requires
        FIRST_DAY <= n <= LAST_DAY,
    ensures
        d.wf(),
        d.number() == n,
    decreases n - FIRST_DAY,
{
    lemma_ends();
    if n == FIRST_DAY {
        Date { year: FIRST_YEAR, month: 1, day: 1 }
    } else {
        let d = every_number_has_a_date(n - 1);
        days_follow_each_other(d);
        if (d.day as int) < days_of(d.year as int, d.month as int) {
            Date { day: (d.day + 1) as u32, ..d }
        } else if d.month < 12 {
            Date { month: (d.month + 1) as u32, day: 1, ..d }
        } else {
            Date { year: (d.year + 1) as i32, month: 1, day: 1 }
        }
    }
}

/// A date that is so many days away is that many days away.
pub proof fn shifted_dates_are_that_far_away(d: Date, days: int)
    requires
        d.reaches(days),
    ensures
        d.shifted(days).wf(),
        d.shifted(days).number() == d.number() + days,
{
    let there = every_number_has_a_date(d.number() + days);
    assert(there.wf() && there.number() == d.number() + days);
}

/// `NaiveDate::from_ymd_opt`: whether there is such a date.
#[verifier::external_body]
fn date_exists(year: i32, month: u32, day: u32) -> (r: bool)
    ensures
        r == is_date(year as int, month as int, day as int),
{
    NaiveDate::from_ymd_opt(year, month, day).is_some()
}

/// `NaiveDate::checked_add_signed`: the date so many days behind (or, below zero, in
/// front of) another, where the calendar of `chrono` has it.
#[verifier::external_body]
fn add_days(date: Date, days: i64) -> (r: Option<Date>)
    requires
        -1_000_000_000 <= days <= 1_000_000_000,
    ensures
        r is Some == date.reaches(days as int),
        r matches Some(d) ==> d.wf() && d.number() == date.number() + days,
{
    NaiveDate::from_ymd_opt(date.year, date.month, date.day)?
        .checked_add_signed(chrono::Duration::days(days))
        .map(|d| Date { year: d.year(), month: d.month(), day: d.day() })
}

/// `Datelike::weekday` and `Weekday::num_days_from_monday`: the day of the week,
/// counted from Monday.
#[verifier::external_body]
fn days_from_monday(date: Date) -> (r: Option<u32>)
    ensures
        r is Some == date.wf(),
        r matches Some(n) ==> n == date.weekday_model(),
{
    NaiveDate::from_ymd_opt(date.year, date.month, date.day)
        .map(|d| d.weekday().num_days_from_monday())
}

/// The first moment that has a date in the calendar of `chrono`, in milliseconds from
/// 1970 on.
pub const FIRST_MOMENT: i64 = -8_334_601_228_800_000;

/// The last moment that has a date.
pub const LAST_MOMENT: i64 = 8_210_266_876_799_999;

/// How long a day is, in milliseconds. No clock is a day away from another.
pub const DAY_MILLIS: i64 = 86_400_000;

/// The date is that of the moment somewhere: the day before it, its own or the day
/// after it by the clock of Greenwich.
pub open spec fn near_moment(d: Date, ms: int) -> bool {
    -1 <= d.number() - ms / (DAY_MILLIS as int) <= 1
}

/// Some machine may give the moment that date: one near it, or the first of January
/// 1970 where the calendar does not reach it.
pub open spec fn may_be_dated(d: Date, ms: int) -> bool {
    if FIRST_MOMENT <= ms <= LAST_MOMENT {
        near_moment(d, ms)
    } else {
        d == Date { year: 1970, month: 1, day: 1 }
    }
}

/// The moment has a date wherever the machine is, or has none anywhere.
pub open spec fn moment_settled(ms: i64) -> bool {
    ||| ms < FIRST_MOMENT
    ||| FIRST_MOMENT + DAY_MILLIS <= ms <= LAST_MOMENT - DAY_MILLIS
    ||| ms > LAST_MOMENT
}

/// `Local`'s `timestamp_millis_opt`: the date at a moment where the machine is, for
/// moments that the calendar of `chrono` reaches. Which date it is depends on the
/// machine's time zone; all that is said is that no zone is a day away.
#[verifier::external_body]
fn local_date(ms: i64) -> (r: Option<Date>)
    requires
        moment_settled(ms),
    ensures
        r is Some == (FIRST_MOMENT <= ms <= LAST_MOMENT),
        r matches Some(d) ==> d.wf() && near_moment(d, ms as int),
{
    chrono::Local
        .timestamp_millis_opt(ms)
        .single()
        .map(|t| t.date_naive())
        .map(|d| Date { year: d.year(), month: d.month(), day: d.day() })
}

impl Date {
    /// The date, where there is such a one.
    pub fn from_ymd_opt(year: i32, month: u32, day: u32) -> (d: Option<Date>)
        ensures
            d == (if is_date(year as int, month as int, day as int) {
                Some(Date { year, month, day })
            } else {
                None
            }),
    {
        if date_exists(year, month, day) {
            Some(Date { year, month, day })
        } else {
            None
        }
    }

    /// The date so many days behind this one, or in front of it.
    pub fn plus(self, days: i64) -> (d: Date)
        requires
            self.reaches(days as int),
        ensures
            d == self.shifted(days as int),
            d.wf(),
            d.number() == self.number() + days,
    {
        proof {
            lemma_number_bounds(self);
        }
        match add_days(self, days) {
            Some(d) => {
                proof {
                    dates_are_numbered_in_order(d, self.shifted(days as int));
                }
                d
            },
            None => self,
        }
    }

    /// The day of the week, counted from Monday.
    pub fn weekday(self) -> (n: u32)
        requires
            self.wf(),
        ensures
            n == self.weekday_model(),
            n < 7,
    {
        match days_from_monday(self) {
            Some(n) => n,
            None => 0,
        }
    }

    /// Whether this date comes before another.
    pub fn before(self, other: Date) -> (r: bool)
        ensures
            r == is_before(self, other),
    {
        self.year < other.year || self.year == other.year && (self.month < other.month
            || self.month == other.month && self.day < other.day)
    }
}

/// The date at a moment, where the machine is; the first of January 1970 where it
/// has none.
pub fn local_date_for_ms(ms: i64) -> (d: Date)
    requires
        moment_settled(ms),
    ensures
        d.wf(),
        may_be_dated(d, ms as int),
{
    match local_date(ms) {
        Some(d) => d,
        None => Date { year: 1970, month: 1, day: 1 },
    }
}

/// The year of a moment, where the machine is; within a day of either end of the calendar,
/// where a clock may leave it, the year at that end.
pub fn local_year_for_ms(ms: i64) -> (year: i32)
    ensures
        exists|d: Date| d.wf() && #[trigger] may_be_dated(d, ms as int) && year == d.year,
{
    let d = if ms >= FIRST_MOMENT && ms < FIRST_MOMENT + DAY_MILLIS {
        Date { year: FIRST_YEAR, month: 1, day: 1 }
    } else if ms > LAST_MOMENT - DAY_MILLIS && ms <= LAST_MOMENT {
        Date { year: LAST_YEAR, month: 12, day: 31 }
    } else {
        local_date_for_ms(ms)
    };
    proof {
        lemma_ends();
        assert(may_be_dated(d, ms as int));
    }
    d.year
}

/// The current year, where the machine is: that of whatever moment the clock reads.
pub fn current_year() -> (year: i32)
    ensures
        FIRST_YEAR <= year <= LAST_YEAR,
        exists|since: Option<u128>, d: Date|
            d.wf() && #[trigger] may_be_dated(d, stamp(since) as int) && year == d.year,
{
    let ms: i64 = now_epoch_ms();
    local_year_for_ms(ms)
}

// ---------------------------------------------------------------------------
// Writing dates
// ---------------------------------------------------------------------------

/// The decimal digits of `n`, at least `width` of them.
pub open spec fn padded(n: int, width: int) -> Seq<u8>
    decreases n, width,
{
    if n < 0 || n < 10 && width <= 1 {
        seq![digit(n)]
    } else if n < 10 {
        padded(0, width - 1).push(digit(n))
    } else {
        padded(n / 10, width - 1).push(digit(n % 10))
    }
}

/// A year: four digits, or more with a sign in front where it is not one of four
/// digits.
pub open spec fn year_text(year: int) -> Seq<u8> {
    if 0 <= year <= 9999 {
        padded(year, 4)
    } else if year < 0 {
        seq![45u8] + padded(-year, 4)
    } else {
        seq![43u8] + padded(year, 4)
    }
}

/// A date as `year-month-day`.
pub open spec fn date_text(d: Date) -> Seq<u8> {
    year_text(d.year as int) + seq![45u8] + padded(d.month as int, 2) + seq![45u8] + padded(
        d.day as int,
        2,
    )
}

fn push_padded(out: &mut String, n: u32, width: u32)
    ensures
        utf8(final(out)@) == utf8(old(out)@) + padded(n as int, width as int),
    decreases n, width,
{
    let ghost led = utf8(out@);
    if n < 10 && width <= 1 {
        text::push_str(out, digit_text(n as u8));
    } else if n < 10 {
        push_padded(out, 0, width - 1);
        text::push_str(out, digit_text(n as u8));
        assert(utf8(out@) =~= led + padded(n as int, width as int));
    } else {
        let less: u32 = if width > 0 {
            width - 1
        } else {
            0
        };
        proof {
            lemma_padded_least(n as int / 10, width - 1);
        }
        push_padded(out, n / 10, less);
        text::push_str(out, digit_text((n % 10) as u8));
        assert(utf8(out@) =~= led + padded(n as int, width as int));
    }
}

proof fn lemma_padded_least(n: int, width: int)
    ensures
        width <= 1 ==> padded(n, width) == padded(n, 0),
    decreases n,
{
    if n >= 10 {
        lemma_padded_least(n / 10, width - 1);
        lemma_padded_least(n / 10, -1);
    }
}

impl Date {
    /// The date as `year-month-day`.
    pub fn to_iso(&self) -> (s: String)
        requires
            self.wf(),
        ensures
            utf8(s@) == date_text(*self),
    {
        let mut out = String::new();
        proof {
            assert(utf8(out@) =~= Seq::<u8>::empty());
            reveal_strlit("-");
            reveal_strlit("+");
            is_ascii_chars_encode_utf8("-"@);
            is_ascii_chars_encode_utf8("+"@);
            assert(utf8("-"@) =~= seq![45u8]);
            assert(utf8("+"@) =~= seq![43u8]);
        }
        if self.year < 0 {
            text::push_str(&mut out, "-");
            push_padded(&mut out, (-self.year) as u32, 4);
        } else if self.year > 9999 {
            text::push_str(&mut out, "+");
            push_padded(&mut out, self.year as u32, 4);
        } else {
            push_padded(&mut out, self.year as u32, 4);
        }
        assert(utf8(out@) =~= year_text(self.year as int));
        text::push_str(&mut out, "-");
        push_padded(&mut out, self.month, 2);
        text::push_str(&mut out, "-");
        push_padded(&mut out, self.day, 2);
        out
    }
}

} // verus!
