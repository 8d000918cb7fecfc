//! Calendar dates of the proleptic Gregorian calendar.
//!
//! A `Date` holds its year, month and day as plain integers. Every date the
//! library hands out satisfies `wf`; the arithmetic that needs the calendar
//! (day offsets, weekdays, ISO weeks, text formats) is done by `chrono`.
use crate::text::{ascii, nat_text, no_char, no_ws};
use chrono::Datelike;
use vstd::prelude::*;

verus! {

/// First year that a date can have.
pub const MIN_YEAR: i32 = -262143;

/// Last year that a date can have.
pub const MAX_YEAR: i32 = 262142;

pub open spec fn is_leap_year(y: int) -> bool {
    y % 4 == 0 && (y % 100 != 0 || y % 400 == 0)
}

pub open spec fn year_length(y: int) -> int {
    if is_leap_year(y) {
        366
    } else {
        365
    }
}

pub open spec fn days_in_month(y: int, m: int) -> int {
    if m == 2 {
        if is_leap_year(y) {
            29
        } else {
            28
        }
    } else if m == 4 || m == 6 || m == 9 || m == 11 {
        30
    } else {
        31
    }
}

/// Days of `y` that lie before the first of month `m`.
pub open spec fn days_before_month(y: int, m: int) -> int
    decreases m,
{
    if m <= 1 {
        0
    } else {
        days_before_month(y, m - 1) + days_in_month(y, m - 1)
    }
}

/// Days from 0001-01-01 (exclusive of it) up to the first day of year `y`.
pub open spec fn days_before_year(y: int) -> int {
    let p = y - 1;
    365 * p + p / 4 - p / 100 + p / 400
}

/// The number of the day counted in the proleptic Gregorian calendar, with
/// 0001-01-01 as day 1.
pub open spec fn day_number(y: int, m: int, d: int) -> int {
    days_before_year(y) + days_before_month(y, m) + d
}

pub open spec fn valid_ymd(y: int, m: int, d: int) -> bool {
    &&& MIN_YEAR <= y <= MAX_YEAR
    &&& 1 <= m <= 12
    &&& 1 <= d <= days_in_month(y, m)
}

/// Day number of the first representable date.
pub open spec fn first_day_number() -> int {
    day_number(MIN_YEAR as int, 1, 1)
}

/// Day number of the last representable date.
pub open spec fn last_day_number() -> int {
    day_number(MAX_YEAR as int, 12, 31)
}

#[derive(Clone, Copy, PartialEq, Eq, Structural, Debug)]
pub struct Date {
    pub year: i32,
    pub month: u32,
    pub day: u32,
}

/// A day of the week.
#[derive(Clone, Copy, PartialEq, Eq, Structural, Debug)]
pub enum Weekday {
    Mon,
    Tue,
    Wed,
    Thu,
    Fri,
    Sat,
    Sun,
}

impl Weekday {
    /// Days since Monday: Monday is 0, Sunday is 6.
    pub open spec fn index(self) -> int {
        match self {
            Weekday::Mon => 0,
            Weekday::Tue => 1,
            Weekday::Wed => 2,
            Weekday::Thu => 3,
            Weekday::Fri => 4,
            Weekday::Sat => 5,
            Weekday::Sun => 6,
        }
    }

    pub open spec fn from_index(i: int) -> Weekday {
        if i == 0 {
            Weekday::Mon
        } else if i == 1 {
            Weekday::Tue
        } else if i == 2 {
            Weekday::Wed
        } else if i == 3 {
            Weekday::Thu
        } else if i == 4 {
            Weekday::Fri
        } else if i == 5 {
            Weekday::Sat
        } else {
            Weekday::Sun
        }
    }

    /// Days since Monday.
    pub fn num_days_from_monday(&self) -> (r: u32)
        ensures
            r == self.index(),
    {
        match self {
            Weekday::Mon => 0,
            Weekday::Tue => 1,
            Weekday::Wed => 2,
            Weekday::Thu => 3,
            Weekday::Fri => 4,
            Weekday::Sat => 5,
            Weekday::Sun => 6,
        }
    }

    pub fn same(&self, other: &Weekday) -> (r: bool)
        ensures
            r == (*self == *other),
    {
        self.num_days_from_monday() == other.num_days_from_monday()
    }
}

impl Date {
    pub open spec fn wf(self) -> bool {
        valid_ymd(self.year as int, self.month as int, self.day as int)
    }

    /// Position of the date on the day line.
    pub open spec fn num(self) -> int {
        day_number(self.year as int, self.month as int, self.day as int)
    }

    pub open spec fn weekday_index(self) -> int {
        (self.num() - 1) % 7
    }

    pub open spec fn spec_weekday(self) -> Weekday {
        Weekday::from_index(self.weekday_index())
    }

    /// Strictly earlier than `other`.
    pub fn before(&self, other: &Date) -> (r: bool)
        requires
            self.wf(),
            other.wf(),
        ensures
            r == (self.num() < other.num()),
    {
        proof {
            lemma_num_order(*self, *other);
            lemma_num_order(*other, *self);
        }
        self.year < other.year || (self.year == other.year && (self.month < other.month || (
        self.month == other.month && self.day < other.day)))
    }

    pub fn same_day(&self, other: &Date) -> (r: bool)
        requires
            self.wf(),
            other.wf(),
        ensures
            r == (self.num() == other.num()),
            r == (*self == *other),
    {
        proof {
            lemma_num_injective(*self, *other);
        }
        self.year == other.year && self.month == other.month && self.day == other.day
    }

    pub fn year(&self) -> (r: i32)
        ensures
            r == self.year,
    {
        self.year
    }

    pub fn month(&self) -> (r: u32)
        ensures
            r == self.month,
    {
        self.month
    }

    pub fn day(&self) -> (r: u32)
        ensures
            r == self.day,
    {
        self.day
    }

    /// The day of the week.
    pub fn weekday(&self) -> (r: Weekday)
        requires
            self.wf(),
        ensures
            r == self.spec_weekday(),
            r.index() == self.weekday_index(),
    {
        chrono_weekday(self)
    }

    /// Constructs a date from a year, month and day, if they name an existing
    /// date in the representable range.
    pub fn from_ymd_opt(year: i32, month: u32, day: u32) -> (r: Option<Date>)
        ensures
            r == (if valid_ymd(year as int, month as int, day as int) {
                Some(Date { year, month, day })
            } else {
                None
            }),
    {
        chrono_from_ymd(year, month, day)
    }

    /// The next calendar day, if representable.
    pub fn succ_opt(&self) -> (r: Option<Date>)
        requires
            self.wf(),
        ensures
            r is Some <==> self.num() + 1 <= last_day_number(),
            r matches Some(n) ==> n.wf() && n.num() == self.num() + 1,
    {
        chrono_succ(self)
    }

    /// The previous calendar day, if representable.
    pub fn pred_opt(&self) -> (r: Option<Date>)
        requires
            self.wf(),
        ensures
            r is Some <==> first_day_number() <= self.num() - 1,
            r matches Some(n) ==> n.wf() && n.num() == self.num() - 1,
    {
        chrono_pred(self)
    }
}

// ---- calendar facts ----

pub proof fn lemma_days_before_month_step(y: int, m: int)
    requires
        1 <= m,
    ensures
        days_before_month(y, m + 1) == days_before_month(y, m) + days_in_month(y, m),
{
}

pub proof fn lemma_days_before_month_monotone(y: int, m1: int, m2: int)
    requires
        1 <= m1 <= m2,
    ensures
        days_before_month(y, m1) <= days_before_month(y, m2),
        m1 < m2 ==> days_before_month(y, m1) + days_in_month(y, m1) <= days_before_month(y, m2),
    decreases m2 - m1,
{
    if m1 < m2 {
        lemma_days_before_month_monotone(y, m1, m2 - 1);
        lemma_days_before_month_step(y, m2 - 1);
    }
}

pub proof fn lemma_days_before_month_values(y: int)
    ensures
        days_before_month(y, 1) == 0,
        days_before_month(y, 13) == year_length(y),
{
    reveal_with_fuel(days_before_month, 13);
}

pub proof fn lemma_days_before_year_step(y: int)
    ensures
        days_before_year(y + 1) == days_before_year(y) + year_length(y),
{
    let p = y - 1;
    lemma_div_step(p, 4);
    lemma_div_step(p, 100);
    lemma_div_step(p, 400);
    assert(y % 100 == 0 ==> y % 4 == 0) by {
        if y % 100 == 0 {
            vstd::arithmetic::div_mod::lemma_fundamental_div_mod(y, 100);
            assert(y == 100 * (y / 100));
            assert(y == 4 * (25 * (y / 100)));
            vstd::arithmetic::div_mod::lemma_mod_multiples_basic(25 * (y / 100), 4);
        }
    }
    assert(y % 400 == 0 ==> y % 100 == 0) by {
        if y % 400 == 0 {
            vstd::arithmetic::div_mod::lemma_fundamental_div_mod(y, 400);
            assert(y == 100 * (4 * (y / 400)));
            vstd::arithmetic::div_mod::lemma_mod_multiples_basic(4 * (y / 400), 100);
        }
    }
}

proof fn lemma_div_step(p: int, k: int)
    requires
        k > 0,
    ensures
        (p + 1) / k - p / k == (if (p + 1) % k == 0 { 1int } else { 0 }),
{
    vstd::arithmetic::div_mod::lemma_fundamental_div_mod(p, k);
    vstd::arithmetic::div_mod::lemma_fundamental_div_mod(p + 1, k);
    vstd::arithmetic::div_mod::lemma_mod_bound(p, k);
    vstd::arithmetic::div_mod::lemma_mod_bound(p + 1, k);
    let q0 = p / k;
    let r0 = p % k;
    let q1 = (p + 1) / k;
    let r1 = (p + 1) % k;
    assert(q1 - q0 == (if r1 == 0 { 1int } else { 0 })) by (nonlinear_arith)
        requires
            p == k * q0 + r0,
            p + 1 == k * q1 + r1,
            0 <= r0 < k,
            0 <= r1 < k,
    ;
}

pub proof fn lemma_days_before_year_monotone(y1: int, y2: int)
    requires
        y1 < y2,
    ensures
        days_before_year(y1) + year_length(y1) <= days_before_year(y2),
    decreases y2 - y1,
{
    lemma_days_before_year_step(y1);
    if y1 + 1 < y2 {
        lemma_days_before_year_monotone(y1 + 1, y2);
    }
}

/// A valid date lies inside its year.
pub proof fn lemma_day_in_year(d: Date)
    requires
        d.wf(),
    ensures
        days_before_year(d.year as int) + 1 <= d.num(),
        d.num() <= days_before_year(d.year as int) + year_length(d.year as int),
{
    lemma_days_before_month_values(d.year as int);
    lemma_days_before_month_monotone(d.year as int, 1, d.month as int);
    if d.month < 12 {
        lemma_days_before_month_monotone(d.year as int, d.month as int, 13);
    } else {
        lemma_days_before_month_step(d.year as int, 12);
    }
}

/// Chronological order agrees with the order of (year, month, day).
pub proof fn lemma_num_order(a: Date, b: Date)
    requires
        a.wf(),
        b.wf(),
    ensures
        (a.year < b.year || (a.year == b.year && (a.month < b.month || (a.month == b.month
            && a.day < b.day)))) ==> a.num() < b.num(),
{
    if a.year < b.year {
        lemma_day_in_year(a);
        lemma_day_in_year(b);
        lemma_days_before_year_monotone(a.year as int, b.year as int);
    } else if a.year == b.year && a.month < b.month {
        lemma_days_before_month_monotone(a.year as int, a.month as int, b.month as int);
    }
}

/// Two valid dates with the same number are the same date.
pub proof fn lemma_num_injective(a: Date, b: Date)
    requires
        a.wf(),
        b.wf(),
    ensures
        a.num() == b.num() <==> a == b,
{
    lemma_num_order(a, b);
    lemma_num_order(b, a);
}

/// A valid date lies between the first and the last representable date.
pub proof fn lemma_num_in_range(a: Date)
    requires
        a.wf(),
    ensures
        first_day_number() <= a.num() <= last_day_number(),
{
    let lo = Date { year: MIN_YEAR, month: 1, day: 1 };
    let hi = Date { year: MAX_YEAR, month: 12, day: 31 };
    lemma_num_order(lo, a);
    lemma_num_order(a, hi);
}

/// The representable day numbers lie well within `i32`.
pub proof fn lemma_range_bounds()
    ensures
        -100_000_000 < first_day_number() < 0,
        0 < last_day_number() < 100_000_000,
{
    assert(days_before_year(MIN_YEAR as int) == -95_746_130);
    assert(days_before_year(MAX_YEAR as int) == 95_745_034);
    reveal_with_fuel(days_before_month, 12);
    assert(days_before_month(MAX_YEAR as int, 12) == 334);
}

// ---- chrono ----

/// Wraps `chrono::NaiveDate::from_ymd_opt`: a date exists exactly when the
/// month is 1 to 12, the day exists in that month, and the year lies within
/// chrono's range (`MIN_YEAR` to `MAX_YEAR`); the date keeps the given fields.
#[verifier::external_body]
fn chrono_from_ymd(year: i32, month: u32, day: u32) -> (r: Option<Date>)
    ensures
        r == (if valid_ymd(year as int, month as int, day as int) {
            Some(Date { year, month, day })
        } else {
            None
        }),
{
    chrono::NaiveDate::from_ymd_opt(year, month, day).map(
        |n| Date { year: n.year(), month: n.month(), day: n.day() },
    )
}

/// Wraps `chrono::NaiveDate::from_yo_opt`: the `ordinal`-th day of `year`
/// (1 is January 1st), when the year is in range and has that many days.
#[verifier::external_body]
pub(crate) fn chrono_from_yo(year: i32, ordinal: u32) -> (r: Option<Date>)
    ensures
        r is Some <==> (MIN_YEAR <= year <= MAX_YEAR && 1 <= ordinal <= year_length(year as int)),
        r matches Some(d) ==> d.wf() && d.year == year && d.num() == days_before_year(year as int)
            + ordinal,
{
    chrono::NaiveDate::from_yo_opt(year, ordinal).map(
        |n| Date { year: n.year(), month: n.month(), day: n.day() },
    )
}

/// Wraps `chrono::NaiveDate::checked_add_days`: the date `n` days later,
/// `None` when it falls after the last representable date.
#[verifier::external_body]
pub(crate) fn chrono_add_days(date: &Date, n: u64) -> (r: Option<Date>)
    requires
        date.wf(),
    ensures
        r is Some <==> date.num() + n <= last_day_number(),
        r matches Some(d) ==> d.wf() && d.num() == date.num() + n,
{
    let nd = chrono::NaiveDate::from_ymd_opt(date.year, date.month, date.day).unwrap();
    nd.checked_add_days(chrono::Days::new(n)).map(
        |x| Date { year: x.year(), month: x.month(), day: x.day() },
    )
}

/// Wraps `chrono::NaiveDate::checked_sub_days`: the date `n` days earlier,
/// `None` when it falls before the first representable date.
#[verifier::external_body]
pub(crate) fn chrono_sub_days(date: &Date, n: u64) -> (r: Option<Date>)
    requires
        date.wf(),
    ensures
        r is Some <==> first_day_number() <= date.num() - n,
        r matches Some(d) ==> d.wf() && d.num() == date.num() - n,
{
    let nd = chrono::NaiveDate::from_ymd_opt(date.year, date.month, date.day).unwrap();
    nd.checked_sub_days(chrono::Days::new(n)).map(
        |x| Date { year: x.year(), month: x.month(), day: x.day() },
    )
}

/// Wraps `chrono::NaiveDate::succ_opt`: the next calendar date, `None` after
/// the last representable date.
#[verifier::external_body]
fn chrono_succ(date: &Date) -> (r: Option<Date>)
    requires
        date.wf(),
    ensures
        r is Some <==> date.num() + 1 <= last_day_number(),
        r matches Some(d) ==> d.wf() && d.num() == date.num() + 1,
{
    let nd = chrono::NaiveDate::from_ymd_opt(date.year, date.month, date.day).unwrap();
    nd.succ_opt().map(|x| Date { year: x.year(), month: x.month(), day: x.day() })
}

/// Wraps `chrono::NaiveDate::pred_opt`: the previous calendar date, `None`
/// before the first representable date.
#[verifier::external_body]
fn chrono_pred(date: &Date) -> (r: Option<Date>)
    requires
        date.wf(),
    ensures
        r is Some <==> first_day_number() <= date.num() - 1,
        r matches Some(d) ==> d.wf() && d.num() == date.num() - 1,
{
    let nd = chrono::NaiveDate::from_ymd_opt(date.year, date.month, date.day).unwrap();
    nd.pred_opt().map(|x| Date { year: x.year(), month: x.month(), day: x.day() })
}

/// Wraps `chrono::Datelike::weekday`: 0001-01-01 (day number 1) is a Monday,
/// and the weekday advances by one each day.
#[verifier::external_body]
fn chrono_weekday(date: &Date) -> (r: Weekday)
    requires
        date.wf(),
    ensures
        r.index() == (date.num() - 1) % 7,
{
    let nd = chrono::NaiveDate::from_ymd_opt(date.year, date.month, date.day).unwrap();
    match nd.weekday() {
        chrono::Weekday::Mon => Weekday::Mon,
        chrono::Weekday::Tue => Weekday::Tue,
        chrono::Weekday::Wed => Weekday::Wed,
        chrono::Weekday::Thu => Weekday::Thu,
        chrono::Weekday::Fri => Weekday::Fri,
        chrono::Weekday::Sat => Weekday::Sat,
        chrono::Weekday::Sun => Weekday::Sun,
    }
}

// ---- text forms ----

pub open spec fn digit(n: int) -> char {
    (n + ('0' as int)) as char
}

/// Two decimal digits, zero-padded.
pub open spec fn two_digits(n: int) -> Seq<char> {
    seq![digit(n / 10), digit(n % 10)]
}

/// Four decimal digits, zero-padded.
pub open spec fn four_digits(n: int) -> Seq<char> {
    seq![digit(n / 1000), digit((n / 100) % 10), digit((n / 10) % 10), digit(n % 10)]
}

/// `YYYY-MM-DD`.
pub open spec fn ymd_dash_text(y: int, m: int, d: int) -> Seq<char> {
    four_digits(y) + seq!['-'] + two_digits(m) + seq!['-'] + two_digits(d)
}

/// `YYYYMMDD`.
pub open spec fn ymd_compact_text(y: int, m: int, d: int) -> Seq<char> {
    four_digits(y) + two_digits(m) + two_digits(d)
}

/// What `chrono::NaiveDate::parse_from_str` reads from `s` with the format
/// `fmt`, as (year, month, day).
pub uninterp spec fn chrono_parse_result(s: Seq<char>, fmt: Seq<char>) -> Option<(int, int, int)>;

/// The year as chrono's `%Y` writes it: four zero-padded digits for the
/// years 0 to 9999; otherwise a sign, then the digits of the magnitude,
/// zero-padded to four.
pub open spec fn year_text(y: int) -> Seq<char> {
    if 0 <= y <= 9999 {
        four_digits(y)
    } else {
        let a = if y < 0 {
            -y
        } else {
            y
        };
        (if y < 0 {
            seq!['-']
        } else {
            seq!['+']
        }) + (if a < 1000 {
            four_digits(a)
        } else {
            nat_text(a as nat)
        })
    }
}

/// The date as chrono's `%Y-%m-%d` writes it.
pub open spec fn dash_date_text(y: int, m: int, d: int) -> Seq<char> {
    year_text(y) + seq!['-'] + two_digits(m) + seq!['-'] + two_digits(d)
}

/// The date as chrono's `%Y%m%d` writes it.
pub open spec fn compact_date_text(y: int, m: int, d: int) -> Seq<char> {
    year_text(y) + two_digits(m) + two_digits(d)
}

/// The number of ISO weeks of year `y`: 53 where it begins on a Thursday,
/// or on a Wednesday in a leap year; else 52.
pub open spec fn iso_weeks_in(y: int) -> int {
    let jan1 = days_before_year(y) % 7;
    if jan1 == 3 || (is_leap_year(y) && jan1 == 2) {
        53
    } else {
        52
    }
}

/// The ISO 8601 week of the date (year, month, day), as (ISO year, week):
/// with the weekday counted 1 (Monday) to 7 and the day of the year from 1,
/// the week is (day of year - weekday + 10) / 7; a week 0 is the last week
/// of the year before, and a week past the year's last is week 1 of the next.
#[verifier::opaque]
pub open spec fn spec_iso_week(y: int, m: int, d: int) -> (int, int) {
    let n = day_number(y, m, d);
    let weekday = (n - 1) % 7 + 1;
    let ordinal = n - days_before_year(y);
    let w = (ordinal - weekday + 10) / 7;
    if w < 1 {
        (y - 1, iso_weeks_in(y - 1))
    } else if w > iso_weeks_in(y) {
        (y + 1, 1)
    } else {
        (y, w)
    }
}

/// Wraps `chrono::Datelike::iso_week` (with `IsoWeek::year` and
/// `IsoWeek::week`): the ISO 8601 week of the date, as `spec_iso_week`
/// states it. ISO weeks start on Monday, and a week belongs to the year that
/// holds its Thursday, numbered from 1.
#[verifier::external_body]
pub(crate) fn iso_week(date: &Date) -> (r: (i32, u32))
    requires
        date.wf(),
    ensures
        (r.0 as int, r.1 as int) == spec_iso_week(
            date.year as int,
            date.month as int,
            date.day as int,
        ),
        1 <= r.1 <= 53,
{
    let nd = chrono::NaiveDate::from_ymd_opt(date.year, date.month, date.day).unwrap();
    let w = nd.iso_week();
    (w.year(), w.week())
}

/// Wraps `chrono::NaiveDate::parse_from_str`: a date read is a valid date,
/// named by `chrono_parse_result`; the text that `format` writes for a
/// date in the years 0 to 9999 with `%Y-%m-%d` or `%Y%m%d` (four-digit year,
/// two-digit month and day) reads back, with the same format, as that date;
/// and `YYYYMMDD` does not read with `%Y-%m-%d` (without a sign `%Y` takes at
/// most four digits, and the `-` that follows is then missing).
#[verifier::external_body]
pub(crate) fn parse_date_with(s: &str, fmt: &str) -> (r: Option<Date>)
    ensures
        r matches Some(d) ==> d.wf() && chrono_parse_result(s@, fmt@) == Some(
            (d.year as int, d.month as int, d.day as int),
        ),
        r is None ==> chrono_parse_result(s@, fmt@) is None,
        forall|y: int, m: int, d: int|
            #![trigger ymd_dash_text(y, m, d)]
            fmt@ == "%Y-%m-%d"@ && s@ == ymd_dash_text(y, m, d) && valid_ymd(y, m, d) && 0 <= y
                <= 9999 ==> r == Some(Date { year: y as i32, month: m as u32, day: d as u32 }),
        forall|y: int, m: int, d: int|
            #![trigger ymd_compact_text(y, m, d)]
            fmt@ == "%Y%m%d"@ && s@ == ymd_compact_text(y, m, d) && valid_ymd(y, m, d) && 0 <= y
                <= 9999 ==> r == Some(Date { year: y as i32, month: m as u32, day: d as u32 }),
        forall|y: int, m: int, d: int|
            #![trigger ymd_compact_text(y, m, d)]
            fmt@ == "%Y-%m-%d"@ && s@ == ymd_compact_text(y, m, d) && valid_ymd(y, m, d) && 0 <= y
                <= 9999 ==> r is None,
{
    chrono::NaiveDate::parse_from_str(s, fmt).ok().map(
        |x| Date { year: x.year(), month: x.month(), day: x.day() },
    )
}

/// Wraps `chrono::NaiveDate::format` (then `to_string`), for the two formats
/// the library writes (an unknown specifier would make `to_string` panic).
/// `%Y` writes the year as `year_text` says (chrono's `write_year`: four
/// zero-padded digits for the years 0 to 9999, else a sign and at least
/// four digits), `%m` and `%d` two zero-padded digits.
#[verifier::external_body]
pub(crate) fn format_date_with(date: &Date, fmt: &str) -> (r: String)
    requires
        date.wf(),
        fmt@ == "%Y-%m-%d"@ || fmt@ == "%Y%m%d"@,
    ensures
        fmt@ == "%Y-%m-%d"@ ==> r@ == dash_date_text(
            date.year as int,
            date.month as int,
            date.day as int,
        ),
        fmt@ == "%Y%m%d"@ ==> r@ == compact_date_text(
            date.year as int,
            date.month as int,
            date.day as int,
        ),
{
    let nd = chrono::NaiveDate::from_ymd_opt(date.year, date.month, date.day).unwrap();
    nd.format(fmt).to_string()
}

proof fn lemma_digit(n: int)
    requires
        0 <= n <= 9,
    ensures
        ('0' as u32) <= (digit(n) as u32) <= ('9' as u32),
        digit(n) as int == n + 48,
{
}

/// `YYYY-MM-DD` is ten ASCII characters: digits and `-`.
pub proof fn lemma_ymd_dash_text_chars(y: int, m: int, d: int)
    requires
        0 <= y <= 9999,
        0 <= m <= 99,
        0 <= d <= 99,
    ensures
        ymd_dash_text(y, m, d).len() == 10,
        ascii(ymd_dash_text(y, m, d)),
        no_ws(ymd_dash_text(y, m, d)),
        no_char(ymd_dash_text(y, m, d), '>'),
{
    let t = ymd_dash_text(y, m, d);
    lemma_digit(y / 1000);
    lemma_digit((y / 100) % 10);
    lemma_digit((y / 10) % 10);
    lemma_digit(y % 10);
    lemma_digit(m / 10);
    lemma_digit(m % 10);
    lemma_digit(d / 10);
    lemma_digit(d % 10);
    assert(t =~= seq![
        digit(y / 1000),
        digit((y / 100) % 10),
        digit((y / 10) % 10),
        digit(y % 10),
        '-',
        digit(m / 10),
        digit(m % 10),
        '-',
        digit(d / 10),
        digit(d % 10),
    ]);
}


/// `YYYYMMDD` is eight decimal digits.
pub proof fn lemma_ymd_compact_text_chars(y: int, m: int, d: int)
    requires
        0 <= y <= 9999,
        0 <= m <= 99,
        0 <= d <= 99,
    ensures
        ymd_compact_text(y, m, d).len() == 8,
        forall|i: int|
            0 <= i < 8 ==> '0' <= #[trigger] ymd_compact_text(y, m, d)[i] && ymd_compact_text(
                y,
                m,
                d,
            )[i] <= '9',
{
    let t = ymd_compact_text(y, m, d);
    lemma_digit(y / 1000);
    lemma_digit((y / 100) % 10);
    lemma_digit((y / 10) % 10);
    lemma_digit(y % 10);
    lemma_digit(m / 10);
    lemma_digit(m % 10);
    lemma_digit(d / 10);
    lemma_digit(d % 10);
    assert(t =~= seq![
        digit(y / 1000),
        digit((y / 100) % 10),
        digit((y / 10) % 10),
        digit(y % 10),
        digit(m / 10),
        digit(m % 10),
        digit(d / 10),
        digit(d % 10),
    ]);
}

} // verus!
