//! Calendar dates as day numbers, and the calls into `chrono` that turn them
//! into text, back, and into calendar fields.

use chrono::Datelike;
use vstd::prelude::*;
use crate::numbers::digits_of;

verus! {

/// Day number of the earliest date `chrono::NaiveDate` can hold
/// (January 1 of year -262143, that is 262144 BCE), counted with January 1
/// of year 1 as day 1.
pub const MIN_DAY: i32 = -95746129;

/// Day number of the latest date `chrono::NaiveDate` can hold
/// (December 31, 262142 CE).
pub const MAX_DAY: i32 = 95745399;

/// Year of [`MIN_DAY`].
pub const MIN_YEAR: i32 = -262143;

/// Year of [`MAX_DAY`].
pub const MAX_YEAR: i32 = 262142;

/// A date of the proleptic Gregorian calendar, held as its day number:
/// January 1 of year 1 is day 1, each following day one more.
#[derive(Clone, Copy, Debug, PartialEq, Eq, Structural)]
pub struct Date {
    days: i32,
}

/// Whether a day number lies in the range of dates that can be held.
pub open spec fn day_in_range(day: int) -> bool {
    MIN_DAY <= day <= MAX_DAY
}

/// Day of the week of a day number, Monday being 0 and Sunday 6.
/// Day 1 (January 1 of year 1) was a Monday, and the weekdays repeat every
/// seven days.
pub open spec fn weekday_of(day: int) -> int {
    (day + 6) % 7
}

impl View for Date {
    type V = int;

    closed spec fn view(&self) -> int {
        self.days as int
    }
}

impl Date {
    #[verifier::type_invariant]
    spec fn in_range(self) -> bool {
        day_in_range(self.days as int)
    }

    /// The date with the given day number, if it lies in range.
    pub fn from_days(days: i32) -> (r: Option<Date>)
        ensures
            r is Some <==> day_in_range(days as int),
            r matches Some(d) ==> d@ == days,
    {
        if MIN_DAY <= days && days <= MAX_DAY {
            Some(Date { days })
        } else {
            None
        }
    }

    /// The day number of this date.
    pub fn days(&self) -> (r: i32)
        ensures
            r == self@,
            day_in_range(r as int),
    {
        proof {
            use_type_invariant(self);
        }
        self.days
    }

    /// The date `n` days after this one (before it, for negative `n`).
    pub fn add_days(&self, n: i64) -> (r: Date)
        requires
            day_in_range(self@ + n),
        ensures
            r@ == self@ + n,
    {
        let days = (self.days as i64 + n) as i32;
        Date { days }
    }

    /// Number of days from `other` to `self`.
    pub fn days_since(&self, other: &Date) -> (r: i64)
        ensures
            r == self@ - other@,
            MIN_DAY - MAX_DAY <= r <= MAX_DAY - MIN_DAY,
    {
        proof {
            use_type_invariant(self);
            use_type_invariant(other);
        }
        self.days as i64 - other.days as i64
    }

    /// Day of the week, Monday being 0 and Sunday 6.
    pub fn weekday_from_monday(&self) -> (r: i64)
        ensures
            r == weekday_of(self@),
            0 <= r < 7,
    {
        proof {
            use_type_invariant(self);
        }
        // 98_000_000 is a multiple of seven larger than any |day number|.
        let shifted: i64 = self.days as i64 + 98_000_006;
        let r = shifted % 7;
        proof {
            let d = self.days as int;
            assert((d + 98_000_006) % 7 == (d + 6) % 7) by {
                vstd::arithmetic::div_mod::lemma_mod_add_multiples_vanish(d + 6, 7);
                assert(98_000_000int == 7 * 14_000_000);
                vstd::arithmetic::div_mod::lemma_mod_multiples_vanish(14_000_000, d + 6, 7);
            }
        }
        r
    }

    /// Whether `self` comes before `other` or is the same day.
    pub fn le(&self, other: &Date) -> (r: bool)
        ensures
            r == (self@ <= other@),
    {
        self.days <= other.days
    }
}

/// What `chrono::NaiveDate::parse_from_str(text, "%Y-%m-%d")` gives for a
/// text: the day number of the date it reads, or nothing where it fails.
pub uninterp spec fn parsed_date(text: Seq<char>) -> Option<int>;

/// The decimal digits of `n`, with zeros in front up to `width` digits.
pub open spec fn padded_digits(n: nat, width: nat) -> Seq<char> {
    let digits = digits_of(n);
    if digits.len() < width {
        Seq::new((width - digits.len()) as nat, |i: int| '0') + digits
    } else {
        digits
    }
}

/// A year as `%Y` writes it: four digits, zero-padded, for the years 0 to
/// 9999; otherwise a sign and at least four digits.
pub open spec fn year_text(year: int) -> Seq<char> {
    if 0 <= year <= 9999 {
        padded_digits(year as nat, 4)
    } else if year < 0 {
        seq!['-'] + padded_digits((-year) as nat, 4)
    } else {
        seq!['+'] + padded_digits(year as nat, 4)
    }
}

/// The text that `chrono::NaiveDate::format("%Y-%m-%d")` writes for a date:
/// the year, then month and day of the month as two digits each, joined by
/// `-`.
pub open spec fn formatted_date(day: int) -> Seq<char> {
    let (y, m, d) = civil_of_day(day);
    year_text(y) + seq!['-'] + padded_digits(m as nat, 2) + seq!['-'] + padded_digits(d as nat, 2)
}

/// Whether `year` is a leap year of the Gregorian calendar.
pub open spec fn is_leap_year(year: int) -> bool {
    year % 4 == 0 && (year % 100 != 0 || year % 400 == 0)
}

/// Number of days of a month (1 to 12) of a year.
pub open spec fn days_in_month(year: int, month: int) -> int {
    if month == 2 {
        if is_leap_year(year) { 29 } else { 28 }
    } else if month == 4 || month == 6 || month == 9 || month == 11 {
        30
    } else {
        31
    }
}

/// Day number of a calendar date. Years are counted from March, so that the
/// leap day ends a year: `era` is the 400-year cycle, `yoe` the year in it,
/// `doy` the day of that March-based year and `doe` the day of the cycle.
pub open spec fn day_of_civil(year: int, month: int, day: int) -> int {
    let y = if month <= 2 { year - 1 } else { year };
    let era = y / 400;
    let yoe = y - era * 400;
    let mp = if month > 2 { month - 3 } else { month + 9 };
    let doy = (153 * mp + 2) / 5 + day - 1;
    let doe = yoe * 365 + yoe / 4 - yoe / 100 + doy;
    era * 146097 + doe - 305
}

/// Year, month (1 to 12) and day of the month of a day number: the inverse
/// of [`day_of_civil`], with March-based years as there.
pub open spec fn civil_of_day(day: int) -> (int, int, int) {
    let z = day + 305;
    let era = z / 146097;
    let doe = z - era * 146097;
    let yoe = (doe - doe / 1460 + doe / 36524 - doe / 146096) / 365;
    let doy = doe - (365 * yoe + yoe / 4 - yoe / 100);
    let mp = (5 * doy + 2) / 153;
    let d = doy - (153 * mp + 2) / 5 + 1;
    let m = if mp < 10 { mp + 3 } else { mp - 9 };
    let y = yoe + era * 400 + if m <= 2 { 1int } else { 0int };
    (y, m, d)
}

/// The year of a date, as `chrono::Datelike::year` gives it.
pub open spec fn year_of_day(day: int) -> int {
    civil_of_day(day).0
}

/// The month (1 to 12) of a date, as `chrono::Datelike::month` gives it.
pub open spec fn month_of_day(day: int) -> int {
    civil_of_day(day).1
}

/// The date that `chrono::NaiveDate::from_ymd_opt(year, month, day)` gives:
/// the day number of that calendar day where it exists and its year is one
/// that `chrono` holds, nothing otherwise.
pub open spec fn date_of_ymd(year: int, month: int, day: int) -> Option<int> {
    if MIN_YEAR <= year <= MAX_YEAR && 1 <= month <= 12 && 1 <= day <= days_in_month(year, month) {
        Some(day_of_civil(year, month, day))
    } else {
        None
    }
}

/// Whether the civil conversion of day `doe` of a 400-year cycle stays
/// within a year, a month and that month's days.
pub open spec fn cycle_day_ok(doe: int) -> bool {
    let yoe = (doe - doe / 1460 + doe / 36524 - doe / 146096) / 365;
    let doy = doe - (365 * yoe + yoe / 4 - yoe / 100);
    let mp = (5 * doy + 2) / 153;
    let dd = doy - (153 * mp + 2) / 5 + 1;
    let m = if mp < 10 { mp + 3 } else { mp - 9 };
    &&& 0 <= yoe < 400
    &&& 0 <= mp < 12
    &&& 1 <= dd <= days_in_month(yoe + if m <= 2 { 1int } else { 0int }, m)
}

#[verifier::rlimit(100)]
proof fn lemma_cycle_day(doe: int)
    requires
        0 <= doe < 146097,
    ensures
        cycle_day_ok(doe),
{
}

/// Leap years repeat every 400 years.
proof fn lemma_leap_period(n: int, e: int)
    ensures
        is_leap_year(n + 400 * e) == is_leap_year(n),
        forall|m: int| days_in_month(n + 400 * e, m) == #[trigger] days_in_month(n, m),
{
    vstd::arithmetic::div_mod::lemma_mod_multiples_vanish(100 * e, n, 4);
    vstd::arithmetic::div_mod::lemma_mod_multiples_vanish(4 * e, n, 100);
    vstd::arithmetic::div_mod::lemma_mod_multiples_vanish(e, n, 400);
    assert(4 * (100 * e) + n == n + 400 * e);
    assert(100 * (4 * e) + n == n + 400 * e);
    assert(400 * e + n == n + 400 * e);
}

/// The year, month and day that [`civil_of_day`] gives are a calendar date,
/// and [`day_of_civil`] gives the day number back.
pub proof fn lemma_civil_round_trip(day: int)
    ensures
        ({
            let (y, m, d) = civil_of_day(day);
            &&& 1 <= m <= 12
            &&& 1 <= d <= days_in_month(y, m)
            &&& day_of_civil(y, m, d) == day
        }),
{
    let z = day + 305;
    let era = z / 146097;
    let doe = z - era * 146097;
    vstd::arithmetic::div_mod::lemma_fundamental_div_mod(z, 146097);
    assert(0 <= doe < 146097);
    lemma_cycle_day(doe);
    let yoe = (doe - doe / 1460 + doe / 36524 - doe / 146096) / 365;
    let (y, m, d) = civil_of_day(day);
    let k: int = if m <= 2 { 1 } else { 0 };
    assert(y == (yoe + k) + 400 * era);
    lemma_leap_period(yoe + k, era);
    let y2 = if m <= 2 { y - 1 } else { y };
    assert(y2 == yoe + era * 400);
    vstd::arithmetic::div_mod::lemma_fundamental_div_mod_converse(y2, 400, era, yoe);
}

/// Every date that can be held falls in a year that `chrono` holds.
pub proof fn lemma_civil_year_in_range(day: int)
    requires
        day_in_range(day),
    ensures
        MIN_YEAR <= civil_of_day(day).0 <= MAX_YEAR,
{
    lemma_civil_round_trip(day);
    let (y, m, d) = civil_of_day(day);
    lemma_days_before_and_after(y, m, d);
}

/// The dates of the years before [`MIN_YEAR`] come before [`MIN_DAY`], and
/// those of the years after [`MAX_YEAR`] after [`MAX_DAY`].
#[verifier::rlimit(60)]
proof fn lemma_days_before_and_after(y: int, m: int, d: int)
    requires
        1 <= m <= 12,
        1 <= d <= 31,
    ensures
        y < MIN_YEAR ==> day_of_civil(y, m, d) < MIN_DAY,
        y > MAX_YEAR ==> day_of_civil(y, m, d) > MAX_DAY,
{
}

/// March starts where February ends, in leap years and others.
proof fn lemma_march_follows_february(y: int)
    ensures
        day_of_civil(y, 3, 1) == day_of_civil(y, 2, 1) + days_in_month(y, 2),
{
    let e = y / 400;
    let o = y % 400;
    vstd::arithmetic::div_mod::lemma_fundamental_div_mod(y, 400);
    vstd::arithmetic::div_mod::lemma_mod_multiples_vanish(100 * e, o, 4);
    vstd::arithmetic::div_mod::lemma_mod_multiples_vanish(4 * e, o, 100);
    assert(4 * (100 * e) + o == y);
    assert(100 * (4 * e) + o == y);
    if o != 0 {
        vstd::arithmetic::div_mod::lemma_fundamental_div_mod_converse(y - 1, 400, e, o - 1);
        assert(o / 4 - (o - 1) / 4 == if o % 4 == 0 { 1int } else { 0int });
        assert(o / 100 - (o - 1) / 100 == if o % 100 == 0 { 1int } else { 0int });
        assert(day_of_civil(y, 3, 1) - day_of_civil(y, 2, 1) == 28 + (o / 4 - (o - 1) / 4) - (o / 100 - (o - 1)
            / 100));
    } else {
        vstd::arithmetic::div_mod::lemma_fundamental_div_mod_converse(y - 1, 400, e - 1, 399);
        assert(day_of_civil(y, 3, 1) - day_of_civil(y, 2, 1) == 29);
    }
}

/// A day of a month lies that many days after the month's first day less
/// one, and each month starts where the one before it ends.
pub proof fn lemma_months_follow(y: int, m: int, d: int)
    requires
        1 <= m <= 12,
    ensures
        day_of_civil(y, m, d) == day_of_civil(y, m, 1) + d - 1,
        m < 12 ==> day_of_civil(y, m + 1, 1) == day_of_civil(y, m, 1) + days_in_month(y, m),
        m == 12 ==> day_of_civil(y + 1, 1, 1) == day_of_civil(y, m, 1) + days_in_month(y, m),
{
    if m == 2 {
        lemma_march_follows_february(y);
    }
}

/// Reads a date written as `yyyy-MM-dd`.
///
/// Calls `chrono::NaiveDate::parse_from_str` with the format `%Y-%m-%d`; the
/// contract claims only that the result is [`parsed_date`] of the text, that
/// is, it depends on the text alone.
#[verifier::external_body]
pub fn parse_date(value: &str) -> (r: Option<Date>)
    ensures
        match r {
            Some(d) => parsed_date(value@) == Some(d@),
            None => parsed_date(value@) is None,
        },
{
    match chrono::NaiveDate::parse_from_str(value, "%Y-%m-%d") {
        Ok(date) => Some(Date { days: date.num_days_from_ce() }),
        Err(_) => None,
    }
}

/// Writes a date as `yyyy-MM-dd`.
///
/// Calls `chrono::NaiveDate::format` with `%Y-%m-%d`; the contract states
/// the text that its `%Y`, `%m` and `%d` write ([`formatted_date`]).
#[verifier::external_body]
pub fn format_date(date: Date) -> (r: String)
    ensures
        r@ == formatted_date(date@),
{
    chrono::NaiveDate::from_num_days_from_ce_opt(date.days).unwrap().format("%Y-%m-%d").to_string()
}

/// The year of a date.
///
/// Calls `chrono::Datelike::year` on the date of the day number; the contract
/// states the proleptic Gregorian year ([`year_of_day`]), within the years
/// `chrono` can hold.
#[verifier::external_body]
pub(crate) fn year_of(date: Date) -> (r: i32)
    ensures
        r == year_of_day(date@),
        MIN_YEAR <= r <= MAX_YEAR,
{
    chrono::NaiveDate::from_num_days_from_ce_opt(date.days).unwrap().year()
}

/// The month of a date, 1 for January to 12 for December.
///
/// Calls `chrono::Datelike::month` on the date of the day number; the
/// contract states the proleptic Gregorian month ([`month_of_day`]), between
/// 1 and 12 as the documentation of `month` says.
#[verifier::external_body]
pub(crate) fn month_of(date: Date) -> (r: u32)
    ensures
        r == month_of_day(date@),
        1 <= r <= 12,
{
    chrono::NaiveDate::from_num_days_from_ce_opt(date.days).unwrap().month()
}

/// The date of a year, month and day of the month.
///
/// Calls `chrono::NaiveDate::from_ymd_opt`; the contract states its
/// behaviour ([`date_of_ymd`]): the date where the month and day exist in
/// the year and the year lies within `chrono`'s range, nothing otherwise.
#[verifier::external_body]
pub(crate) fn date_from_ymd(year: i32, month: u32, day: u32) -> (r: Option<Date>)
    ensures
        match r {
            Some(d) => date_of_ymd(year as int, month as int, day as int) == Some(d@),
            None => date_of_ymd(year as int, month as int, day as int) is None,
        },
{
    match chrono::NaiveDate::from_ymd_opt(year, month, day) {
        Some(date) => Some(Date { days: date.num_days_from_ce() }),
        None => None,
    }
}

} // verus!
