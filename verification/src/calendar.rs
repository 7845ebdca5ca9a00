//! Workdays, leave deduction, shortfall totals and sprint arithmetic.
//!
//! Hours are held in hundredths of an hour (`800` is eight hours).

use std::collections::{HashMap, HashSet};
use vstd::prelude::*;
use crate::dates::{
    Date, civil_of_day, date_from_ymd, date_of_ymd, day_in_range, day_of_civil, days_in_month,
    lemma_civil_round_trip, lemma_months_follow, month_of, month_of_day, weekday_of, year_of,
    year_of_day, MAX_DAY, MAX_YEAR, MIN_DAY,
};

verus! {

broadcast use vstd::std_specs::hash::group_hash_axioms;

// ---------------------------------------------------------------------------
// Sprints
// ---------------------------------------------------------------------------

/// Sprints of a fixed length, numbered from an anchor sprint whose first day
/// is known.
#[derive(Clone, Copy, Debug)]
pub struct SprintConfig {
    pub anchor_number: i64,
    pub anchor_start: Date,
    pub length_days: i64,
}

/// Number of the sprint that holds `day`.
pub open spec fn sprint_number_of(anchor_number: int, anchor_start: int, length: int, day: int) -> int {
    anchor_number + (day - anchor_start) / length
}

/// First day of sprint `number`.
pub open spec fn sprint_start_of(anchor_number: int, anchor_start: int, length: int, number: int) -> int {
    anchor_start + (number - anchor_number) * length
}

/// Euclidean division by a non-zero number never grows the magnitude by more
/// than one.
pub proof fn lemma_div_magnitude(e: int, l: int)
    requires
        l != 0,
    ensures
        -(if e >= 0 { e } else { -e }) - 1 <= e / l <= (if e >= 0 { e } else { -e }) + 1,
{
    let q = e / l;
    let r = e % l;
    vstd::arithmetic::div_mod::lemma_fundamental_div_mod(e, l);
    assert(0 <= r < (if l >= 0 { l } else { -l }));
    assert(-(if e >= 0 { e } else { -e }) - 1 <= q <= (if e >= 0 { e } else { -e }) + 1)
        by (nonlinear_arith)
        requires
            e == l * q + r,
            0 <= r < (if l >= 0 { l } else { -l }),
            l != 0,
    ;
}

impl SprintConfig {
    /// Number of the sprint that holds `day`, for this configuration.
    pub open spec fn spec_sprint_of(self, day: int) -> int {
        sprint_number_of(self.anchor_number as int, self.anchor_start@, self.length_days as int, day)
    }

    /// First day of sprint `number`, for this configuration.
    pub open spec fn spec_start_of(self, number: int) -> int {
        sprint_start_of(self.anchor_number as int, self.anchor_start@, self.length_days as int, number)
    }

    /// The sprint that holds `date`.
    pub fn sprint_of(&self, date: Date) -> (r: i64)
        requires
            self.length_days != 0,
            i64::MIN <= self.spec_sprint_of(date@) <= i64::MAX,
        ensures
            r == self.spec_sprint_of(date@),
    {
        let elapsed = date.days_since(&self.anchor_start);
        proof {
            lemma_div_magnitude(elapsed as int, self.length_days as int);
        }
        match elapsed.checked_div_euclid(self.length_days) {
            Some(q) => self.anchor_number + q,
            None => 0,
        }
    }
}


impl SprintConfig {
    /// Whether every day of sprint `number` is a date that can be held, so
    /// that [`SprintConfig::range_of`] can compute it.
    pub open spec fn spec_range_fits(self, number: int) -> bool {
        &&& self.length_days > 0
        &&& i64::MIN <= number - self.anchor_number <= i64::MAX
        &&& i64::MIN <= (number - self.anchor_number) * self.length_days <= i64::MAX
        &&& day_in_range(self.spec_start_of(number))
        &&& day_in_range(self.spec_start_of(number) + self.length_days - 1)
    }

    /// First and last day (both included) of sprint `number`.
    pub fn range_of(&self, number: i64) -> (r: (Date, Date))
        requires
            self.spec_range_fits(number as int),
        ensures
            r.0@ == self.spec_start_of(number as int),
            r.1@ == self.spec_start_of(number as int) + self.length_days - 1,
    {
        let offset = (number - self.anchor_number) * self.length_days;
        let start = self.anchor_start.add_days(offset);
        let end = start.add_days(self.length_days - 1);
        (start, end)
    }

    /// Whether [`SprintConfig::range_of`] can compute sprint `number`.
    pub fn range_fits(&self, number: i64) -> (r: bool)
        ensures
            r == self.spec_range_fits(number as int),
    {
        if self.length_days <= 0 {
            return false;
        }
        let diff = match number.checked_sub(self.anchor_number) {
            Some(d) => d,
            None => return false,
        };
        let offset = match diff.checked_mul(self.length_days) {
            Some(o) => o,
            None => return false,
        };
        let anchor = self.anchor_start.days() as i64;
        if offset < (MIN_DAY as i64) - anchor || offset > (MAX_DAY as i64) - anchor {
            return false;
        }
        let start = anchor + offset;
        self.length_days - 1 <= (MAX_DAY as i64) - start
    }
}

/// Within a sprint, every day belongs to that sprint.
pub proof fn lemma_range_of_days_belong_to_sprint(
    anchor_number: int,
    anchor_start: int,
    length: int,
    number: int,
    day: int,
)
    requires
        length > 0,
        sprint_start_of(anchor_number, anchor_start, length, number) <= day,
        day <= sprint_start_of(anchor_number, anchor_start, length, number) + length - 1,
    ensures
        sprint_number_of(anchor_number, anchor_start, length, day) == number,
{
    let k = day - sprint_start_of(anchor_number, anchor_start, length, number);
    let m = number - anchor_number;
    assert(day - anchor_start == m * length + k);
    vstd::arithmetic::div_mod::lemma_fundamental_div_mod_converse(day - anchor_start, length, m, k);
}

/// Every day lies in the sprint that [`SprintConfig::sprint_of`] names for it.
pub proof fn lemma_day_lies_in_its_sprint(anchor_number: int, anchor_start: int, length: int, day: int)
    requires
        length > 0,
    ensures
        ({
            let n = sprint_number_of(anchor_number, anchor_start, length, day);
            let start = sprint_start_of(anchor_number, anchor_start, length, n);
            start <= day <= start + length - 1
        }),
{
    let x = day - anchor_start;
    vstd::arithmetic::div_mod::lemma_fundamental_div_mod(x, length);
    vstd::arithmetic::mul::lemma_mul_is_commutative(x / length, length);
    assert(sprint_start_of(anchor_number, anchor_start, length, sprint_number_of(anchor_number, anchor_start, length, day))
        == anchor_start + (x / length) * length);
}

/// Sprints follow one another without gap or overlap.
pub proof fn lemma_sprints_are_adjacent(anchor_number: int, anchor_start: int, length: int, number: int)
    ensures
        sprint_start_of(anchor_number, anchor_start, length, number + 1)
            == sprint_start_of(anchor_number, anchor_start, length, number) + length,
{
    assert((number + 1 - anchor_number) * length == (number - anchor_number) * length + length)
        by (nonlinear_arith);
}

/// A later day never lies in an earlier sprint.
pub proof fn lemma_sprint_number_is_monotonic(
    anchor_number: int,
    anchor_start: int,
    length: int,
    day1: int,
    day2: int,
)
    requires
        length > 0,
        day1 <= day2,
    ensures
        sprint_number_of(anchor_number, anchor_start, length, day1)
            <= sprint_number_of(anchor_number, anchor_start, length, day2),
{
    vstd::arithmetic::div_mod::lemma_div_is_ordered(day1 - anchor_start, day2 - anchor_start, length);
}

// ---------------------------------------------------------------------------
// Weeks and months
// ---------------------------------------------------------------------------

/// First day (the Monday) of the week that holds `day`.
pub open spec fn week_start_of(day: int) -> int {
    day - weekday_of(day)
}

/// The week, Monday to Sunday, that holds `date`.
pub fn week_range(date: Date) -> (r: (Date, Date))
    requires
        day_in_range(week_start_of(date@)),
        day_in_range(week_start_of(date@) + 6),
    ensures
        r.0@ == week_start_of(date@),
        r.1@ == week_start_of(date@) + 6,
{
    let offset = date.weekday_from_monday();
    let start = date.add_days(-offset);
    (start, start.add_days(6))
}

/// The week of a day starts on a Monday on or before it and ends on the
/// Sunday six days later, and every day of that week has the same week.
pub proof fn lemma_week_runs_monday_to_sunday(day: int, other: int)
    ensures
        weekday_of(week_start_of(day)) == 0,
        week_start_of(day) <= day <= week_start_of(day) + 6,
        week_start_of(day) <= other <= week_start_of(day) + 6 ==> week_start_of(other)
            == week_start_of(day),
{
    let s = week_start_of(day);
    vstd::arithmetic::div_mod::lemma_fundamental_div_mod(day + 6, 7);
    assert(s + 6 == 7 * ((day + 6) / 7));
    vstd::arithmetic::div_mod::lemma_mod_multiples_basic((day + 6) / 7, 7);
    if s <= other <= s + 6 {
        let k = other - s;
        vstd::arithmetic::div_mod::lemma_fundamental_div_mod_converse(other + 6, 7, (day + 6) / 7, k);
    }
}

/// The first day of the month after the one that holds `day`, as `chrono`
/// computes it, if that date exists.
pub open spec fn next_month_start(day: int) -> Option<int> {
    if month_of_day(day) == 12 {
        date_of_ymd(year_of_day(day) + 1, 1, 1)
    } else {
        date_of_ymd(year_of_day(day), month_of_day(day) + 1, 1)
    }
}

/// First day of the month that holds `day`, or `day` itself where `chrono`
/// cannot give it.
pub open spec fn month_start_of(day: int) -> int {
    match date_of_ymd(year_of_day(day), month_of_day(day), 1) {
        Some(start) => start,
        None => day,
    }
}

/// Last day of the month that holds `day`: the day before the next month
/// starts, or `day` itself where `chrono` cannot give that date.
pub open spec fn month_end_of(day: int) -> int {
    match next_month_start(day) {
        Some(next) => next - 1,
        None => day,
    }
}

/// The month that holds `date`, first day to last day. In the last month
/// that can be held, whose next month cannot, the range ends at `date`.
pub fn month_range(date: Date) -> (r: (Date, Date))
    ensures
        r.0@ == month_start_of(date@),
        r.1@ == month_end_of(date@),
        ({
            let (y, m, d) = civil_of_day(date@);
            &&& r.0@ == day_of_civil(y, m, 1)
            &&& !(y == MAX_YEAR && m == 12) ==> r.1@ == day_of_civil(y, m, days_in_month(y, m))
            &&& y == MAX_YEAR && m == 12 ==> r.1@ == date@
            &&& r.0@ <= date@ <= r.1@
        }),
{
    proof {
        let (y, m, d) = civil_of_day(date@);
        lemma_civil_round_trip(date@);
        lemma_months_follow(y, m, d);
        lemma_months_follow(y, m, days_in_month(y, m));
    }
    let year = year_of(date);
    let month = month_of(date);
    let start = match date_from_ymd(year, month, 1) {
        Some(first) => first,
        None => date,
    };
    let next = if month == 12 {
        date_from_ymd(year + 1, 1, 1)
    } else {
        date_from_ymd(year, month + 1, 1)
    };
    let end = match next {
        Some(first) => {
            let d = first.days();
            assert(d != MIN_DAY);
            first.add_days(-1)
        },
        None => date,
    };
    (start, end)
}

// ---------------------------------------------------------------------------
// Workdays and hours
// ---------------------------------------------------------------------------

/// Holidays, and make-up days that turn a weekend or holiday into a workday,
/// each held as day numbers.
#[derive(Debug)]
pub struct Calendar {
    pub holidays: HashSet<i32>,
    pub extra_workdays: HashSet<i32>,
}

/// Whether `day` is a workday: a make-up day always is; otherwise a holiday
/// is not; otherwise Monday to Friday are and the weekend is not.
pub open spec fn is_workday_in(holidays: Set<i32>, extra_workdays: Set<i32>, day: int) -> bool {
    if extra_workdays.contains(day as i32) {
        true
    } else if holidays.contains(day as i32) {
        false
    } else {
        weekday_of(day) < 5
    }
}

/// Hours of leave recorded for `day`, zero where there is none.
pub open spec fn hours_on(hours: Map<i32, i32>, day: int) -> int {
    if hours.contains_key(day as i32) {
        hours[day as i32] as int
    } else {
        0
    }
}

/// Hours required on `day`: none on a day off; otherwise the daily
/// requirement less that day's leave, but never below zero.
pub open spec fn required_on(
    holidays: Set<i32>,
    extra_workdays: Set<i32>,
    leaves: Map<i32, i32>,
    daily_required: int,
    day: int,
) -> int {
    if !is_workday_in(holidays, extra_workdays, day) {
        0
    } else if daily_required - hours_on(leaves, day) > 0 {
        daily_required - hours_on(leaves, day)
    } else {
        0
    }
}

impl Default for Calendar {
    fn default() -> (r: Calendar)
        ensures
            r.holidays@ == Set::<i32>::empty(),
            r.extra_workdays@ == Set::<i32>::empty(),
    {
        Calendar { holidays: HashSet::new(), extra_workdays: HashSet::new() }
    }
}

impl Calendar {
    /// Whether `date` is a workday under this calendar.
    pub fn is_workday(&self, date: Date) -> (r: bool)
        ensures
            r == is_workday_in(self.holidays@, self.extra_workdays@, date@),
    {
        let day = date.days();
        if self.extra_workdays.contains(&day) {
            return true;
        }
        if self.holidays.contains(&day) {
            return false;
        }
        date.weekday_from_monday() < 5
    }

    /// Hours required on `date` for someone who owes `daily_required` per
    /// workday and has the given leave hours per day.
    pub fn required_hours(&self, date: Date, daily_required: i32, leaves: &HashMap<i32, i32>) -> (r: i64)
        ensures
            r == required_on(self.holidays@, self.extra_workdays@, leaves@, daily_required as int, date@),
            0 <= r <= 4_294_967_295,
    {
        if !self.is_workday(date) {
            return 0;
        }
        let day = date.days();
        let leave: i32 = match leaves.get(&day) {
            Some(hours) => *hours,
            None => 0,
        };
        let remaining = daily_required as i64 - leave as i64;
        if remaining > 0 {
            remaining
        } else {
            0
        }
    }
}


/// Required hours, filled hours and their difference (filled less
/// required) over a span of days.
#[derive(Clone, Copy, Debug, PartialEq, Eq, Structural)]
pub struct HoursSummary {
    pub required: i64,
    pub filled: i64,
    pub diff: i64,
}

/// Hours required over the days `from..=to`.
pub open spec fn required_between(
    holidays: Set<i32>,
    extra_workdays: Set<i32>,
    leaves: Map<i32, i32>,
    daily_required: int,
    from: int,
    to: int,
) -> int
    decreases to - from + 1,
{
    if to < from {
        0
    } else {
        required_between(holidays, extra_workdays, leaves, daily_required, from, to - 1)
            + required_on(holidays, extra_workdays, leaves, daily_required, to)
    }
}

/// Hours filled over the days `from..=to`.
pub open spec fn filled_between(filled: Map<i32, i32>, from: int, to: int) -> int
    decreases to - from + 1,
{
    if to < from {
        0
    } else {
        filled_between(filled, from, to - 1) + hours_on(filled, to)
    }
}

/// Over `k` days, the required hours are between zero and `k` times the
/// largest daily amount, and the filled hours within `k` times the range of
/// one day's entry.
proof fn lemma_totals_bounded(
    holidays: Set<i32>,
    extra_workdays: Set<i32>,
    leaves: Map<i32, i32>,
    daily_required: int,
    filled: Map<i32, i32>,
    from: int,
    to: int,
)
    requires
        i32::MIN <= daily_required <= i32::MAX,
        from <= to + 1,
    ensures
        0 <= required_between(holidays, extra_workdays, leaves, daily_required, from, to)
            <= (to + 1 - from) * 4_294_967_295,
        -(to + 1 - from) * 2_147_483_648 <= filled_between(filled, from, to)
            <= (to + 1 - from) * 2_147_483_648,
    decreases to - from + 1,
{
    if to >= from {
        lemma_totals_bounded(holidays, extra_workdays, leaves, daily_required, filled, from, to - 1);
    }
}

/// The required hours of two adjoining spans add up to those of the whole
/// span, and so do the filled hours.
pub proof fn lemma_totals_add_up(
    holidays: Set<i32>,
    extra_workdays: Set<i32>,
    leaves: Map<i32, i32>,
    daily_required: int,
    filled: Map<i32, i32>,
    from: int,
    mid: int,
    to: int,
)
    requires
        from <= mid + 1,
        mid <= to,
    ensures
        required_between(holidays, extra_workdays, leaves, daily_required, from, to)
            == required_between(holidays, extra_workdays, leaves, daily_required, from, mid)
            + required_between(holidays, extra_workdays, leaves, daily_required, mid + 1, to),
        filled_between(filled, from, to) == filled_between(filled, from, mid) + filled_between(filled, mid + 1, to),
    decreases to - mid,
{
    if to > mid {
        lemma_totals_add_up(holidays, extra_workdays, leaves, daily_required, filled, from, mid, to - 1);
    }
}

/// A make-up day is always a workday; otherwise a holiday, a Saturday or a
/// Sunday is not, and every other day is.
pub proof fn lemma_workdays(holidays: Set<i32>, extra_workdays: Set<i32>, day: int)
    ensures
        is_workday_in(holidays, extra_workdays, day) == (extra_workdays.contains(day as i32) || (!holidays.contains(
            day as i32,
        ) && (day + 6) % 7 < 5)),
{
}

/// Hours logged count toward the filled total on every day of the span,
/// whatever its weekday and whether or not it is a holiday: an empty span
/// has none, and each further day adds exactly the hours logged on it.
pub proof fn lemma_filled_counts_every_day(filled: Map<i32, i32>, from: int, to: int)
    ensures
        to < from ==> filled_between(filled, from, to) == 0,
        from <= to ==> filled_between(filled, from, to) == filled_between(filled, from, to - 1) + (if filled.contains_key(
            to as i32,
        ) {
            filled[to as i32] as int
        } else {
            0
        }),
        filled_between(filled, to, to) == (if filled.contains_key(to as i32) {
            filled[to as i32] as int
        } else {
            0
        }),
{
    assert(filled_between(filled, to, to - 1) == 0);
}

/// The hours one day requires: a make-up day requires the daily hours less
/// that day's leave, never below zero; otherwise a holiday, a Saturday or a
/// Sunday requires none, and every other day requires the daily hours less
/// its leave, never below zero. Over a span, each further day adds what it
/// requires.
pub proof fn lemma_required_each_day(
    holidays: Set<i32>,
    extra_workdays: Set<i32>,
    leaves: Map<i32, i32>,
    daily_required: int,
    from: int,
    to: int,
)
    ensures
        to < from ==> required_between(holidays, extra_workdays, leaves, daily_required, from, to) == 0,
        from <= to ==> required_between(holidays, extra_workdays, leaves, daily_required, from, to)
            == required_between(holidays, extra_workdays, leaves, daily_required, from, to - 1)
            + required_between(holidays, extra_workdays, leaves, daily_required, to, to),
        required_between(holidays, extra_workdays, leaves, daily_required, to, to) == ({
            let leave = if leaves.contains_key(to as i32) { leaves[to as i32] as int } else { 0 };
            let owed = if daily_required - leave > 0 { daily_required - leave } else { 0 };
            if extra_workdays.contains(to as i32) {
                owed
            } else if holidays.contains(to as i32) || (to + 6) % 7 >= 5 {
                0
            } else {
                owed
            }
        }),
{
    assert(required_between(holidays, extra_workdays, leaves, daily_required, to, to - 1) == 0);
}

/// Required and filled hours of `daily_required`-hour workdays over
/// `from..=to`, with leave hours and logged hours given per day.
pub fn summarize(
    from: Date,
    to: Date,
    daily_required: i32,
    calendar: &Calendar,
    leaves: &HashMap<i32, i32>,
    filled: &HashMap<i32, i32>,
) -> (r: HoursSummary)
    requires
        from@ <= to@ ==> to@ < MAX_DAY,
    ensures
        r.required == required_between(
            calendar.holidays@,
            calendar.extra_workdays@,
            leaves@,
            daily_required as int,
            from@,
            to@,
        ),
        r.filled == filled_between(filled@, from@, to@),
        r.diff == r.filled - r.required,
{
    let ghost hs = calendar.holidays@;
    let ghost ex = calendar.extra_workdays@;
    let ghost lv = leaves@;
    let ghost fl = filled@;
    let ghost daily = daily_required as int;
    let mut required_total: i64 = 0;
    let mut filled_total: i64 = 0;
    let mut cursor = from;
    let first_day = from.days();
    if !from.le(&to) {
        return HoursSummary { required: 0, filled: 0, diff: 0 };
    }
    while cursor.le(&to)
        invariant
            from@ <= cursor@ <= to@ + 1,
            to@ < MAX_DAY,
            first_day == from@,
            day_in_range(from@),
            required_total == required_between(hs, ex, lv, daily, from@, cursor@ - 1),
            filled_total == filled_between(fl, from@, cursor@ - 1),
            hs == calendar.holidays@,
            ex == calendar.extra_workdays@,
            lv == leaves@,
            fl == filled@,
            daily == daily_required as int,
        decreases to@ - cursor@ + 1,
    {
        proof {
            lemma_totals_bounded(hs, ex, lv, daily, fl, from@, cursor@);
            assert((cursor@ + 1 - from@) * 4_294_967_295 <= 200_000_000 * 4_294_967_295)
                by (nonlinear_arith) requires 0 <= cursor@ + 1 - from@ <= 200_000_000;
            assert((cursor@ + 1 - from@) * 2_147_483_648 <= 200_000_000 * 2_147_483_648)
                by (nonlinear_arith) requires 0 <= cursor@ + 1 - from@ <= 200_000_000;
        }
        required_total = required_total + calendar.required_hours(cursor, daily_required, leaves);
        let day = cursor.days();
        let logged: i32 = match filled.get(&day) {
            Some(hours) => *hours,
            None => 0,
        };
        filled_total = filled_total + logged as i64;
        cursor = cursor.add_days(1);
    }
    proof {
        lemma_totals_bounded(hs, ex, lv, daily, fl, from@, to@);
        assert((to@ + 1 - from@) * 4_294_967_295 <= 200_000_000 * 4_294_967_295)
            by (nonlinear_arith) requires 0 <= to@ + 1 - from@ <= 200_000_000;
        assert((to@ + 1 - from@) * 2_147_483_648 <= 200_000_000 * 2_147_483_648)
            by (nonlinear_arith) requires 0 <= to@ + 1 - from@ <= 200_000_000;
    }
    HoursSummary { required: required_total, filled: filled_total, diff: filled_total - required_total }
}

} // verus!
