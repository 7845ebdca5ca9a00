//! The decisions of the store: what the stored settings mean, which range a
//! scope names, how the hours report is put together, and which stored
//! changes are allowed. Reading and writing the database is left to the
//! caller, which hands the rows it read to these functions.

use std::collections::{HashMap, HashSet};
use vstd::prelude::*;
use crate::calendar::{
    required_between, filled_between, month_range, summarize, week_range, week_start_of,
    Calendar, SprintConfig, month_start_of, month_end_of, sprint_start_of,
    lemma_range_of_days_belong_to_sprint, lemma_day_lies_in_its_sprint, lemma_sprints_are_adjacent,
    lemma_week_runs_monday_to_sunday,
};
use crate::dates::{
    civil_of_day, day_of_civil, days_in_month, lemma_civil_round_trip, lemma_civil_year_in_range,
    lemma_months_follow, MAX_YEAR,
    day_in_range, format_date, formatted_date, parse_date, parsed_date, Date, MAX_DAY, MIN_DAY,
};
use crate::models::{Holiday, HoursReport, RangeDto, SprintSettings};
use crate::numbers::{decimal_string, decimal_text, lemma_decimal_reads_back, parse_i64, parsed_i64};
use crate::text::{trim, trimmed};

verus! {

broadcast use vstd::std_specs::hash::group_hash_axioms;

/// Whether two texts are the same.
pub fn same_text(a: &str, b: &str) -> (r: bool)
    ensures
        r == (a@ == b@),
{
    let x = String::from_str(a);
    let y = String::from_str(b);
    x == y
}

// ---------------------------------------------------------------------------
// Sprint settings
// ---------------------------------------------------------------------------

/// Sprint length used when none, or no positive one, is stored.
pub const DEFAULT_SPRINT_LENGTH: i64 = 14;

/// The sprint length that the stored text gives: its number where it reads
/// as a positive one, otherwise [`DEFAULT_SPRINT_LENGTH`].
pub open spec fn sprint_length_from(stored: Option<Seq<char>>) -> int {
    match stored {
        Some(t) => match parsed_i64(t) {
            Some(n) => if n > 0 { n } else { DEFAULT_SPRINT_LENGTH as int },
            None => DEFAULT_SPRINT_LENGTH as int,
        },
        None => DEFAULT_SPRINT_LENGTH as int,
    }
}

/// The sprint settings that the stored texts give: the anchor number where
/// it reads as a number, the anchor date where it is not empty, and the
/// length as [`sprint_length_from`] says.
pub fn sprint_settings(
    anchor_number: Option<String>,
    anchor_start_date: Option<String>,
    length_days: Option<String>,
) -> (r: SprintSettings)
    ensures
        match anchor_number {
            Some(t) => match parsed_i64(t@) {
                Some(n) => r.anchor_number == Some(n as i64),
                None => r.anchor_number is None,
            },
            None => r.anchor_number is None,
        },
        match anchor_start_date {
            Some(t) => if t@.len() > 0 {
                r.anchor_start_date matches Some(s) && s@ == t@
            } else {
                r.anchor_start_date is None
            },
            None => r.anchor_start_date is None,
        },
        r.length_days == sprint_length_from(
            match length_days {
                Some(t) => Some(t@),
                None => None,
            },
        ),
        r.length_days > 0,
{
    let number = match &anchor_number {
        Some(text) => parse_i64(text.as_str()),
        None => None,
    };
    let start = match anchor_start_date {
        Some(text) => if !text.as_str().is_empty() {
            Some(text)
        } else {
            None
        },
        None => None,
    };
    let length = match &length_days {
        Some(text) => match parse_i64(text.as_str()) {
            Some(n) => if n > 0 {
                n
            } else {
                DEFAULT_SPRINT_LENGTH
            },
            None => DEFAULT_SPRINT_LENGTH,
        },
        None => DEFAULT_SPRINT_LENGTH,
    };
    SprintSettings { anchor_number: number, anchor_start_date: start, length_days: length }
}

/// The sprint configuration that the settings give: there is one exactly
/// when an anchor number is set and the anchor date reads as a date.
pub fn sprint_config(settings: &SprintSettings) -> (r: Option<SprintConfig>)
    ensures
        match (settings.anchor_number, settings.anchor_start_date) {
            (Some(n), Some(t)) => match parsed_date(t@) {
                Some(day) => r matches Some(c) && c.anchor_number == n && c.anchor_start@ == day
                    && c.length_days == settings.length_days,
                None => r is None,
            },
            _ => r is None,
        },
{
    let number = match settings.anchor_number {
        Some(n) => n,
        None => return None,
    };
    let start = match &settings.anchor_start_date {
        Some(text) => match parse_date(text.as_str()) {
            Some(d) => d,
            None => return None,
        },
        None => return None,
    };
    Some(SprintConfig { anchor_number: number, anchor_start: start, length_days: settings.length_days })
}

// ---------------------------------------------------------------------------
// Ranges named by a scope
// ---------------------------------------------------------------------------

/// A range of dates chosen by a scope: `today`, `week`, `month`, `sprint`
/// or `last_sprint`. Other scopes, and sprint scopes without a sprint
/// configuration, give no range.
pub struct ResolvedRange {
    pub scope: String,
    pub sprint_number: Option<i64>,
    pub from: Option<Date>,
    pub to: Option<Date>,
}

/// Whether a scope names a sprint: the current one, or with `last` the one
/// before it.
pub open spec fn is_sprint_scope(scope: Seq<char>) -> bool {
    scope == "sprint"@ || scope == "last_sprint"@
}

/// The sprint that a sprint scope names on `today`.
pub open spec fn scope_sprint(scope: Seq<char>, config: SprintConfig, today: int) -> int {
    if scope == "sprint"@ {
        config.spec_sprint_of(today)
    } else {
        config.spec_sprint_of(today) - 1
    }
}

/// Whether [`resolve_range`] can compute the range of a scope on `today`
/// with the dates that can be held.
pub open spec fn scope_resolvable(scope: Seq<char>, config: Option<SprintConfig>, today: int) -> bool {
    &&& scope == "week"@ ==> day_in_range(week_start_of(today)) && day_in_range(week_start_of(today) + 6)
    &&& is_sprint_scope(scope) ==> match config {
        Some(c) => {
            &&& c.length_days > 0
            &&& i64::MIN <= c.spec_sprint_of(today) <= i64::MAX
            &&& i64::MIN <= scope_sprint(scope, c, today) <= i64::MAX
            &&& c.spec_range_fits(scope_sprint(scope, c, today))
        },
        None => true,
    }
}

/// Whether [`resolve_range`] can compute the range of a scope on `today`.
pub fn can_resolve_range(scope: &str, config: Option<SprintConfig>, today: Date) -> (r: bool)
    ensures
        r == scope_resolvable(scope@, config, today@),
{
    proof {
        reveal_strlit("week");
        reveal_strlit("sprint");
        reveal_strlit("last_sprint");
    }
    let d = today.days();
    let offset = today.weekday_from_monday();
    let week_ok = (d as i64) - offset >= MIN_DAY as i64 && (d as i64) - offset + 6 <= MAX_DAY as i64;
    if same_text(scope, "week") && !week_ok {
        return false;
    }
    let current_sprint = same_text(scope, "sprint");
    if !current_sprint && !same_text(scope, "last_sprint") {
        return true;
    }
    match config {
        None => true,
        Some(c) => {
            if c.length_days <= 0 {
                return false;
            }
            let elapsed = today.days_since(&c.anchor_start);
            proof {
                crate::calendar::lemma_div_magnitude(elapsed as int, c.length_days as int);
            }
            let q = match elapsed.checked_div_euclid(c.length_days) {
                Some(q) => q,
                None => return false,
            };
            let current = match c.anchor_number.checked_add(q) {
                Some(n) => n,
                None => return false,
            };
            let number = if current_sprint {
                current
            } else {
                match current.checked_sub(1) {
                    Some(n) => n,
                    None => return false,
                }
            };
            c.range_fits(number)
        },
    }
}


/// The range of dates that a scope names on `today`, if any: `today` the
/// day itself, `week` its Monday-to-Sunday week, `month` its month, and the
/// sprint scopes their sprint where sprints are configured.
pub open spec fn scope_range(scope: Seq<char>, config: Option<SprintConfig>, today: int) -> Option<(int, int)> {
    if scope == "today"@ {
        Some((today, today))
    } else if scope == "week"@ {
        Some((week_start_of(today), week_start_of(today) + 6))
    } else if scope == "month"@ {
        Some((month_start_of(today), month_end_of(today)))
    } else if is_sprint_scope(scope) {
        match config {
            Some(c) => {
                let start = c.spec_start_of(scope_sprint(scope, c, today));
                Some((start, start + c.length_days - 1))
            },
            None => None,
        }
    } else {
        None
    }
}

/// The sprint number that a scope names on `today`, if it names a sprint.
pub open spec fn scope_sprint_number(scope: Seq<char>, config: Option<SprintConfig>, today: int) -> Option<int> {
    if is_sprint_scope(scope) {
        match config {
            Some(c) => Some(scope_sprint(scope, c, today)),
            None => None,
        }
    } else {
        None
    }
}

/// The range that `scope` names on `today`, and the sprint number where it
/// names a sprint.
pub fn resolve_range(scope: &str, config: Option<SprintConfig>, today: Date) -> (r: ResolvedRange)
    requires
        scope_resolvable(scope@, config, today@),
    ensures
        r.scope@ == scope@,
        match scope_range(scope@, config, today@) {
            Some((a, b)) => (r.from matches Some(f) && f@ == a) && (r.to matches Some(t) && t@ == b),
            None => r.from is None && r.to is None,
        },
        match scope_sprint_number(scope@, config, today@) {
            Some(n) => r.sprint_number matches Some(m) && m == n,
            None => r.sprint_number is None,
        },
{
    proof {
        reveal_strlit("today");
        reveal_strlit("week");
        reveal_strlit("month");
        reveal_strlit("sprint");
        reveal_strlit("last_sprint");
        assert("today"@.len() != "sprint"@.len() && "today"@.len() != "last_sprint"@.len());
        assert("week"@.len() != "sprint"@.len() && "week"@.len() != "last_sprint"@.len());
        assert("month"@.len() != "sprint"@.len() && "month"@.len() != "last_sprint"@.len());
    }
    let is_current = same_text(scope, "sprint");
    let is_last = same_text(scope, "last_sprint");
    let (sprint_number, from, to) = if same_text(scope, "today") {
        (None, Some(today), Some(today))
    } else if same_text(scope, "week") {
        let (start, end) = week_range(today);
        (None, Some(start), Some(end))
    } else if same_text(scope, "month") {
        let (start, end) = month_range(today);
        (None, Some(start), Some(end))
    } else if is_current || is_last {
        match config {
            Some(c) => {
                let current = c.sprint_of(today);
                let number = if is_current {
                    current
                } else {
                    current - 1
                };
                let (start, end) = c.range_of(number);
                (Some(number), Some(start), Some(end))
            },
            None => (None, None, None),
        }
    } else {
        (None, None, None)
    };
    ResolvedRange { scope: String::from_str(scope), sprint_number, from, to }
}

/// A date as the screen shows it, or nothing for no date.
pub open spec fn date_text(date: Option<Date>) -> Seq<char> {
    match date {
        Some(d) => formatted_date(d@),
        None => Seq::empty(),
    }
}

/// The range as the screen shows it: dates as `yyyy-MM-dd`, empty where
/// there is none.
pub fn range_dto(resolved: ResolvedRange) -> (r: RangeDto)
    ensures
        r.scope@ == resolved.scope@,
        r.sprint_number == resolved.sprint_number,
        r.date_from@ == date_text(resolved.from),
        r.date_to@ == date_text(resolved.to),
{
    let date_from = match resolved.from {
        Some(d) => format_date(d),
        None => String::new(),
    };
    let date_to = match resolved.to {
        Some(d) => format_date(d),
        None => String::new(),
    };
    RangeDto { scope: resolved.scope, sprint_number: resolved.sprint_number, date_from, date_to }
}

// ---------------------------------------------------------------------------
// The hours report
// ---------------------------------------------------------------------------

/// Hours a user owes per workday when the user's own figure cannot be
/// found: eight hours.
pub const DEFAULT_DAILY_REQUIRED: i32 = 800;

/// The range an hours report covers: the scope's range where it has one;
/// otherwise the custom dates where both read as dates; otherwise the week
/// of `today`.
pub open spec fn report_range_of(
    from: Option<Date>,
    to: Option<Date>,
    custom_from: Seq<char>,
    custom_to: Seq<char>,
    today: int,
) -> (int, int) {
    match (from, to) {
        (Some(f), Some(t)) => (f@, t@),
        _ => match (parsed_date(trimmed(custom_from)), parsed_date(trimmed(custom_to))) {
            (Some(f), Some(t)) => (f, t),
            _ => (week_start_of(today), week_start_of(today) + 6),
        },
    }
}

/// Whether an hours report falls back to the week of `today`: the scope
/// gives no range and the custom dates do not both read as dates.
pub open spec fn report_needs_week(
    from: Option<Date>,
    to: Option<Date>,
    custom_from: Seq<char>,
    custom_to: Seq<char>,
) -> bool {
    &&& !(from is Some && to is Some)
    &&& !(parsed_date(trimmed(custom_from)) is Some && parsed_date(trimmed(custom_to)) is Some)
}

/// Whether the week of `today` lies within the dates that can be held.
pub open spec fn week_representable(today: int) -> bool {
    day_in_range(week_start_of(today)) && day_in_range(week_start_of(today) + 6)
}

/// The range an hours report covers, as [`report_range_of`] says.
pub fn report_range(resolved: &ResolvedRange, custom_from: &str, custom_to: &str, today: Date) -> (r: (Date, Date))
    requires
        report_needs_week(resolved.from, resolved.to, custom_from@, custom_to@) ==> week_representable(today@),
    ensures
        (r.0@, r.1@) == report_range_of(resolved.from, resolved.to, custom_from@, custom_to@, today@),
{
    match (resolved.from, resolved.to) {
        (Some(from), Some(to)) => (from, to),
        _ => match (parse_date(trim(custom_from)), parse_date(trim(custom_to))) {
            (Some(from), Some(to)) => (from, to),
            _ => week_range(today),
        },
    }
}

/// The range an hours report covers, or nothing where it would fall back to
/// a week of `today` that lies beyond the dates that can be held.
pub fn report_range_checked(
    resolved: &ResolvedRange,
    custom_from: &str,
    custom_to: &str,
    today: Date,
) -> (r: Option<(Date, Date)>)
    ensures
        r is None <==> report_needs_week(resolved.from, resolved.to, custom_from@, custom_to@)
            && !week_representable(today@),
        r matches Some(p) ==> (p.0@, p.1@) == report_range_of(
            resolved.from,
            resolved.to,
            custom_from@,
            custom_to@,
            today@,
        ),
{
    proof {
        reveal_strlit("week");
        reveal_strlit("sprint");
        reveal_strlit("last_sprint");
    }
    let scope_given = resolved.from.is_some() && resolved.to.is_some();
    let custom_given = parse_date(trim(custom_from)).is_some() && parse_date(trim(custom_to)).is_some();
    if !scope_given && !custom_given && !can_resolve_range("week", None, today) {
        None
    } else {
        Some(report_range(resolved, custom_from, custom_to, today))
    }
}

/// The days of the rows whose workday flag is `workday` and whose date
/// reads as a date.
pub open spec fn marked_days(rows: Seq<(Seq<char>, bool)>, workday: bool) -> Set<i32>
    decreases rows.len(),
{
    if rows.len() == 0 {
        Set::empty()
    } else {
        let earlier = marked_days(rows.drop_last(), workday);
        let (text, flag) = rows.last();
        if flag == workday {
            match parsed_date(text) {
                Some(day) => earlier.insert(day as i32),
                None => earlier,
            }
        } else {
            earlier
        }
    }
}

/// The hours per day that rows of (date, hours) give, later rows for the
/// same day replacing earlier ones; rows whose date does not read are
/// skipped.
pub open spec fn hours_by_day(rows: Seq<(Seq<char>, i32)>) -> Map<i32, i32>
    decreases rows.len(),
{
    if rows.len() == 0 {
        Map::empty()
    } else {
        let earlier = hours_by_day(rows.drop_last());
        let (text, hours) = rows.last();
        match parsed_date(text) {
            Some(day) => earlier.insert(day as i32, hours),
            None => earlier,
        }
    }
}

/// The texts of rows of (text, flag), viewed.
pub open spec fn flag_rows(rows: Seq<(String, bool)>) -> Seq<(Seq<char>, bool)> {
    rows.map_values(|row: (String, bool)| (row.0@, row.1))
}

/// The texts of rows of (text, hours), viewed.
pub open spec fn hour_rows(rows: Seq<(String, i32)>) -> Seq<(Seq<char>, i32)> {
    rows.map_values(|row: (String, i32)| (row.0@, row.1))
}

/// The calendar that stored holiday rows give: rows marked as workdays are
/// make-up days, the others holidays; rows whose date does not read are
/// skipped.
pub fn calendar_from_rows(rows: &Vec<(String, bool)>) -> (r: Calendar)
    ensures
        r.holidays@ == marked_days(flag_rows(rows@), false),
        r.extra_workdays@ == marked_days(flag_rows(rows@), true),
{
    let mut calendar = Calendar::default();
    let ghost view = flag_rows(rows@);
    let mut i: usize = 0;
    while i < rows.len()
        invariant
            i <= rows.len(),
            view == flag_rows(rows@),
            calendar.holidays@ == marked_days(view.take(i as int), false),
            calendar.extra_workdays@ == marked_days(view.take(i as int), true),
        decreases rows.len() - i,
    {
        assert(view.take(i + 1).drop_last() =~= view.take(i as int));
        assert(view.take(i + 1).last() == (rows@[i as int].0@, rows@[i as int].1));
        let is_workday = rows[i].1;
        match parse_date(rows[i].0.as_str()) {
            Some(date) => {
                if is_workday {
                    calendar.extra_workdays.insert(date.days());
                } else {
                    calendar.holidays.insert(date.days());
                }
            },
            None => {},
        }
        i = i + 1;
    }
    assert(view.take(rows.len() as int) =~= view);
    calendar
}

/// The hours per day that rows of (date, hours) give, as [`hours_by_day`]
/// says.
pub fn hours_from_rows(rows: &Vec<(String, i32)>) -> (r: HashMap<i32, i32>)
    ensures
        r@ == hours_by_day(hour_rows(rows@)),
{
    let mut map: HashMap<i32, i32> = HashMap::new();
    let ghost view = hour_rows(rows@);
    let mut i: usize = 0;
    while i < rows.len()
        invariant
            i <= rows.len(),
            view == hour_rows(rows@),
            map@ == hours_by_day(view.take(i as int)),
        decreases rows.len() - i,
    {
        assert(view.take(i + 1).drop_last() =~= view.take(i as int));
        assert(view.take(i + 1).last() == (rows@[i as int].0@, rows@[i as int].1));
        match parse_date(rows[i].0.as_str()) {
            Some(date) => {
                map.insert(date.days(), rows[i].1);
            },
            None => {},
        }
        i = i + 1;
    }
    assert(view.take(rows.len() as int) =~= view);
    map
}

/// Puts the hours report together from the range, the user, and the rows
/// read for that range: holidays, leave hours per day and logged hours per
/// day. Without a user nothing is required or filled; a user whose own
/// daily figure is unknown owes [`DEFAULT_DAILY_REQUIRED`].
pub fn hours_report(
    resolved: ResolvedRange,
    from: Date,
    to: Date,
    user_id: Option<i64>,
    daily_required: Option<i32>,
    holiday_rows: &Vec<(String, bool)>,
    leave_rows: &Vec<(String, i32)>,
    filled_rows: &Vec<(String, i32)>,
) -> (r: HoursReport)
    requires
        user_id is Some && from@ <= to@ ==> to@ < MAX_DAY,
    ensures
        r.scope@ == resolved.scope@,
        r.sprint_number == resolved.sprint_number,
        r.date_from@ == formatted_date(from@),
        r.date_to@ == formatted_date(to@),
        r.has_user == user_id is Some,
        user_id is None ==> r.required == 0 && r.filled == 0 && r.diff == 0,
        user_id is Some ==> {
            let daily = match daily_required {
                Some(h) => h as int,
                None => DEFAULT_DAILY_REQUIRED as int,
            };
            let holidays = flag_rows(holiday_rows@);
            &&& r.required == required_between(
                marked_days(holidays, false),
                marked_days(holidays, true),
                hours_by_day(hour_rows(leave_rows@)),
                daily,
                from@,
                to@,
            )
            &&& r.filled == filled_between(hours_by_day(hour_rows(filled_rows@)), from@, to@)
            &&& r.diff == r.filled - r.required
        },
{
    let date_from = format_date(from);
    let date_to = format_date(to);
    if user_id.is_none() {
        return HoursReport {
            scope: resolved.scope,
            sprint_number: resolved.sprint_number,
            date_from,
            date_to,
            required: 0,
            filled: 0,
            diff: 0,
            has_user: false,
        };
    }
    let daily = match daily_required {
        Some(h) => h,
        None => DEFAULT_DAILY_REQUIRED,
    };
    let calendar = calendar_from_rows(holiday_rows);
    let leaves = hours_from_rows(leave_rows);
    let filled = hours_from_rows(filled_rows);
    let summary = summarize(from, to, daily, &calendar, &leaves, &filled);
    HoursReport {
        scope: resolved.scope,
        sprint_number: resolved.sprint_number,
        date_from,
        date_to,
        required: summary.required,
        filled: summary.filled,
        diff: summary.diff,
        has_user: true,
    }
}


// ---------------------------------------------------------------------------
// Statuses
// ---------------------------------------------------------------------------

/// The default status as the setting names it: its number, where the stored
/// text reads as one.
pub fn configured_status_id(stored: Option<String>) -> (r: Option<i64>)
    ensures
        match stored {
            Some(t) => match parsed_i64(t@) {
                Some(n) => r == Some(n as i64),
                None => r is None,
            },
            None => r is None,
        },
{
    match stored {
        Some(text) => parse_i64(text.as_str()),
        None => None,
    }
}

/// Why a status cannot be deleted.
#[derive(Clone, Copy, Debug, PartialEq, Eq, Structural)]
pub enum StatusDeletionError {
    /// The entries of a deleted status would move to that same status.
    SameAsReplacement,
    /// The default status of new entries cannot go.
    IsDefault,
}

/// Whether status `id` may be deleted, its entries moving to
/// `replacement_id`, while `default_id` is the default status: never onto
/// itself, and never the default status.
pub fn check_status_deletion(id: i64, replacement_id: i64, default_id: i64) -> (r: Result<(), StatusDeletionError>)
    ensures
        id == replacement_id ==> r == Err::<(), StatusDeletionError>(StatusDeletionError::SameAsReplacement),
        id != replacement_id && id == default_id ==> r == Err::<(), StatusDeletionError>(StatusDeletionError::IsDefault),
        r is Ok <==> id != replacement_id && id != default_id,
{
    if id == replacement_id {
        return Err(StatusDeletionError::SameAsReplacement);
    }
    if default_id == id {
        return Err(StatusDeletionError::IsDefault);
    }
    Ok(())
}

// ---------------------------------------------------------------------------
// Holiday import
// ---------------------------------------------------------------------------

/// A holiday, viewed: date text, name text, workday flag.
pub open spec fn holiday_view(h: Holiday) -> (Seq<char>, Seq<char>, bool) {
    (h.date@, h.name@, h.is_workday)
}

/// The holidays an import stores: those whose trimmed date reads as a date,
/// with date and name trimmed, in the order given.
pub open spec fn imported(items: Seq<(Seq<char>, Seq<char>, bool)>) -> Seq<(Seq<char>, Seq<char>, bool)>
    decreases items.len(),
{
    if items.len() == 0 {
        Seq::empty()
    } else {
        let earlier = imported(items.drop_last());
        let (date, name, workday) = items.last();
        if parsed_date(trimmed(date)) is Some {
            earlier.push((trimmed(date), trimmed(name), workday))
        } else {
            earlier
        }
    }
}

/// The holidays to store for an import, as [`imported`] says.
pub fn holidays_to_import(items: &Vec<Holiday>) -> (r: Vec<Holiday>)
    ensures
        r@.map_values(|h: Holiday| holiday_view(h)) == imported(items@.map_values(|h: Holiday| holiday_view(h))),
{
    let ghost view = items@.map_values(|h: Holiday| holiday_view(h));
    let mut out: Vec<Holiday> = Vec::new();
    let mut i: usize = 0;
    while i < items.len()
        invariant
            i <= items.len(),
            view == items@.map_values(|h: Holiday| holiday_view(h)),
            out@.map_values(|h: Holiday| holiday_view(h)) == imported(view.take(i as int)),
        decreases items.len() - i,
    {
        assert(view.take(i + 1).drop_last() =~= view.take(i as int));
        assert(view.take(i + 1).last() == holiday_view(items@[i as int]));
        let date = trim(items[i].date.as_str());
        if parse_date(date).is_some() {
            let name = trim(items[i].name.as_str());
            let h = Holiday { date: String::from_str(date), name: String::from_str(name), is_workday: items[i].is_workday };
            let ghost before = out@;
            out.push(h);
            assert(out@.map_values(|h: Holiday| holiday_view(h)) =~= before.map_values(|h: Holiday| holiday_view(h)).push(holiday_view(h)));
        }
        i = i + 1;
    }
    assert(view.take(items.len() as int) =~= view);
    out
}


/// The `LIKE` pattern that picks the holidays of one year: the year, a `-`
/// and anything after.
pub fn year_pattern(year: i32) -> (r: String)
    ensures
        r@ == decimal_text(year as int) + "-%"@,
{
    let mut pattern = decimal_string(year as i64);
    pattern.append("-%");
    pattern
}

// ---------------------------------------------------------------------------
// What a new database holds
// ---------------------------------------------------------------------------

/// A status as first stored: name, color and sort order.
pub open spec fn seed_view(s: (String, String, i64)) -> (Seq<char>, Seq<char>, int) {
    (s.0@, s.1@, s.2 as int)
}

/// The four statuses every database starts with, in their order.
pub fn builtin_statuses() -> (r: Vec<(String, String, i64)>)
    ensures
        r@.map_values(|s: (String, String, i64)| seed_view(s)) == seq![
            ("new"@, "#64748b"@, 0int),
            ("active"@, "#2563eb"@, 1int),
            ("pending"@, "#d97706"@, 2int),
            ("closed"@, "#16a34a"@, 3int),
        ],
{
    let mut out: Vec<(String, String, i64)> = Vec::new();
    out.push((String::from_str("new"), String::from_str("#64748b"), 0));
    out.push((String::from_str("active"), String::from_str("#2563eb"), 1));
    out.push((String::from_str("pending"), String::from_str("#d97706"), 2));
    out.push((String::from_str("closed"), String::from_str("#16a34a"), 3));
    assert(out@.map_values(|s: (String, String, i64)| seed_view(s)) =~= seq![
        ("new"@, "#64748b"@, 0int),
        ("active"@, "#2563eb"@, 1int),
        ("pending"@, "#d97706"@, 2int),
        ("closed"@, "#16a34a"@, 3int),
    ]);
    out
}

/// A setting as first stored: key and value.
pub open spec fn setting_view(s: (String, String)) -> (Seq<char>, Seq<char>) {
    (s.0@, s.1@)
}

/// The settings every database starts with, given the number of the `new`
/// status: it is the default status; sprints last fourteen days; the
/// reminder looks at the week; the screen is in Traditional Chinese, dark
/// and cozy.
pub fn default_settings(default_status_id: i64) -> (r: Vec<(String, String)>)
    ensures
        r@.map_values(|s: (String, String)| setting_view(s)) == seq![
            ("default_status_id"@, decimal_text(default_status_id as int)),
            ("sprint_length_days"@, "14"@),
            ("reminder_range"@, "week"@),
            ("language"@, "zh-TW"@),
            ("theme"@, "dark"@),
            ("density"@, "cozy"@),
        ],
{
    let mut out: Vec<(String, String)> = Vec::new();
    out.push((String::from_str("default_status_id"), decimal_string(default_status_id)));
    out.push((String::from_str("sprint_length_days"), String::from_str("14")));
    out.push((String::from_str("reminder_range"), String::from_str("week")));
    out.push((String::from_str("language"), String::from_str("zh-TW")));
    out.push((String::from_str("theme"), String::from_str("dark")));
    out.push((String::from_str("density"), String::from_str("cozy")));
    assert(out@.map_values(|s: (String, String)| setting_view(s)) =~= seq![
        ("default_status_id"@, decimal_text(default_status_id as int)),
        ("sprint_length_days"@, "14"@),
        ("reminder_range"@, "week"@),
        ("language"@, "zh-TW"@),
        ("theme"@, "dark"@),
        ("density"@, "cozy"@),
    ]);
    out
}

/// Whether a theme name asks for the light window frame; every other theme
/// gets the dark one.
pub fn uses_light_frame(theme: &str) -> (r: bool)
    ensures
        r == (theme@ == "light"@),
{
    same_text(theme, "light")
}

// ---------------------------------------------------------------------------
// Laws of the store's decisions
// ---------------------------------------------------------------------------

/// A sprint scope names one whole sprint: the range runs for `length_days`
/// days from the sprint's first day, every day of it lies in the numbered
/// sprint, `sprint` is the sprint that holds `today`, and `last_sprint` is
/// the one that ends the day before today's sprint starts.
pub proof fn lemma_sprint_scopes_name_whole_sprints(scope: Seq<char>, c: SprintConfig, today: int)
    requires
        scope == "sprint"@ || scope == "last_sprint"@,
        c.length_days > 0,
    ensures
        ({
            let len = c.length_days as int;
            let anchor = c.anchor_start@;
            let current = c.anchor_number + (today - anchor) / len;
            let n = if scope == "sprint"@ { current } else { current - 1 };
            &&& scope_sprint_number(scope, Some(c), today) == Some(n)
            &&& scope_range(scope, Some(c), today) matches Some((a, b))
            &&& b == a + len - 1
            &&& (forall|d: int|
                a <= d <= b ==> #[trigger] c.spec_sprint_of(d) == n && c.anchor_number + (d - anchor) / len == n)
            &&& scope == "sprint"@ ==> a <= today <= b
            &&& scope == "last_sprint"@ ==> b < today && c.anchor_number + (b + 1 - anchor) / len == current
        }),
{
    reveal_strlit("today");
    reveal_strlit("week");
    reveal_strlit("month");
    reveal_strlit("sprint");
    reveal_strlit("last_sprint");
    assert("today"@.len() != "sprint"@.len() && "today"@.len() != "last_sprint"@.len());
    assert("week"@.len() != "sprint"@.len() && "week"@.len() != "last_sprint"@.len());
    assert("month"@.len() != "sprint"@.len() && "month"@.len() != "last_sprint"@.len());
    let len = c.length_days as int;
    let anchor = c.anchor_start@;
    let an = c.anchor_number as int;
    let current = an + (today - anchor) / len;
    let n = if scope == "sprint"@ { current } else { current - 1 };
    let a = sprint_start_of(an, anchor, len, n);
    let b = a + len - 1;
    assert forall|d: int| a <= d <= b implies #[trigger] c.spec_sprint_of(d) == n && c.anchor_number + (d - anchor) / len == n by {
        lemma_range_of_days_belong_to_sprint(an, anchor, len, n, d);
    }
    lemma_day_lies_in_its_sprint(an, anchor, len, today);
    if scope == "last_sprint"@ {
        lemma_sprints_are_adjacent(an, anchor, len, n);
        lemma_range_of_days_belong_to_sprint(an, anchor, len, current, b + 1);
    }
}

/// `today` names the day itself and `week` the Monday-to-Sunday week that
/// holds it; a name that is no scope gives no range.
pub proof fn lemma_day_scopes_hold_today(scope: Seq<char>, config: Option<SprintConfig>, today: int)
    ensures
        scope == "today"@ ==> scope_range(scope, config, today) == Some((today, today)),
        scope == "week"@ ==> (scope_range(scope, config, today) matches Some((a, b)) && b == a + 6 && a <= today
            <= b && (a + 6) % 7 == 0),
        scope == "month"@ && day_in_range(today) ==> ({
            let (y, m, d) = civil_of_day(today);
            &&& scope_range(scope, config, today) matches Some((a, b))
            &&& a <= today <= b
            &&& a == day_of_civil(y, m, 1)
            &&& !(y == MAX_YEAR && m == 12) ==> b == day_of_civil(y, m, days_in_month(y, m))
            &&& y == MAX_YEAR && m == 12 ==> b == today
        }),
        !(scope == "today"@ || scope == "week"@ || scope == "month"@ || scope == "sprint"@ || scope
            == "last_sprint"@) ==> scope_range(scope, config, today) is None && scope_sprint_number(
            scope,
            config,
            today,
        ) is None,
{
    reveal_strlit("today");
    reveal_strlit("week");
    reveal_strlit("month");
    reveal_strlit("sprint");
    reveal_strlit("last_sprint");
    assert("today"@.len() != "week"@.len());
    assert("today"@[0] != "month"@[0]);
    lemma_week_runs_monday_to_sunday(today, today);
    if day_in_range(today) {
        let (y, m, d) = civil_of_day(today);
        lemma_civil_year_in_range(today);
        lemma_civil_round_trip(today);
        lemma_months_follow(y, m, d);
        lemma_months_follow(y, m, days_in_month(y, m));
    }
}

/// A stored sprint length that reads as a positive number is used as it
/// is, and so is every positive length written in decimal; only a missing,
/// unreadable or non-positive length gives fourteen days.
pub proof fn lemma_stored_sprint_length(text: Seq<char>, n: i64)
    ensures
        (parsed_i64(text) matches Some(k) && k > 0) ==> sprint_length_from(Some(text)) == parsed_i64(text)->0,
        !(parsed_i64(text) matches Some(k) && k > 0) ==> sprint_length_from(Some(text)) == 14,
        sprint_length_from(None) == 14,
        n > 0 ==> sprint_length_from(Some(decimal_text(n as int))) == n,
{
    lemma_decimal_reads_back(n);
}

/// A holiday item viewed as it is stored: date and name trimmed.
pub open spec fn trimmed_item(item: (Seq<char>, Seq<char>, bool)) -> (Seq<char>, Seq<char>, bool) {
    (trimmed(item.0), trimmed(item.1), item.2)
}

/// Whether an item's date, once trimmed, reads as a date.
pub open spec fn readable_item(item: (Seq<char>, Seq<char>, bool)) -> bool {
    parsed_date(trimmed(item.0)) is Some
}

/// An import keeps exactly the items whose trimmed date reads as a date,
/// whatever their weekday or workday flag, in the order given, trimmed.
pub proof fn lemma_import_keeps_readable_items(items: Seq<(Seq<char>, Seq<char>, bool)>)
    ensures
        imported(items) == items.filter(|x: (Seq<char>, Seq<char>, bool)| readable_item(x)).map_values(
            |x: (Seq<char>, Seq<char>, bool)| trimmed_item(x),
        ),
        imported(items).len() == items.filter(|x: (Seq<char>, Seq<char>, bool)| readable_item(x)).len(),
    decreases items.len(),
{
    let p = |x: (Seq<char>, Seq<char>, bool)| readable_item(x);
    let f = |x: (Seq<char>, Seq<char>, bool)| trimmed_item(x);
    reveal(Seq::filter);
    if items.len() > 0 {
        let rest = items.drop_last();
        let last = items.last();
        lemma_import_keeps_readable_items(rest);
        let kept = rest.filter(p);
        assert(items.filter(p) == if p(last) { kept.push(last) } else { kept });
        if p(last) {
            assert(kept.push(last).map_values(f) =~= kept.map_values(f).push(f(last)));
        }
    } else {
        assert(items.filter(p) =~= Seq::<(Seq<char>, Seq<char>, bool)>::empty());
    }
}

/// Whether a text reads as the date with day number `day` (held as an
/// `i32`).
pub open spec fn reads_as_day(text: Seq<char>, day: i32) -> bool {
    parsed_date(text) matches Some(d) && d as i32 == day
}

/// Each day of the per-day hours comes from a row for that very day, the
/// last such row; a day appears exactly when some row reads as it.
pub proof fn lemma_hours_by_day_come_from_their_rows(rows: Seq<(Seq<char>, i32)>, day: i32)
    ensures
        hours_by_day(rows).contains_key(day) <==> exists|i: int| 0 <= i < rows.len() && reads_as_day(rows[i].0, day),
        hours_by_day(rows).contains_key(day) ==> exists|i: int|
            0 <= i < rows.len() && reads_as_day(rows[i].0, day) && hours_by_day(rows)[day] == rows[i].1 && (forall|
                j: int,
            | i < j < rows.len() ==> !reads_as_day(rows[j].0, day)),
    decreases rows.len(),
{
    if rows.len() > 0 {
        let rest = rows.drop_last();
        let k = rows.len() - 1;
        lemma_hours_by_day_come_from_their_rows(rest, day);
        if reads_as_day(rows[k].0, day) {
            assert(hours_by_day(rows)[day] == rows[k].1);
        } else {
            assert(hours_by_day(rows).contains_key(day) == hours_by_day(rest).contains_key(day));
            if hours_by_day(rest).contains_key(day) {
                let i = choose|i: int|
                    0 <= i < rest.len() && reads_as_day(rest[i].0, day) && hours_by_day(rest)[day] == rest[i].1 && (forall|
                        j: int,
                    | i < j < rest.len() ==> !reads_as_day(rest[j].0, day));
                assert(rows[i] == rest[i]);
                assert forall|j: int| i < j < rows.len() implies !reads_as_day(rows[j].0, day) by {
                    if j < rest.len() {
                        assert(rows[j] == rest[j]);
                    }
                }
            }
            assert((exists|i: int| 0 <= i < rows.len() && reads_as_day(rows[i].0, day)) ==> (exists|i: int|
                0 <= i < rest.len() && reads_as_day(rest[i].0, day))) by {
                if exists|i: int| 0 <= i < rows.len() && reads_as_day(rows[i].0, day) {
                    let i = choose|i: int| 0 <= i < rows.len() && reads_as_day(rows[i].0, day);
                    assert(rest[i] == rows[i]);
                }
            }
            if exists|i: int| 0 <= i < rest.len() && reads_as_day(rest[i].0, day) {
                let i = choose|i: int| 0 <= i < rest.len() && reads_as_day(rest[i].0, day);
                assert(rows[i] == rest[i]);
            }
        }
    }
}

/// A day is a holiday (or a make-up day) exactly when some row with that
/// flag reads as it.
pub proof fn lemma_marked_days_come_from_their_rows(rows: Seq<(Seq<char>, bool)>, workday: bool, day: i32)
    ensures
        marked_days(rows, workday).contains(day) <==> exists|i: int|
            0 <= i < rows.len() && rows[i].1 == workday && reads_as_day(rows[i].0, day),
    decreases rows.len(),
{
    if rows.len() > 0 {
        let rest = rows.drop_last();
        let k = rows.len() - 1;
        lemma_marked_days_come_from_their_rows(rest, workday, day);
        if exists|i: int| 0 <= i < rest.len() && rest[i].1 == workday && reads_as_day(rest[i].0, day) {
            let i = choose|i: int| 0 <= i < rest.len() && rest[i].1 == workday && reads_as_day(rest[i].0, day);
            assert(rows[i] == rest[i]);
        }
        if exists|i: int| 0 <= i < rows.len() && rows[i].1 == workday && reads_as_day(rows[i].0, day) {
            let i = choose|i: int| 0 <= i < rows.len() && rows[i].1 == workday && reads_as_day(rows[i].0, day);
            if i < k {
                assert(rest[i] == rows[i]);
            }
        }
    }
}

/// An hours report covers the scope's range where the scope gives one;
/// otherwise the custom dates where both read as dates; otherwise the
/// Monday-to-Sunday week that holds today.
pub proof fn lemma_report_range_choice(
    from: Option<Date>,
    to: Option<Date>,
    custom_from: Seq<char>,
    custom_to: Seq<char>,
    today: int,
)
    ensures
        ({
            let r = report_range_of(from, to, custom_from, custom_to, today);
            let cf = parsed_date(trimmed(custom_from));
            let ct = parsed_date(trimmed(custom_to));
            &&& from is Some && to is Some ==> r == (from->0@, to->0@)
            &&& !(from is Some && to is Some) && cf is Some && ct is Some ==> r == (cf->0, ct->0)
            &&& !(from is Some && to is Some) && !(cf is Some && ct is Some) ==> r.1 == r.0 + 6 && r.0 <= today
                <= r.1 && (r.0 + 6) % 7 == 0
        }),
{
    lemma_week_runs_monday_to_sunday(today, today);
}

/// The stored records are viewed field by field, rows one for one, and a
/// date is shown as `chrono` writes it, or as nothing where there is none.
pub proof fn lemma_views_are_fields(
    holiday: Holiday,
    status: (String, String, i64),
    setting: (String, String),
    flags: Seq<(String, bool)>,
    hours: Seq<(String, i32)>,
    date: Date,
)
    ensures
        date_text(Some(date)) == formatted_date(date@),
        date_text(None) == Seq::<char>::empty(),
        holiday_view(holiday) == (holiday.date@, holiday.name@, holiday.is_workday),
        seed_view(status) == (status.0@, status.1@, status.2 as int),
        setting_view(setting) == (setting.0@, setting.1@),
        flag_rows(flags).len() == flags.len(),
        forall|i: int| 0 <= i < flags.len() ==> #[trigger] flag_rows(flags)[i] == (flags[i].0@, flags[i].1),
        hour_rows(hours).len() == hours.len(),
        forall|i: int| 0 <= i < hours.len() ==> #[trigger] hour_rows(hours)[i] == (hours[i].0@, hours[i].1),
{
}

} // verus!
