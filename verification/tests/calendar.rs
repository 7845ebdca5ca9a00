use std::collections::{HashMap, HashSet};

use worklog::calendar::{month_range, summarize, week_range, Calendar, SprintConfig};
use worklog::dates::{format_date, parse_date, Date, MAX_DAY, MIN_DAY};

fn date(value: &str) -> Date {
    parse_date(value).unwrap()
}

/// Hours as the library holds them: hundredths of an hour.
fn centi(hours: f64) -> i32 {
    (hours * 100.0).round() as i32
}

fn config() -> SprintConfig {
    SprintConfig {
        anchor_number: 12,
        anchor_start: date("2026-09-01"),
        length_days: 14,
    }
}

fn days(values: &[&str]) -> HashSet<i32> {
    values.iter().map(|value| date(value).days()).collect()
}

fn cal(holidays: &[&str], workdays: &[&str]) -> Calendar {
    Calendar {
        holidays: days(holidays),
        extra_workdays: days(workdays),
    }
}

fn hours_map(items: &[(&str, f64)]) -> HashMap<i32, i32> {
    items.iter().map(|(day, hours)| (date(day).days(), centi(*hours))).collect()
}

#[test]
fn sprint_of_anchor_day_is_anchor_number() {
    assert_eq!(config().sprint_of(date("2026-09-01")), 12);
}

#[test]
fn sprint_of_last_day_stays_in_same_sprint() {
    assert_eq!(config().sprint_of(date("2026-09-14")), 12);
}

#[test]
fn sprint_of_next_day_rolls_over() {
    assert_eq!(config().sprint_of(date("2026-09-15")), 13);
}

#[test]
fn sprint_of_date_before_anchor_goes_backwards() {
    assert_eq!(config().sprint_of(date("2026-08-31")), 11);
    assert_eq!(config().sprint_of(date("2026-08-19")), 11);
    assert_eq!(config().sprint_of(date("2026-08-18")), 11);
    assert_eq!(config().sprint_of(date("2026-08-17")), 10);
    assert_eq!(config().sprint_of(date("2026-08-04")), 10);
}

#[test]
fn range_of_returns_inclusive_bounds() {
    let (start, end) = config().range_of(13);
    assert_eq!(start, date("2026-09-15"));
    assert_eq!(end, date("2026-09-28"));
}

#[test]
fn sprint_of_and_range_of_are_consistent() {
    let cfg = config();
    for number in [9, 10, 12, 15, 30] {
        let (start, end) = cfg.range_of(number);
        assert_eq!(cfg.sprint_of(start), number);
        assert_eq!(cfg.sprint_of(end), number);
    }
}

#[test]
fn week_range_runs_monday_to_sunday() {
    let (start, end) = week_range(date("2026-09-18"));
    assert_eq!(start, date("2026-09-14"));
    assert_eq!(end, date("2026-09-20"));
}

#[test]
fn week_range_on_sunday_keeps_that_week() {
    let (start, end) = week_range(date("2026-09-20"));
    assert_eq!(start, date("2026-09-14"));
    assert_eq!(end, date("2026-09-20"));
}

#[test]
fn month_range_covers_whole_month() {
    let (start, end) = month_range(date("2026-02-10"));
    assert_eq!(start, date("2026-02-01"));
    assert_eq!(end, date("2026-02-28"));
}

#[test]
fn month_range_handles_december() {
    let (start, end) = month_range(date("2026-12-05"));
    assert_eq!(start, date("2026-12-01"));
    assert_eq!(end, date("2026-12-31"));
}

#[test]
fn weekend_is_not_a_workday() {
    let calendar = Calendar::default();
    assert!(!calendar.is_workday(date("2026-09-19")));
    assert!(!calendar.is_workday(date("2026-09-20")));
    assert!(calendar.is_workday(date("2026-09-18")));
}

#[test]
fn holiday_is_not_a_workday() {
    let calendar = cal(&["2026-09-18"], &[]);
    assert!(!calendar.is_workday(date("2026-09-18")));
}

#[test]
fn make_up_day_turns_a_weekend_into_a_workday() {
    let calendar = cal(&[], &["2025-02-08"]);
    assert!(calendar.is_workday(date("2025-02-08")));
}

#[test]
fn make_up_day_wins_over_holiday_on_the_same_date() {
    let calendar = cal(&["2025-02-08"], &["2025-02-08"]);
    assert!(calendar.is_workday(date("2025-02-08")));
}

#[test]
fn required_hours_is_zero_on_weekend() {
    let required = Calendar::default().required_hours(date("2026-09-19"), centi(8.0), &HashMap::new());
    assert_eq!(required, centi(0.0) as i64);
}

#[test]
fn make_up_day_requires_a_full_day() {
    let calendar = cal(&[], &["2025-02-08"]);
    let required = calendar.required_hours(date("2025-02-08"), centi(8.0), &HashMap::new());
    assert_eq!(required, centi(8.0) as i64);
}

#[test]
fn leave_reduces_required_hours() {
    let leaves = hours_map(&[("2026-09-18", 4.0)]);
    let required = Calendar::default().required_hours(date("2026-09-18"), centi(8.0), &leaves);
    assert_eq!(required, centi(4.0) as i64);
}

#[test]
fn leave_longer_than_required_clamps_to_zero() {
    let leaves = hours_map(&[("2026-09-18", 10.0)]);
    let required = Calendar::default().required_hours(date("2026-09-18"), centi(8.0), &leaves);
    assert_eq!(required, centi(0.0) as i64);
}

#[test]
fn leave_on_a_make_up_day_is_deducted() {
    let calendar = cal(&[], &["2025-02-08"]);
    let leaves = hours_map(&[("2025-02-08", 4.0)]);
    let required = calendar.required_hours(date("2025-02-08"), centi(8.0), &leaves);
    assert_eq!(required, centi(4.0) as i64);
}

#[test]
fn summarize_reports_shortfall() {
    let filled = hours_map(&[("2026-09-14", 8.0), ("2026-09-15", 3.5)]);
    let summary = summarize(
        date("2026-09-14"),
        date("2026-09-18"),
        centi(8.0),
        &Calendar::default(),
        &HashMap::new(),
        &filled,
    );
    assert_eq!(summary.required, centi(40.0) as i64);
    assert_eq!(summary.filled, centi(11.5) as i64);
    assert_eq!(summary.diff, centi(-28.5) as i64);
}

#[test]
fn summarize_reports_exact_match() {
    let filled = hours_map(&[("2026-09-14", 8.0), ("2026-09-15", 8.0)]);
    let summary = summarize(
        date("2026-09-14"),
        date("2026-09-15"),
        centi(8.0),
        &Calendar::default(),
        &HashMap::new(),
        &filled,
    );
    assert_eq!(summary.diff, centi(0.0) as i64);
}

#[test]
fn summarize_reports_overtime() {
    let filled = hours_map(&[("2026-09-14", 11.0)]);
    let summary = summarize(
        date("2026-09-14"),
        date("2026-09-14"),
        centi(8.0),
        &Calendar::default(),
        &HashMap::new(),
        &filled,
    );
    assert_eq!(summary.diff, centi(3.0) as i64);
}

#[test]
fn summarize_skips_weekend_and_holiday() {
    let summary = summarize(
        date("2026-09-14"),
        date("2026-09-20"),
        centi(8.0),
        &cal(&["2026-09-18"], &[]),
        &HashMap::new(),
        &HashMap::new(),
    );
    assert_eq!(summary.required, centi(32.0) as i64);
}

#[test]
fn summarize_counts_hours_logged_on_a_holiday() {
    let filled = hours_map(&[("2026-09-18", 5.0)]);
    let summary = summarize(
        date("2026-09-18"),
        date("2026-09-18"),
        centi(8.0),
        &cal(&["2026-09-18"], &[]),
        &HashMap::new(),
        &filled,
    );
    assert_eq!(summary.required, centi(0.0) as i64);
    assert_eq!(summary.filled, centi(5.0) as i64);
    assert_eq!(summary.diff, centi(5.0) as i64);
}

// Further cases.

#[test]
fn dates_read_and_write_back() {
    let d = date("2026-09-14");
    assert_eq!(d.days(), 739873);
    assert_eq!(format_date(d), "2026-09-14");
    assert_eq!(format_date(date("0001-01-01")), "0001-01-01");
    assert_eq!(date("0001-01-01").days(), 1);
}

#[test]
fn malformed_dates_do_not_read() {
    assert!(parse_date("2026-02-30").is_none());
    assert!(parse_date("2026/09/14").is_none());
    assert!(parse_date("").is_none());
    assert!(parse_date("tomorrow").is_none());
}

#[test]
fn weekday_counts_from_monday() {
    assert_eq!(date("2026-09-14").weekday_from_monday(), 0);
    assert_eq!(date("2026-09-20").weekday_from_monday(), 6);
    assert_eq!(date("0001-01-01").weekday_from_monday(), 0);
    assert_eq!(date("1969-12-31").weekday_from_monday(), 2);
}

#[test]
fn every_day_of_a_week_has_the_same_week() {
    let expected = (date("2026-09-14"), date("2026-09-20"));
    for day in ["2026-09-14", "2026-09-15", "2026-09-16", "2026-09-17", "2026-09-18", "2026-09-19", "2026-09-20"] {
        assert_eq!(week_range(date(day)), expected);
    }
    assert_ne!(week_range(date("2026-09-21")), expected);
}

#[test]
fn month_range_handles_leap_february() {
    let (start, end) = month_range(date("2028-02-29"));
    assert_eq!(start, date("2028-02-01"));
    assert_eq!(end, date("2028-02-29"));
}

#[test]
fn sprints_follow_each_other_without_gap() {
    let cfg = config();
    for number in [-3, 0, 11, 12, 13, 40] {
        let (_, end) = cfg.range_of(number);
        let (next_start, _) = cfg.range_of(number + 1);
        assert_eq!(end.add_days(1), next_start);
    }
}

#[test]
fn sprint_range_fits_checks_the_date_range() {
    let cfg = config();
    assert!(cfg.range_fits(13));
    assert!(!cfg.range_fits(i64::MAX));
    let no_length = SprintConfig { length_days: 0, ..config() };
    assert!(!no_length.range_fits(13));
}

#[test]
fn negative_sprint_length_counts_backwards() {
    let cfg = SprintConfig { length_days: -7, ..config() };
    assert_eq!(cfg.sprint_of(date("2026-09-01")), 12);
    assert_eq!(cfg.sprint_of(date("2026-09-02")), 12);
    assert_eq!(cfg.sprint_of(date("2026-08-31")), 13);
}

#[test]
fn summaries_of_adjoining_spans_add_up() {
    let filled = hours_map(&[("2026-09-14", 2.5), ("2026-09-17", 6.0), ("2026-09-22", 1.0)]);
    let leaves = hours_map(&[("2026-09-16", 3.0)]);
    let calendar = cal(&["2026-09-18"], &["2026-09-19"]);
    let whole = summarize(date("2026-09-14"), date("2026-09-25"), centi(7.5), &calendar, &leaves, &filled);
    let first = summarize(date("2026-09-14"), date("2026-09-19"), centi(7.5), &calendar, &leaves, &filled);
    let second = summarize(date("2026-09-20"), date("2026-09-25"), centi(7.5), &calendar, &leaves, &filled);
    assert_eq!(whole.required, first.required + second.required);
    assert_eq!(whole.filled, first.filled + second.filled);
    assert_eq!(whole.required, centi(7.5 * 3.0 + 4.5 + 7.5 + 7.5 * 5.0) as i64);
}

#[test]
fn summarize_over_an_empty_span_is_zero() {
    let summary = summarize(
        date("2026-09-20"),
        date("2026-09-14"),
        centi(8.0),
        &Calendar::default(),
        &HashMap::new(),
        &HashMap::new(),
    );
    assert_eq!((summary.required, summary.filled, summary.diff), (0, 0, 0));
}

#[test]
fn the_earliest_and_latest_dates_can_be_written() {
    assert!(Date::from_days(MIN_DAY - 1).is_none());
    assert!(Date::from_days(MAX_DAY + 1).is_none());
    let first = Date::from_days(MIN_DAY).unwrap();
    let last = Date::from_days(MAX_DAY).unwrap();
    assert_eq!(format_date(first), "-262143-01-01");
    assert_eq!(format_date(last), "+262142-12-31");
    let (start, end) = month_range(first);
    assert_eq!((start.days(), end.days()), (MIN_DAY, MIN_DAY + 30));
    let (start, end) = month_range(last);
    assert_eq!((start.days(), end.days()), (MAX_DAY - 30, MAX_DAY));
    assert_eq!(parse_date("0001-01-01").unwrap().days(), 1);
}

#[test]
fn short_and_negative_years_are_padded_to_four_digits() {
    assert_eq!(format_date(date("0005-03-07")), "0005-03-07");
    assert_eq!(format_date(date("2026-01-09")), "2026-01-09");
    let before_year_one = Date::from_days(-1).unwrap();
    assert_eq!(format_date(before_year_one), "0000-12-30");
    let far_back = Date::from_days(-1828).unwrap();
    assert_eq!(format_date(far_back), "-0005-12-30");
}
