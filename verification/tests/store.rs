use std::collections::HashMap;

use worklog::dates::{parse_date, Date};
use worklog::groups::{dissolve_writes, link_writes, unlink_writes, GroupWrite};
use worklog::links::groups_from_links;
use worklog::models::Holiday;
use worklog::store::{
    builtin_statuses, can_resolve_range, check_status_deletion, configured_status_id,
    default_settings, holidays_to_import, hours_report, range_dto, report_range, report_range_checked, resolve_range,
    sprint_config, sprint_settings, uses_light_frame, year_pattern, ResolvedRange,
    StatusDeletionError,
};
use worklog::tray::{paint_hands, paint_white, ICON_BYTES};
use worklog::validate::{check_entry, check_holiday_date, check_leave_date, db_path, status_name, user_name};

fn date(value: &str) -> Date {
    parse_date(value).unwrap()
}

fn centi(hours: f64) -> i32 {
    (hours * 100.0).round() as i32
}

fn text(value: &str) -> Option<String> {
    Some(value.to_string())
}

/// The group numbers of some stored entries, and the writes applied to
/// them the way the store applies them.
struct Groups(HashMap<i64, Option<i64>>);

impl Groups {
    fn new(ids: &[i64]) -> Groups {
        Groups(ids.iter().map(|id| (*id, None)).collect())
    }

    fn group_of(&self, id: i64) -> Option<i64> {
        self.0.get(&id).copied().flatten()
    }

    fn max_group(&self) -> i64 {
        self.0.values().flatten().copied().max().unwrap_or(0)
    }

    fn count(&self, group: i64) -> i64 {
        self.0.values().filter(|g| **g == Some(group)).count() as i64
    }

    fn apply(&mut self, writes: &[GroupWrite]) {
        for write in writes {
            match *write {
                GroupWrite::SetGroup { id, group } => {
                    if let Some(slot) = self.0.get_mut(&id) {
                        *slot = group;
                    }
                }
                GroupWrite::MoveGroup { from, to } => {
                    for slot in self.0.values_mut() {
                        if *slot == Some(from) {
                            *slot = to;
                        }
                    }
                }
            }
        }
    }

    fn link(&mut self, a: i64, b: i64) {
        let writes = link_writes(a, b, self.group_of(a), self.group_of(b), self.max_group());
        self.apply(&writes);
    }

    fn unlink(&mut self, id: i64) {
        let group = self.group_of(id);
        self.apply(&unlink_writes(id, group));
        if let Some(g) = group {
            let remaining = self.count(g);
            self.apply(&dissolve_writes(g, remaining));
        }
    }

    fn delete(&mut self, id: i64) {
        let group = self.group_of(id);
        self.0.remove(&id);
        if let Some(g) = group {
            let remaining = self.count(g);
            self.apply(&dissolve_writes(g, remaining));
        }
    }

    fn related(&self, id: i64) -> Vec<i64> {
        let mut out: Vec<i64> = match self.group_of(id) {
            Some(g) => self.0.iter().filter(|(other, group)| **other != id && **group == Some(g)).map(|(other, _)| *other).collect(),
            None => Vec::new(),
        };
        out.sort();
        out
    }
}

fn configured() -> Option<worklog::calendar::SprintConfig> {
    sprint_config(&sprint_settings(text("12"), text("2026-09-01"), text("14")))
}

#[test]
fn the_default_status_cannot_be_deleted() {
    let new_id = 1;
    let closed = 4;
    assert!(check_status_deletion(new_id, closed, new_id).is_err());
    assert_eq!(check_status_deletion(new_id, closed, new_id), Err(StatusDeletionError::IsDefault));
}

#[test]
fn linking_puts_both_entries_in_one_group() {
    let mut groups = Groups::new(&[1, 2]);
    groups.link(1, 2);
    assert_eq!(groups.related(1), vec![2]);
    assert_eq!(groups.related(2), vec![1]);
}

#[test]
fn a_third_entry_joins_the_existing_group() {
    let mut groups = Groups::new(&[1, 2, 3]);
    groups.link(1, 2);
    groups.link(2, 3);
    for id in [1, 2, 3] {
        assert_eq!(groups.related(id).len(), 2);
    }
}

#[test]
fn linking_two_groups_merges_them() {
    let mut groups = Groups::new(&[1, 2, 3, 4]);
    groups.link(1, 2);
    groups.link(3, 4);
    groups.link(1, 3);
    for id in [1, 2, 3, 4] {
        assert_eq!(groups.related(id).len(), 3);
    }
}

#[test]
fn unlinking_removes_only_that_entry_from_the_group() {
    let mut groups = Groups::new(&[1, 2, 3]);
    groups.link(1, 2);
    groups.link(2, 3);
    groups.unlink(2);
    assert!(groups.related(2).is_empty());
    assert_eq!(groups.related(1), vec![3]);
}

#[test]
fn a_group_left_with_one_member_dissolves() {
    let mut groups = Groups::new(&[1, 2]);
    groups.link(1, 2);
    groups.unlink(2);
    assert_eq!(groups.group_of(1), None);
}

#[test]
fn deleting_an_entry_dissolves_a_two_member_group() {
    let mut groups = Groups::new(&[1, 2]);
    groups.link(1, 2);
    groups.delete(2);
    assert!(groups.related(1).is_empty());
    assert_eq!(groups.group_of(1), None);
}

#[test]
fn hours_report_without_a_user_reports_no_user() {
    let today = date("2026-09-18");
    let resolved = resolve_range("week", None, today);
    let (from, to) = report_range(&resolved, "", "", today);
    let report = hours_report(resolved, from, to, None, None, &Vec::new(), &Vec::new(), &Vec::new());
    assert!(!report.has_user);
    assert_eq!(report.required, 0);
}

#[test]
fn the_last_dates_are_reported_without_a_user() {
    let last = Date::from_days(worklog::dates::MAX_DAY).unwrap();
    let resolved = resolve_range("custom", None, last);
    assert_eq!(report_range_checked(&resolved, "", "", last), None);
    let (from, to) = report_range_checked(&resolved, "+262142-12-30", "+262142-12-31", last).unwrap();
    assert_eq!(to, last);
    let report = hours_report(resolved, from, to, None, None, &Vec::new(), &Vec::new(), &Vec::new());
    assert!(!report.has_user);
    assert_eq!(report.date_to, "+262142-12-31");
    assert_eq!((report.required, report.filled, report.diff), (0, 0, 0));
}

fn custom_report(
    holidays: Vec<(String, bool)>,
    leaves: Vec<(String, i32)>,
    filled: Vec<(String, i32)>,
) -> worklog::models::HoursReport {
    let today = date("2026-09-18");
    let resolved = resolve_range("custom", None, today);
    let (from, to) = report_range(&resolved, "2026-09-14", "2026-09-14", today);
    hours_report(resolved, from, to, Some(1), Some(centi(8.0)), &holidays, &leaves, &filled)
}

#[test]
fn hours_report_counts_every_status() {
    let report = custom_report(Vec::new(), Vec::new(), vec![("2026-09-14".to_string(), centi(8.0))]);
    assert_eq!(report.filled, centi(8.0) as i64);
    assert_eq!(report.required, centi(8.0) as i64);
    assert_eq!(report.diff, 0);
}

#[test]
fn hours_report_subtracts_leave_from_required() {
    let report = custom_report(
        Vec::new(),
        vec![("2026-09-14".to_string(), centi(4.0))],
        vec![("2026-09-14".to_string(), centi(4.0))],
    );
    assert_eq!(report.required, centi(4.0) as i64);
    assert_eq!(report.diff, 0);
}

#[test]
fn hours_report_ignores_holidays_in_required() {
    let report = custom_report(vec![("2026-09-14".to_string(), false)], Vec::new(), Vec::new());
    assert_eq!(report.required, 0);
}

#[test]
fn resolve_range_falls_back_when_sprint_is_not_configured() {
    let config = sprint_config(&sprint_settings(None, None, text("14")));
    let today = date("2026-09-18");
    let resolved = resolve_range("sprint", config, today);
    assert!(resolved.from.is_none());
    assert!(resolved.sprint_number.is_none());
}

#[test]
fn resolve_range_uses_the_configured_sprint_anchor() {
    let today = date("2026-09-18");
    let resolved = resolve_range("sprint", configured(), today);
    assert_eq!(resolved.sprint_number, Some(13));
    assert_eq!(resolved.from, parse_date("2026-09-15"));
    assert_eq!(resolved.to, parse_date("2026-09-28"));

    let previous = resolve_range("last_sprint", configured(), today);
    assert_eq!(previous.sprint_number, Some(12));
    assert_eq!(previous.from, parse_date("2026-09-01"));
}

#[test]
fn seeds_four_builtin_statuses() {
    let statuses = builtin_statuses();
    assert_eq!(statuses.len(), 4);
    let names: Vec<&str> = statuses.iter().map(|s| s.0.as_str()).collect();
    assert_eq!(names, vec!["new", "active", "pending", "closed"]);
}

#[test]
fn default_status_points_to_new() {
    let settings = default_settings(7);
    assert_eq!(settings[0], ("default_status_id".to_string(), "7".to_string()));
    assert_eq!(configured_status_id(Some(settings[0].1.clone())), Some(7));
}

#[test]
fn migration_upgrades_a_v2_database_and_converts_links_to_groups() {
    let assigned = groups_from_links(&vec![(1, 2), (2, 3)]);
    let group_of = |id: i64| -> Option<i64> { assigned.iter().find(|(member, _)| *member == id).map(|(_, g)| *g) };
    let first = group_of(1).expect("1 should have a group");
    assert_eq!(group_of(2), Some(first));
    assert_eq!(group_of(3), Some(first));
    assert_eq!(group_of(4), None);
}

// Further cases.

#[test]
fn separate_link_chains_get_separate_groups() {
    let assigned = groups_from_links(&vec![(1, 2), (5, 6), (2, 3), (6, 7), (7, 5)]);
    let group_of = |id: i64| -> Option<i64> { assigned.iter().find(|(member, _)| *member == id).map(|(_, g)| *g) };
    let a = group_of(1).unwrap();
    let b = group_of(5).unwrap();
    assert_ne!(a, b);
    assert_eq!(group_of(3), Some(a));
    assert_eq!(group_of(7), Some(b));
    assert_eq!(assigned.len(), 6);
    assert!(assigned.iter().all(|(_, g)| *g >= 1));
}

#[test]
fn a_link_to_itself_makes_no_group() {
    assert!(groups_from_links(&vec![(4, 4)]).is_empty());
    assert!(groups_from_links(&Vec::new()).is_empty());
}

#[test]
fn each_linked_entry_is_grouped_once() {
    let assigned = groups_from_links(&vec![(4, 4), (4, 5), (5, 4), (8, 9), (9, 8), (4, 5)]);
    let mut members: Vec<i64> = assigned.iter().map(|(member, _)| *member).collect();
    members.sort();
    assert_eq!(members, vec![4, 5, 8, 9]);
    let group_of = |id: i64| -> i64 { assigned.iter().find(|(member, _)| *member == id).map(|(_, g)| *g).unwrap() };
    assert_eq!(group_of(4), group_of(5));
    assert_eq!(group_of(8), group_of(9));
    assert_ne!(group_of(4), group_of(8));
}

#[test]
fn linking_an_entry_to_itself_writes_nothing() {
    assert!(link_writes(3, 3, None, None, 0).is_empty());
    assert!(link_writes(3, 4, Some(2), Some(2), 5).is_empty());
    assert_eq!(
        link_writes(3, 4, None, None, 5),
        vec![GroupWrite::SetGroup { id: 3, group: Some(6) }, GroupWrite::SetGroup { id: 4, group: Some(6) }]
    );
    assert_eq!(link_writes(3, 4, Some(1), Some(2), 5), vec![GroupWrite::MoveGroup { from: 2, to: Some(1) }]);
}

#[test]
fn status_deletion_onto_itself_is_refused() {
    assert_eq!(check_status_deletion(2, 2, 1), Err(StatusDeletionError::SameAsReplacement));
    assert_eq!(check_status_deletion(2, 3, 1), Ok(()));
}

#[test]
fn sprint_settings_fall_back_to_fourteen_days() {
    assert_eq!(sprint_settings(None, None, None).length_days, 14);
    assert_eq!(sprint_settings(None, None, text("0")).length_days, 14);
    assert_eq!(sprint_settings(None, None, text("-3")).length_days, 14);
    assert_eq!(sprint_settings(None, None, text("x")).length_days, 14);
    assert_eq!(sprint_settings(None, None, text("+21")).length_days, 21);
    let settings = sprint_settings(text("12"), text(""), text("14"));
    assert_eq!(settings.anchor_number, Some(12));
    assert_eq!(settings.anchor_start_date, None);
    assert!(sprint_config(&settings).is_none());
    assert!(sprint_config(&sprint_settings(text("12"), text("2026-13-01"), None)).is_none());
}

#[test]
fn whole_numbers_read_as_std_reads_them() {
    assert_eq!(configured_status_id(text("42")), Some(42));
    assert_eq!(configured_status_id(text("-42")), Some(-42));
    assert_eq!(configured_status_id(text("+7")), Some(7));
    assert_eq!(configured_status_id(text(" 7")), None);
    assert_eq!(configured_status_id(text("")), None);
    assert_eq!(configured_status_id(text("-")), None);
    assert_eq!(configured_status_id(text("9223372036854775808")), None);
    assert_eq!(configured_status_id(text("-9223372036854775808")), Some(i64::MIN));
}

#[test]
fn other_scopes_resolve_as_named() {
    let today = date("2026-09-18");
    let day = resolve_range("today", None, today);
    assert_eq!((day.from, day.to), (Some(today), Some(today)));
    let month = resolve_range("month", None, today);
    assert_eq!((month.from, month.to), (parse_date("2026-09-01"), parse_date("2026-09-30")));
    let other = resolve_range("custom", configured(), today);
    assert!(other.from.is_none() && other.to.is_none() && other.sprint_number.is_none());
    let dto = range_dto(resolve_range("week", None, today));
    assert_eq!(dto.date_from, "2026-09-14");
    assert_eq!(dto.date_to, "2026-09-20");
    let empty = range_dto(resolve_range("custom", None, today));
    assert_eq!((empty.date_from.as_str(), empty.date_to.as_str()), ("", ""));
    assert!(can_resolve_range("sprint", configured(), today));
}

#[test]
fn report_range_prefers_scope_then_custom_then_week() {
    let today = date("2026-09-18");
    let week = resolve_range("week", None, today);
    assert_eq!(report_range(&week, "2026-01-01", "2026-01-02", today), (date("2026-09-14"), date("2026-09-20")));
    let none = ResolvedRange { scope: "custom".to_string(), sprint_number: None, from: None, to: None };
    assert_eq!(report_range(&none, " 2026-01-01 ", "2026-01-02", today), (date("2026-01-01"), date("2026-01-02")));
    assert_eq!(report_range(&none, "2026-01-01", "", today), (date("2026-09-14"), date("2026-09-20")));
}

#[test]
fn hours_report_uses_eight_hours_when_the_user_is_unknown() {
    let today = date("2026-09-18");
    let resolved = resolve_range("week", None, today);
    let (from, to) = report_range(&resolved, "", "", today);
    let report = hours_report(
        resolved,
        from,
        to,
        Some(9),
        None,
        &vec![("2026-09-19".to_string(), true), ("not a date".to_string(), false)],
        &Vec::new(),
        &vec![("2026-09-15".to_string(), centi(2.0))],
    );
    assert!(report.has_user);
    assert_eq!(report.required, centi(48.0) as i64);
    assert_eq!(report.filled, centi(2.0) as i64);
    assert_eq!(report.diff, centi(-46.0) as i64);
    assert_eq!(report.date_from, "2026-09-14");
    assert_eq!(report.date_to, "2026-09-20");
    assert_eq!(report.scope, "week");
}

#[test]
fn holiday_import_keeps_readable_dates_trimmed() {
    let items = vec![
        Holiday { date: " 2026-01-01 ".to_string(), name: " 開國紀念日 ".to_string(), is_workday: false },
        Holiday { date: "2026/01/02".to_string(), name: "bad".to_string(), is_workday: false },
        Holiday { date: "2026-02-07".to_string(), name: "補班".to_string(), is_workday: true },
    ];
    let stored = holidays_to_import(&items);
    assert_eq!(
        stored,
        vec![
            Holiday { date: "2026-01-01".to_string(), name: "開國紀念日".to_string(), is_workday: false },
            Holiday { date: "2026-02-07".to_string(), name: "補班".to_string(), is_workday: true },
        ]
    );
    assert_eq!(year_pattern(2026), "2026-%");
}

#[test]
fn numbers_are_written_in_decimal_and_read_back() {
    assert_eq!(year_pattern(-5), "-5-%");
    assert_eq!(year_pattern(0), "0-%");
    for id in [0i64, 9, 10, 1234567, -1, i64::MAX, i64::MIN] {
        let settings = default_settings(id);
        assert_eq!(settings[0].1, id.to_string());
        assert_eq!(configured_status_id(Some(settings[0].1.clone())), Some(id));
    }
}

#[test]
fn blank_names_and_bad_dates_are_refused() {
    assert_eq!(user_name("  amanda "), Ok("amanda".to_string()));
    assert_eq!(user_name("   "), Err("使用者名稱不可空白".to_string()));
    assert_eq!(status_name(""), Err("狀態名稱不可空白".to_string()));
    assert_eq!(db_path(" "), Err("資料庫路徑不可空白".to_string()));
    assert_eq!(check_entry(" ", "2026-09-18"), Err("標題不可空白".to_string()));
    assert_eq!(check_entry("寫報告", "2026-9-99"), Err("工作日期格式需為 yyyy-MM-dd".to_string()));
    assert_eq!(check_entry("寫報告", " 2026-09-18 "), Ok(()));
    assert_eq!(check_holiday_date("x"), Err("假日日期格式需為 yyyy-MM-dd".to_string()));
    assert_eq!(check_leave_date("2026-09-18"), Ok(()));
    assert!(uses_light_frame("light"));
    assert!(!uses_light_frame("blue"));
}

#[test]
fn a_pixel_can_be_painted_in_a_small_buffer() {
    let mut data = vec![3u8; 10];
    paint_white(&mut data, 1, 0);
    assert_eq!(data, vec![3, 3, 3, 3, 0xff, 0xff, 0xff, 0xff, 3, 3]);
}

#[test]
fn clock_hands_are_painted_white() {
    let mut data = vec![7u8; ICON_BYTES];
    paint_hands(&mut data);
    let pixel = |x: usize, y: usize| data[(y * 32 + x) * 4];
    assert_eq!(pixel(15, 9), 0xff);
    assert_eq!(pixel(16, 16), 0xff);
    assert_eq!(pixel(22, 15), 0xff);
    assert_eq!(pixel(23, 15), 7);
    assert_eq!(pixel(15, 17), 7);
    assert_eq!(pixel(0, 0), 7);
    assert_eq!(data.iter().filter(|b| **b == 0xff).count(), (16 + 14) * 4 - 2 * 4);
    let mut single = vec![0u8; ICON_BYTES];
    paint_white(&mut single, 1, 0);
    assert_eq!(&single[0..8], &[0, 0, 0, 0, 255, 255, 255, 255]);
}
