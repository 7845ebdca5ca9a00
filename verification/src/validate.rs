//! Checks on what the screen sends before it is stored, with the messages
//! the screen shows when a check fails.

use vstd::prelude::*;
use crate::dates::{parse_date, parsed_date};
use crate::text::{trim, trimmed};

verus! {

/// The trimmed text, or `message` where nothing is left once trimmed.
fn non_blank(value: &str, message: &str) -> (r: Result<String, String>)
    ensures
        match r {
            Ok(t) => t@ == trimmed(value@) && t@.len() > 0,
            Err(e) => trimmed(value@).len() == 0 && e@ == message@,
        },
{
    let t = trim(value);
    if t.is_empty() {
        Err(String::from_str(message))
    } else {
        Ok(String::from_str(t))
    }
}

/// The name of a new user, trimmed; refused where it is blank.
pub fn user_name(name: &str) -> (r: Result<String, String>)
    ensures
        match r {
            Ok(t) => t@ == trimmed(name@) && t@.len() > 0,
            Err(e) => trimmed(name@).len() == 0 && e@ == "使用者名稱不可空白"@,
        },
{
    non_blank(name, "使用者名稱不可空白")
}

/// The name of a new status, trimmed; refused where it is blank.
pub fn status_name(name: &str) -> (r: Result<String, String>)
    ensures
        match r {
            Ok(t) => t@ == trimmed(name@) && t@.len() > 0,
            Err(e) => trimmed(name@).len() == 0 && e@ == "狀態名稱不可空白"@,
        },
{
    non_blank(name, "狀態名稱不可空白")
}

/// A new database path, trimmed; refused where it is blank.
pub fn db_path(path: &str) -> (r: Result<String, String>)
    ensures
        match r {
            Ok(t) => t@ == trimmed(path@) && t@.len() > 0,
            Err(e) => trimmed(path@).len() == 0 && e@ == "資料庫路徑不可空白"@,
        },
{
    non_blank(path, "資料庫路徑不可空白")
}

/// `Ok` where the trimmed text reads as a date, otherwise `message`.
fn date_field(value: &str, message: &str) -> (r: Result<(), String>)
    ensures
        match r {
            Ok(_) => parsed_date(trimmed(value@)) is Some,
            Err(e) => parsed_date(trimmed(value@)) is None && e@ == message@,
        },
{
    match parse_date(trim(value)) {
        Some(_) => Ok(()),
        None => Err(String::from_str(message)),
    }
}

/// An entry may be saved when its title is not blank and its work date
/// reads as a date; the title is checked first.
pub fn check_entry(title: &str, work_date: &str) -> (r: Result<(), String>)
    ensures
        trimmed(title@).len() == 0 ==> (r matches Err(e) && e@ == "標題不可空白"@),
        trimmed(title@).len() > 0 && parsed_date(trimmed(work_date@)) is None ==> (r matches Err(e)
            && e@ == "工作日期格式需為 yyyy-MM-dd"@),
        r is Ok <==> trimmed(title@).len() > 0 && parsed_date(trimmed(work_date@)) is Some,
{
    if trim(title).is_empty() {
        return Err(String::from_str("標題不可空白"));
    }
    date_field(work_date, "工作日期格式需為 yyyy-MM-dd")
}

/// A holiday may be saved when its date reads as a date.
pub fn check_holiday_date(date: &str) -> (r: Result<(), String>)
    ensures
        match r {
            Ok(_) => parsed_date(trimmed(date@)) is Some,
            Err(e) => parsed_date(trimmed(date@)) is None && e@ == "假日日期格式需為 yyyy-MM-dd"@,
        },
{
    date_field(date, "假日日期格式需為 yyyy-MM-dd")
}

/// A leave may be saved when its date reads as a date.
pub fn check_leave_date(date: &str) -> (r: Result<(), String>)
    ensures
        match r {
            Ok(_) => parsed_date(trimmed(date@)) is Some,
            Err(e) => parsed_date(trimmed(date@)) is None && e@ == "請假日期格式需為 yyyy-MM-dd"@,
        },
{
    date_field(date, "請假日期格式需為 yyyy-MM-dd")
}

} // verus!
