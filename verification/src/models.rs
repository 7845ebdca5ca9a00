//! The records that pass between the store, the query builder and the screen.
//!
//! Hours are held in hundredths of an hour.

use vstd::prelude::*;

verus! {

/// A status that an entry can be in.
#[derive(Clone, Debug, PartialEq)]
pub struct Status {
    pub id: i64,
    pub name: String,
    pub color: String,
    pub is_builtin: bool,
    pub sort_order: i64,
}

/// A short reference to an entry, as shown in lists of related entries.
#[derive(Clone, Debug, PartialEq)]
pub struct EntryRef {
    pub id: i64,
    pub title: String,
    pub ticket: String,
    pub work_date: String,
    pub status_name: String,
    pub status_color: String,
    pub updated_at: String,
}

/// Whose entries a search looks at.
#[derive(Clone, Copy, Debug, PartialEq, Eq, Structural)]
pub enum UserFilter {
    /// Everyone's, and entries without an owner.
    Any,
    /// Only entries without an owner.
    Unowned,
    /// Only the entries of one user.
    One,
}

/// The conditions of an entry search. Blank texts mean "no condition".
#[derive(Clone, Debug)]
pub struct EntryQuery {
    pub keyword: String,
    pub date_from: String,
    pub date_to: String,
    pub status_ids: Vec<i64>,
    pub user_filter: UserFilter,
    pub user_id: Option<i64>,
}

impl Default for EntryQuery {
    fn default() -> (r: EntryQuery)
        ensures
            r.keyword@ == Seq::<char>::empty(),
            r.date_from@ == Seq::<char>::empty(),
            r.date_to@ == Seq::<char>::empty(),
            r.status_ids@ == Seq::<i64>::empty(),
            r.user_filter == UserFilter::Any,
            r.user_id is None,
    {
        EntryQuery {
            keyword: String::new(),
            date_from: String::new(),
            date_to: String::new(),
            status_ids: Vec::new(),
            user_filter: UserFilter::Any,
            user_id: None,
        }
    }
}

/// A holiday or, when `is_workday` is set, a make-up workday.
#[derive(Clone, Debug, PartialEq)]
pub struct Holiday {
    pub date: String,
    pub name: String,
    pub is_workday: bool,
}

/// The sprint settings as stored.
#[derive(Clone, Debug, PartialEq)]
pub struct SprintSettings {
    pub anchor_number: Option<i64>,
    pub anchor_start_date: Option<String>,
    pub length_days: i64,
}

/// A range of dates chosen by a scope name, as the screen shows it: dates as
/// `yyyy-MM-dd`, empty where the scope gives no range.
#[derive(Clone, Debug, PartialEq)]
pub struct RangeDto {
    pub scope: String,
    pub sprint_number: Option<i64>,
    pub date_from: String,
    pub date_to: String,
}

/// Required and filled hours of a user over a range, in hundredths of an
/// hour; `has_user` is false where no user was chosen.
#[derive(Clone, Debug, PartialEq)]
pub struct HoursReport {
    pub scope: String,
    pub sprint_number: Option<i64>,
    pub date_from: String,
    pub date_to: String,
    pub required: i64,
    pub filled: i64,
    pub diff: i64,
    pub has_user: bool,
}

} // verus!
