//! The persisted record shapes: projects, groups, and the timestamps they
//! carry.

use vstd::prelude::*;

verus! {

/// A calendar timestamp in UTC with nanosecond precision, held as plain
/// calendar components so that every rule about it can be stated directly.
#[derive(Clone, Copy, PartialEq, Eq, Structural, Debug)]
pub struct Timestamp {
    /// Proleptic Gregorian year, `-9999..=9999`.
    pub year: i32,
    /// Month of the year, `1..=12`.
    pub month: u8,
    /// Day of the month, `1..=days_in_month(year, month)`.
    pub day: u8,
    /// Hour of the day, `0..=23`.
    pub hour: u8,
    /// Minute of the hour, `0..=59`.
    pub minute: u8,
    /// Second of the minute, `0..=59`.
    pub second: u8,
    /// Nanoseconds within the second, `0..=999_999_999`.
    pub nanosecond: u32,
}

/// Whether `year` is a leap year in the proleptic Gregorian calendar.
pub open spec fn spec_is_leap_year(year: int) -> bool {
    year % 4 == 0 && (year % 100 != 0 || year % 400 == 0)
}

/// Number of days in `month` of `year`.
pub open spec fn spec_days_in_month(year: int, month: int) -> int {
    if month == 2 {
        if spec_is_leap_year(year) {
            29
        } else {
            28
        }
    } else if month == 4 || month == 6 || month == 9 || month == 11 {
        30
    } else {
        31
    }
}

/// Whether `year` is a leap year in the proleptic Gregorian calendar.
pub fn is_leap_year(year: i32) -> (r: bool)
    ensures
        r == spec_is_leap_year(year as int),
{
    year % 4 == 0 && (year % 100 != 0 || year % 400 == 0)
}

/// Number of days in `month` of `year`.
pub fn days_in_month(year: i32, month: u8) -> (r: u8)
    ensures
        r as int == spec_days_in_month(year as int, month as int),
{
    if month == 2 {
        if is_leap_year(year) {
            29
        } else {
            28
        }
    } else if month == 4 || month == 6 || month == 9 || month == 11 {
        30
    } else {
        31
    }
}

impl Timestamp {
    /// A well-formed timestamp: every component within its calendar range.
    pub open spec fn wf(self) -> bool {
        &&& -9999 <= self.year <= 9999
        &&& 1 <= self.month <= 12
        &&& 1 <= self.day <= spec_days_in_month(self.year as int, self.month as int)
        &&& self.hour < 24
        &&& self.minute < 60
        &&& self.second < 60
        &&& self.nanosecond < 1_000_000_000
    }
}

/// The mathematical shape of a [`Project`]: the same fields with the name as
/// a character sequence.
pub ghost struct ProjectV {
    pub id: u64,
    pub name: Seq<char>,
    pub created_at: Timestamp,
    pub updated_at: Timestamp,
    pub is_active: bool,
    pub archived_at: Option<Timestamp>,
}

/// One persisted project record.
///
/// Identifiers are assigned by the store: the record at zero-based position
/// `k` of the storage document always carries `id == k + 1`, and `0` is never
/// a valid identifier.
#[derive(Clone, Debug)]
pub struct Project {
    pub id: u64,
    pub name: String,
    pub created_at: Timestamp,
    pub updated_at: Timestamp,
    pub is_active: bool,
    pub archived_at: Option<Timestamp>,
}

impl View for Project {
    type V = ProjectV;

    open spec fn view(&self) -> ProjectV {
        ProjectV {
            id: self.id,
            name: self.name@,
            created_at: self.created_at,
            updated_at: self.updated_at,
            is_active: self.is_active,
            archived_at: self.archived_at,
        }
    }
}

impl Project {
    /// A copy of the record, equal to it in every field.
    pub fn duplicate(&self) -> (r: Project)
        ensures
            r@ == self@,
    {
        Project {
            id: self.id,
            name: self.name.clone(),
            created_at: self.created_at,
            updated_at: self.updated_at,
            is_active: self.is_active,
            archived_at: self.archived_at,
        }
    }
}

impl PartialEq for Project {
    fn eq(&self, other: &Project) -> (r: bool) {
        let archived_eq = match (&self.archived_at, &other.archived_at) {
            (Option::None, Option::None) => true,
            (Option::Some(a), Option::Some(b)) => *a == *b,
            _ => false,
        };
        self.id == other.id && self.name == other.name && self.created_at == other.created_at
            && self.updated_at == other.updated_at && self.is_active == other.is_active
            && archived_eq
    }
}

impl vstd::std_specs::cmp::PartialEqSpecImpl for Project {
    open spec fn obeys_eq_spec() -> bool {
        true
    }

    open spec fn eq_spec(&self, other: &Project) -> bool {
        self@ == other@
    }
}

/// One group record within a project.  The group subsystem is a stub: records
/// are produced with fixed placement data and are not persisted.
#[derive(Clone, Debug)]
pub struct Group {
    pub id: u64,
    pub name: String,
    pub position: u64,
    pub is_opened: bool,
    pub project_id: u64,
}

/// The mathematical shape of a [`Group`].
pub ghost struct GroupV {
    pub id: u64,
    pub name: Seq<char>,
    pub position: u64,
    pub is_opened: bool,
    pub project_id: u64,
}

impl View for Group {
    type V = GroupV;

    open spec fn view(&self) -> GroupV {
        GroupV {
            id: self.id,
            name: self.name@,
            position: self.position,
            is_opened: self.is_opened,
            project_id: self.project_id,
        }
    }
}

impl PartialEq for Group {
    fn eq(&self, other: &Group) -> (r: bool) {
        self.id == other.id && self.name == other.name && self.position == other.position
            && self.is_opened == other.is_opened && self.project_id == other.project_id
    }
}

impl vstd::std_specs::cmp::PartialEqSpecImpl for Group {
    open spec fn obeys_eq_spec() -> bool {
        true
    }

    open spec fn eq_spec(&self, other: &Group) -> bool {
        self@ == other@
    }
}

} // verus!
