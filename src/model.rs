use vstd::prelude::*;

verus! {

/// When a person can attend: `{am: true, pm: true}` is "any",
/// `{am: true, pm: false}` morning only, `{am: false, pm: true}` afternoon only.
#[derive(Debug, Clone, Copy, PartialEq, Eq, Structural)]
pub struct Availability {
    pub am: bool,
    pub pm: bool,
}

impl Availability {
    pub fn am_only() -> (r: Availability)
        ensures
            r == (Availability { am: true, pm: false }),
    {
        Availability { am: true, pm: false }
    }

    pub fn pm_only() -> (r: Availability)
        ensures
            r == (Availability { am: false, pm: true }),
    {
        Availability { am: false, pm: true }
    }

    pub fn any() -> (r: Availability)
        ensures
            r == (Availability { am: true, pm: true }),
    {
        Availability { am: true, pm: true }
    }
}

/// The two populations that are balanced: candidates come in pairs,
/// examiners one per station.
#[derive(Debug, Clone, Copy, PartialEq, Eq, Structural)]
pub enum PeopleType {
    Candidate,
    Examiner,
}

/// When a run starts: before noon, or at or after noon.
#[derive(Debug, Clone, Copy, PartialEq, Eq, Structural)]
pub enum RunTime {
    AM,
    PM,
}

/// A candidate: assigned in pairs, two per station.
#[derive(Debug, Clone)]
pub struct Candidate {
    pub id: u128,
    pub session_id: u128,
    pub first_name: String,
    pub last_name: String,
    /// A stable textual identifier, which partner preferences name.
    pub shortcode: String,
    /// Takes part in female-only circuits only.
    pub female_only: bool,
    /// The shortcode of the preferred partner, if any.
    pub partner_pref: Option<String>,
    pub checked_in: bool,
    pub am: bool,
    pub pm: bool,
}

/// An examiner: one per station.
#[derive(Debug, Clone)]
pub struct Examiner {
    pub id: u128,
    pub session_id: u128,
    pub first_name: String,
    pub last_name: String,
    pub shortcode: String,
    pub female: bool,
    pub am: bool,
    pub pm: bool,
    pub checked_in: bool,
}

/// A station: one position within a circuit, the same in every circuit of a
/// slot.
#[derive(Debug, Clone)]
pub struct Station {
    pub id: u128,
    pub session_id: u128,
    pub title: String,
    pub index: i16,
    /// The station's duration, as months, days and microseconds.
    pub duration_months: i32,
    pub duration_days: i32,
    pub duration_microseconds: i64,
}

/// A circuit: one parallel set of stations within a slot.
#[derive(Debug, Clone)]
pub struct Circuit {
    pub id: u128,
    pub session_id: u128,
    pub slot_id: u128,
    pub key: String,
    /// Only female-only candidates and female examiners may be placed here.
    pub female_only: bool,
    pub current_rotation: Option<i16>,
    pub status: String,
    pub feedback: bool,
    pub intermission: bool,
}

/// A circuit to create: its letter and whether it is female-only.
#[derive(Debug, Clone)]
pub struct CircuitPayload {
    pub key: String,
    pub female_only: bool,
}

/// One examiner row of an uploaded sheet.
#[derive(Debug, Clone)]
pub struct ExaminerExcel {
    pub first_name: String,
    pub last_name: String,
    pub shortcode: String,
    pub female: bool,
    pub am: bool,
    pub pm: bool,
}

/// A page of a listing: offset, row count and optional sort.
#[derive(Debug, Clone)]
pub struct PaginationParams {
    pub first: i64,
    pub rows: i64,
    pub sort_field: Option<String>,
    /// 1 for ascending, -1 for descending.
    pub sort_order: Option<i32>,
}

} // verus!
