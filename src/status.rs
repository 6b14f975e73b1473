//! The status of a reservation, its wire code and its name in storage.

use crate::text::same_text;
use vstd::prelude::*;

verus! {

/// `Unknown` is the zero value; in queries it stands for any status.
#[derive(Clone, Copy, Debug, PartialEq, Eq, Structural)]
pub enum ReservationStatus {
    Unknown,
    Pending,
    Confirmed,
    Blocked,
}

impl ReservationStatus {
    pub open spec fn spec_code(self) -> i32 {
        match self {
            ReservationStatus::Unknown => 0,
            ReservationStatus::Pending => 1,
            ReservationStatus::Confirmed => 2,
            ReservationStatus::Blocked => 3,
        }
    }

    pub open spec fn spec_from_code(v: i32) -> Option<ReservationStatus> {
        if v == 0 {
            Some(ReservationStatus::Unknown)
        } else if v == 1 {
            Some(ReservationStatus::Pending)
        } else if v == 2 {
            Some(ReservationStatus::Confirmed)
        } else if v == 3 {
            Some(ReservationStatus::Blocked)
        } else {
            None
        }
    }

    pub open spec fn spec_name(self) -> Seq<char> {
        match self {
            ReservationStatus::Unknown => "unknown"@,
            ReservationStatus::Pending => "pending"@,
            ReservationStatus::Confirmed => "confirmed"@,
            ReservationStatus::Blocked => "blocked"@,
        }
    }

    /// The wire value of the status.
    pub fn code(&self) -> (r: i32)
        ensures
            r == self.spec_code(),
    {
        match self {
            ReservationStatus::Unknown => 0,
            ReservationStatus::Pending => 1,
            ReservationStatus::Confirmed => 2,
            ReservationStatus::Blocked => 3,
        }
    }

    /// The status with that wire value, if there is one.
    pub fn from_code(v: i32) -> (r: Option<ReservationStatus>)
        ensures
            r == Self::spec_from_code(v),
            r matches Some(s) ==> s.spec_code() == v,
    {
        if v == 0 {
            Some(ReservationStatus::Unknown)
        } else if v == 1 {
            Some(ReservationStatus::Pending)
        } else if v == 2 {
            Some(ReservationStatus::Confirmed)
        } else if v == 3 {
            Some(ReservationStatus::Blocked)
        } else {
            None
        }
    }

    /// The name of the status in storage.
    pub fn as_str(&self) -> (r: &'static str)
        ensures
            r@ == self.spec_name(),
    {
        match self {
            ReservationStatus::Unknown => "unknown",
            ReservationStatus::Pending => "pending",
            ReservationStatus::Confirmed => "confirmed",
            ReservationStatus::Blocked => "blocked",
        }
    }

    /// The status that storage names `s`, if any.
    pub fn from_name(s: &str) -> (r: Option<ReservationStatus>)
        ensures
            r matches Some(st) ==> st.spec_name() == s@,
            r is None ==> forall|st: ReservationStatus| st.spec_name() != s@,
    {
        if same_text(s, "pending") {
            Some(ReservationStatus::Pending)
        } else if same_text(s, "confirmed") {
            Some(ReservationStatus::Confirmed)
        } else if same_text(s, "blocked") {
            Some(ReservationStatus::Blocked)
        } else if same_text(s, "unknown") {
            Some(ReservationStatus::Unknown)
        } else {
            None
        }
    }
}

/// The status a new reservation is stored with: a wire value that names
/// `Unknown` or no status at all becomes `Pending`.
pub open spec fn spec_insert_status(v: i32) -> ReservationStatus {
    match ReservationStatus::spec_from_code(v) {
        Some(ReservationStatus::Unknown) | None => ReservationStatus::Pending,
        Some(s) => s,
    }
}

/// The status a query selects by: a wire value that names no status is the
/// wildcard `Unknown`.
pub open spec fn spec_query_status(v: i32) -> ReservationStatus {
    match ReservationStatus::spec_from_code(v) {
        Some(s) => s,
        None => ReservationStatus::Unknown,
    }
}

pub fn insert_status(v: i32) -> (r: ReservationStatus)
    ensures
        r == spec_insert_status(v),
{
    match ReservationStatus::from_code(v) {
        Some(ReservationStatus::Unknown) | None => ReservationStatus::Pending,
        Some(s) => s,
    }
}

pub fn query_status(v: i32) -> (r: ReservationStatus)
    ensures
        r == spec_query_status(v),
{
    match ReservationStatus::from_code(v) {
        Some(s) => s,
        None => ReservationStatus::Unknown,
    }
}

} // verus!
