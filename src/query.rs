//! Query and filter requests, the pager, and which stored rows they select.

use crate::error::Error;
use crate::reservation::Reservation;
use crate::status::{spec_query_status, ReservationStatus};
use crate::time::{precedes, Timestamp};
use vstd::prelude::*;

verus! {

/// Reservations by user, resource, interval and status, one page at a time.
/// An empty string is the same as no string.
#[derive(Clone, Debug, PartialEq, Eq)]
pub struct ReservationQuery {
    pub user_id: Option<String>,
    pub resource_id: Option<String>,
    pub start: Option<Timestamp>,
    pub end: Option<Timestamp>,
    pub status: i32,
    pub page: i32,
    pub page_size: i32,
    pub is_desc: bool,
}

/// An interval that may be open on either side.
#[derive(Clone, Copy, Debug, PartialEq, Eq, Structural)]
pub struct TimeRange {
    pub start: Option<Timestamp>,
    pub end: Option<Timestamp>,
}

/// The interval `r` shares an instant with `[s, e)`.
pub open spec fn range_meets(r: TimeRange, s: Timestamp, e: Timestamp) -> bool {
    (r.start matches Some(a) ==> precedes(a, e)) && (r.end matches Some(b) ==> precedes(s, b))
}

impl ReservationQuery {
    pub open spec fn spec_timespan(&self) -> Option<TimeRange> {
        match (self.start, self.end) {
            (None, None) => None,
            (Some(s), Some(e)) => if precedes(s, e) {
                Some(TimeRange { start: Some(s), end: Some(e) })
            } else {
                None
            },
            (s, e) => Some(TimeRange { start: s, end: e }),
        }
    }

    /// The interval of the query; one side may be open. `InvalidTimespan`
    /// when both are open, or when both are given and the start does not
    /// come first.
    pub fn timespan(&self) -> (r: Result<TimeRange, Error>)
        ensures
            r matches Ok(t) ==> self.spec_timespan() == Some(t),
            r matches Err(e) ==> self.spec_timespan() is None && e is InvalidTimespan,
    {
        match (self.start, self.end) {
            (None, None) => Err(Error::InvalidTimespan),
            (Some(s), Some(e)) => if s.is_before(&e) {
                Ok(TimeRange { start: Some(s), end: Some(e) })
            } else {
                Err(Error::InvalidTimespan)
            },
            (s, e) => Ok(TimeRange { start: s, end: e }),
        }
    }
}

impl Default for ReservationQuery {
    /// No filter, any status, the first page of ten, in ascending order.
    fn default() -> (r: ReservationQuery)
        ensures
            r.user_id is None && r.resource_id is None && r.start is None && r.end is None,
            r.status == 0 && r.page == 1 && r.page_size == 10 && !r.is_desc,
    {
        ReservationQuery {
            user_id: None,
            resource_id: None,
            start: None,
            end: None,
            status: 0,
            page: 1,
            page_size: 10,
            is_desc: false,
        }
    }
}

/// Reservations by user, resource and status, paged by a cursor on ids.
/// A `cursor` of 0 starts from the edge.
#[derive(Clone, Debug, PartialEq, Eq)]
pub struct ReservationFilter {
    pub user_id: Option<String>,
    pub resource_id: Option<String>,
    pub status: i32,
    pub cursor: i64,
    pub page_size: i32,
    pub is_desc: bool,
    pub is_prev: bool,
}

impl Default for ReservationFilter {
    /// No filter, any status, from the edge, pages of ten, ascending.
    fn default() -> (r: ReservationFilter)
        ensures
            r.user_id is None && r.resource_id is None,
            r.status == 0 && r.cursor == 0 && r.page_size == 10 && !r.is_desc && !r.is_prev,
    {
        ReservationFilter {
            user_id: None,
            resource_id: None,
            status: 0,
            cursor: 0,
            page_size: 10,
            is_desc: false,
            is_prev: false,
        }
    }
}

/// The cursors of the neighbouring pages, when there are any.
#[derive(Clone, Copy, Debug, PartialEq, Eq, Structural)]
pub struct FilterPager {
    pub prev: Option<i64>,
    pub next: Option<i64>,
}

/// The string asked for, unless it is absent or empty.
pub open spec fn wanted(o: Option<String>) -> Option<Seq<char>> {
    match o {
        Some(s) => if s@.len() > 0 { Some(s@) } else { None },
        None => None,
    }
}

pub open spec fn text_matches(want: Option<Seq<char>>, have: Seq<char>) -> bool {
    want matches Some(w) ==> w == have
}

pub open spec fn status_matches(want: ReservationStatus, have: i32) -> bool {
    want is Unknown || want.spec_code() == have
}

/// The pages have this many rows: a size below one means ten.
pub open spec fn spec_page_size(page_size: i32) -> int {
    if page_size < 1 { 10 } else { page_size as int }
}

pub fn page_size_of(page_size: i32) -> (r: i32)
    ensures
        r == spec_page_size(page_size),
        r >= 1,
{
    if page_size < 1 { 10 } else { page_size }
}

impl ReservationFilter {
    /// The row is one that the filter selects, cursor aside.
    pub open spec fn selects(&self, r: Reservation) -> bool {
        &&& text_matches(wanted(self.user_id), r.user_id@)
        &&& text_matches(wanted(self.resource_id), r.resource_id@)
        &&& status_matches(spec_query_status(self.status), r.status)
    }
}

impl ReservationQuery {
    /// The row is one that the query selects, paging aside.
    pub open spec fn selects(&self, range: TimeRange, r: Reservation) -> bool {
        &&& text_matches(wanted(self.user_id), r.user_id@)
        &&& text_matches(wanted(self.resource_id), r.resource_id@)
        &&& status_matches(spec_query_status(self.status), r.status)
        &&& r.start matches Some(s) && r.end matches Some(e) && range_meets(range, s, e)
    }
}

} // verus!
