//! The reservation entity and its validation.

use crate::error::Error;
use crate::time::{precedes, Timestamp};
use vstd::prelude::*;

verus! {

/// User `user_id` holds `resource_id` over `[start, end)`. An `id` of 0
/// means that the reservation is not stored yet; `status` is the wire code
/// of a `ReservationStatus`.
#[derive(Clone, Debug, PartialEq, Eq)]
pub struct Reservation {
    pub id: i64,
    pub user_id: String,
    pub resource_id: String,
    pub status: i32,
    pub start: Option<Timestamp>,
    pub end: Option<Timestamp>,
    pub note: String,
}

/// A half-open interval `[start, end)` with `start` before `end`.
#[derive(Clone, Copy, Debug, PartialEq, Eq, Structural)]
pub struct Timespan {
    pub start: Timestamp,
    pub end: Timestamp,
}

impl Reservation {
    /// A pending reservation that is not stored yet.
    pub fn new_pendding(
        user_id: &str,
        resource_id: &str,
        start: Timestamp,
        end: Timestamp,
        note: &str,
    ) -> (r: Reservation)
        ensures
            r.id == 0,
            r.user_id@ == user_id@,
            r.resource_id@ == resource_id@,
            r.status == 1,
            r.start == Some(start),
            r.end == Some(end),
            r.note@ == note@,
    {
        Reservation {
            id: 0,
            user_id: user_id.to_owned(),
            resource_id: resource_id.to_owned(),
            status: 1,
            start: Some(start),
            end: Some(end),
            note: note.to_owned(),
        }
    }

    /// Fails with `InvalidUserId` when the user id is empty.
    pub fn validate(&self) -> (r: Result<(), Error>)
        ensures
            r is Ok <==> self.user_id@.len() > 0,
            r matches Err(e) ==> e is InvalidUserId,
    {
        if self.user_id.as_str().unicode_len() == 0 {
            return Err(Error::InvalidUserId);
        }
        Ok(())
    }

    /// The interval, when both ends are present and the start comes first.
    pub open spec fn spec_timespan(&self) -> Option<Timespan> {
        match (self.start, self.end) {
            (Some(s), Some(e)) => if precedes(s, e) {
                Some(Timespan { start: s, end: e })
            } else {
                None
            },
            _ => None,
        }
    }

    /// The interval; `InvalidTimespan` when an end is missing or the start
    /// does not come before the end.
    pub fn timespan(&self) -> (r: Result<Timespan, Error>)
        ensures
            r matches Ok(t) ==> self.spec_timespan() == Some(t),
            r matches Err(e) ==> self.spec_timespan() is None && e is InvalidTimespan,
    {
        match (self.start, self.end) {
            (Some(s), Some(e)) => if s.is_before(&e) {
                Ok(Timespan { start: s, end: e })
            } else {
                Err(Error::InvalidTimespan)
            },
            _ => Err(Error::InvalidTimespan),
        }
    }

    /// A copy equal to `self`.
    pub fn duplicate(&self) -> (r: Reservation)
        ensures
            r == *self,
    {
        Reservation {
            id: self.id,
            user_id: self.user_id.clone(),
            resource_id: self.resource_id.clone(),
            status: self.status,
            start: self.start,
            end: self.end,
            note: self.note.clone(),
        }
    }
}

} // verus!
