//! The request facade: checks that each request carries its payload, hands
//! it to the store, and reports failures as RPC statuses.

use crate::error::{Error, RpcCode, RpcStatus};
use crate::manager::{
    confirm_applies, confirmed, has_id, reserve_conflicts, reserve_stores, spec_query, stored_form,
    with_note, ReservationManager,
};
use crate::pager::spec_page;
use crate::query::{FilterPager, ReservationFilter, ReservationQuery};
use crate::reservation::Reservation;
use vstd::prelude::*;

verus! {

pub struct ReserveRequest {
    pub reservation: Option<Reservation>,
}

pub struct ReserveResponse {
    pub reservation: Option<Reservation>,
}

pub struct ConfirmRequest {
    pub id: i64,
}

pub struct ConfirmResponse {
    pub reservation: Option<Reservation>,
}

pub struct UpdateRequest {
    pub id: i64,
    pub note: String,
}

pub struct UpdateResponse {
    pub reservation: Option<Reservation>,
}

pub struct CancelRequest {
    pub id: i64,
}

pub struct CancelResponse {
    pub reservation: Option<Reservation>,
}

pub struct GetRequest {
    pub id: i64,
}

pub struct GetResponse {
    pub reservation: Option<Reservation>,
}

pub struct QueryRequest {
    pub query: Option<ReservationQuery>,
}

pub struct FilterRequest {
    pub filter: Option<ReservationFilter>,
}

pub struct FilterResponse {
    pub reservation: Vec<Reservation>,
    pub pager: Option<FilterPager>,
}

/// The reservation service over a store.
pub struct RsvpService {
    manager: ReservationManager,
}

/// The status for an error of the store.
fn status_of(e: Error) -> (s: RpcStatus)
    ensures
        s.code == e.spec_rpc_code(),
{
    e.to_status()
}

impl RsvpService {
    pub closed spec fn store(&self) -> ReservationManager {
        self.manager
    }

    pub open spec fn wf(&self) -> bool {
        self.store().wf()
    }

    pub fn new(manager: ReservationManager) -> (r: RsvpService)
        requires
            manager.wf(),
        ensures
            r.wf(),
            r.store() == manager,
    {
        RsvpService { manager }
    }

    /// Reserves the reservation that the request carries.
    pub fn reserve(&mut self, request: ReserveRequest) -> (r: Result<ReserveResponse, RpcStatus>)
        requires
            old(self).wf(),
        ensures
            final(self).wf(),
            request.reservation is None ==> (r matches Err(s) && s.code == RpcCode::InvalidArgument
                && final(self).store() == old(self).store()),
            request.reservation matches Some(rsvp) ==> {
                let rows = old(self).store().rows();
                let last = old(self).store().last_id();
                &&& rsvp.user_id@.len() == 0 ==> (r matches Err(s) && s.code == RpcCode::InvalidArgument)
                &&& rsvp.user_id@.len() > 0 && rsvp.spec_timespan() is None ==> (r matches Err(s) && s.code
                    == RpcCode::InvalidArgument)
                &&& reserve_conflicts(rows, rsvp) ==> (r matches Err(s) && s.code == RpcCode::AlreadyExists)
                &&& reserve_stores(rows, last, rsvp) ==> (r matches Ok(resp) && resp.reservation == Some(
                    stored_form(rsvp, (last + 1) as i64),
                ) && final(self).store().rows() == rows.push(stored_form(rsvp, (last + 1) as i64)))
                &&& !reserve_stores(rows, last, rsvp) ==> (r is Err && final(self).store().rows() == rows)
            },
    {
        match request.reservation {
            Some(rsvp) => match self.manager.reserve(rsvp) {
                Ok(x) => Ok(ReserveResponse { reservation: Some(x) }),
                Err(e) => Err(status_of(e)),
            },
            None => Err(RpcStatus::new(RpcCode::InvalidArgument, "Invalid reservation")),
        }
    }

    /// Confirms the pending reservation with the request's id.
    pub fn confirm(&mut self, request: ConfirmRequest) -> (r: Result<ConfirmResponse, RpcStatus>)
        requires
            old(self).wf(),
        ensures
            final(self).wf(),
            forall|i: int| 0 <= i < old(self).store().rows().len() && (#[trigger] old(self).store().rows()[i]).id
                == request.id && old(self).store().rows()[i].status == 1 ==> (r matches Ok(resp)
                && resp.reservation == Some(confirmed(old(self).store().rows()[i])) && final(self).store().rows()
                == old(self).store().rows().update(i, confirmed(old(self).store().rows()[i]))),
            !confirm_applies(old(self).store().rows(), request.id) ==> (r matches Err(s) && s.code
                == RpcCode::NotFound && final(self).store().rows() == old(self).store().rows()),
    {
        match self.manager.change_status(request.id) {
            Ok(x) => Ok(ConfirmResponse { reservation: Some(x) }),
            Err(e) => Err(status_of(e)),
        }
    }

    /// Replaces the note of the reservation with the request's id.
    pub fn update(&mut self, request: UpdateRequest) -> (r: Result<UpdateResponse, RpcStatus>)
        requires
            old(self).wf(),
        ensures
            final(self).wf(),
            forall|i: int| 0 <= i < old(self).store().rows().len() && (#[trigger] old(self).store().rows()[i]).id
                == request.id ==> (r matches Ok(resp) && resp.reservation == Some(
                with_note(old(self).store().rows()[i], request.note),
            )),
            !has_id(old(self).store().rows(), request.id) ==> (r matches Err(s) && s.code == RpcCode::NotFound),
    {
        match self.manager.update_notes(request.id, request.note) {
            Ok(x) => Ok(UpdateResponse { reservation: Some(x) }),
            Err(e) => Err(status_of(e)),
        }
    }

    /// Cancels the reservation with the request's id: it leaves the store,
    /// and the response holds it as it was.
    pub fn cancel(&mut self, request: CancelRequest) -> (r: Result<CancelResponse, RpcStatus>)
        requires
            old(self).wf(),
        ensures
            final(self).wf(),
            forall|i: int| 0 <= i < old(self).store().rows().len() && (#[trigger] old(self).store().rows()[i]).id
                == request.id ==> (r matches Ok(resp) && resp.reservation == Some(old(self).store().rows()[i])
                && final(self).store().rows() == old(self).store().rows().remove(i)),
            !has_id(old(self).store().rows(), request.id) ==> (r matches Err(s) && s.code == RpcCode::NotFound
                && final(self).store().rows() == old(self).store().rows()),
    {
        let held = match self.manager.get(request.id) {
            Ok(x) => x,
            Err(e) => return Err(status_of(e)),
        };
        match self.manager.delete(request.id) {
            Ok(()) => Ok(CancelResponse { reservation: Some(held) }),
            Err(e) => Err(status_of(e)),
        }
    }

    /// The reservation with the request's id.
    pub fn get(&self, request: GetRequest) -> (r: Result<GetResponse, RpcStatus>)
        requires
            self.wf(),
        ensures
            forall|i: int| 0 <= i < self.store().rows().len() && (#[trigger] self.store().rows()[i]).id
                == request.id ==> (r matches Ok(resp) && resp.reservation == Some(self.store().rows()[i])),
            !has_id(self.store().rows(), request.id) ==> (r matches Err(s) && s.code == RpcCode::NotFound),
    {
        match self.manager.get(request.id) {
            Ok(x) => Ok(GetResponse { reservation: Some(x) }),
            Err(e) => Err(status_of(e)),
        }
    }

    /// The items that a query streams, in order.
    pub fn query(&self, request: QueryRequest) -> (r: Result<Vec<Reservation>, RpcStatus>)
        requires
            self.wf(),
        ensures
            request.query is None ==> (r matches Err(s) && s.code == RpcCode::InvalidArgument),
            request.query matches Some(q) ==> (q.spec_timespan() is None ==> (r matches Err(s) && s.code
                == RpcCode::InvalidArgument)) && (q.spec_timespan() matches Some(range) ==> (r matches Ok(v)
                && v@ == spec_query(self.store().rows(), q, range))),
    {
        let q = match request.query {
            Some(q) => q,
            None => return Err(RpcStatus::new(RpcCode::InvalidArgument, "Invalid query")),
        };
        match self.manager.query(&q) {
            Ok(v) => Ok(v),
            Err(e) => Err(status_of(e)),
        }
    }

    /// One page of a filter, with its pager.
    pub fn filter(&self, request: FilterRequest) -> (r: Result<FilterResponse, RpcStatus>)
        requires
            self.wf(),
        ensures
            request.filter is None ==> (r matches Err(s) && s.code == RpcCode::InvalidArgument),
            request.filter matches Some(f) ==> (r matches Ok(resp) && resp.pager == Some(
                spec_page(self.store().rows(), f).0,
            ) && resp.reservation@ == spec_page(self.store().rows(), f).1),
    {
        let f = match request.filter {
            Some(f) => f,
            None => return Err(RpcStatus::new(RpcCode::InvalidArgument, "Invalid filter")),
        };
        match self.manager.filter(&f) {
            Ok((pager, v)) => Ok(FilterResponse { reservation: v, pager: Some(pager) }),
            Err(e) => Err(status_of(e)),
        }
    }
}

} // verus!
