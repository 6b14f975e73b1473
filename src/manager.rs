//! An in-memory reservation store that keeps the persistence contract: an
//! exclusion check on `(resource_id, timespan)`, ids assigned in insertion
//! order, a conditional confirm, cursor filtering and paged queries.

use crate::conflict::{describe_conflict, ReservationWindow};
use crate::error::{DbFailure, Error};
use crate::pager::{
    assemble_page, fetch_desc, fetch_in_desc_order, filter_pred, in_id_order, past_cursor, pick,
    read_order, spec_fetch, spec_page,
};
use crate::query::{
    page_size_of, spec_page_size, FilterPager, ReservationFilter, ReservationQuery, TimeRange,
};
use crate::reservation::{Reservation, Timespan};
use crate::status::{insert_status, spec_insert_status};
use crate::text::same_text;
use crate::time::{intersects, spans_intersect, Timestamp};
use vstd::prelude::*;

verus! {

/// A stored row: an assigned id, a user, a valid interval and a live status.
pub open spec fn row_ok(r: Reservation) -> bool {
    &&& r.id >= 1
    &&& r.user_id@.len() > 0
    &&& r.spec_timespan() is Some
    &&& 1 <= r.status <= 3
}

/// Two reservations hold the same resource over intervals that meet.
pub open spec fn clash(a: Reservation, b: Reservation) -> bool {
    &&& a.resource_id@ == b.resource_id@
    &&& match (a.spec_timespan(), b.spec_timespan()) {
        (Some(x), Some(y)) => spans_intersect(x.start, x.end, y.start, y.end),
        _ => false,
    }
}

/// No row clashes with `r`.
pub open spec fn admits(rows: Seq<Reservation>, r: Reservation) -> bool {
    forall|i: int| 0 <= i < rows.len() ==> !clash(#[trigger] rows[i], r)
}

/// The invariants of the store: valid rows, ids increasing in insertion
/// order and at most `last_id`, and no two rows that clash.
pub open spec fn store_ok(rows: Seq<Reservation>, last_id: int) -> bool {
    &&& 0 <= last_id <= i64::MAX
    &&& forall|i: int| 0 <= i < rows.len() ==> row_ok(#[trigger] rows[i]) && rows[i].id <= last_id
    &&& in_id_order(rows, false)
    &&& forall|i: int, j: int| 0 <= i < j < rows.len() ==> !clash(#[trigger] rows[i], #[trigger] rows[j])
}

/// The row that storing `r` under `id` creates.
pub open spec fn stored_form(r: Reservation, id: i64) -> Reservation {
    Reservation {
        id,
        user_id: r.user_id,
        resource_id: r.resource_id,
        status: spec_insert_status(r.status).spec_code(),
        start: r.start,
        end: r.end,
        note: r.note,
    }
}

/// `reserve(r)` stores `r`: it is valid, clashes with no row, and an id is left.
pub open spec fn reserve_stores(rows: Seq<Reservation>, last_id: int, r: Reservation) -> bool {
    &&& r.user_id@.len() > 0
    &&& r.spec_timespan() is Some
    &&& admits(rows, r)
    &&& last_id < i64::MAX
}

/// `reserve(r)` is refused for a conflict: it is valid but clashes with a row.
pub open spec fn reserve_conflicts(rows: Seq<Reservation>, r: Reservation) -> bool {
    &&& r.user_id@.len() > 0
    &&& r.spec_timespan() is Some
    &&& !admits(rows, r)
}

/// `confirm(id)` applies: a pending row has that id.
pub open spec fn confirm_applies(rows: Seq<Reservation>, id: i64) -> bool {
    exists|i: int| 0 <= i < rows.len() && (#[trigger] rows[i]).id == id && rows[i].status == 1
}

pub open spec fn confirmed(r: Reservation) -> Reservation {
    Reservation { status: 2, ..r }
}

pub open spec fn with_note(r: Reservation, note: String) -> Reservation {
    Reservation { note, ..r }
}

pub open spec fn has_id(rows: Seq<Reservation>, id: i64) -> bool {
    exists|i: int| 0 <= i < rows.len() && (#[trigger] rows[i]).id == id
}

/// The rows a query selects within `range`.
pub open spec fn query_pred(q: ReservationQuery, range: TimeRange) -> spec_fn(Reservation) -> bool {
    |r: Reservation| q.selects(range, r)
}

/// How many selected rows come before the page that a query asks for.
pub open spec fn query_skip(q: ReservationQuery) -> int {
    let page: int = if q.page < 1 { 1 } else { q.page as int };
    (page - 1) * spec_page_size(q.page_size)
}

/// The page of rows that a query returns.
pub open spec fn spec_query(rows: Seq<Reservation>, q: ReservationQuery, range: TimeRange) -> Seq<Reservation> {
    pick(
        read_order(rows, q.is_desc),
        query_pred(q, range),
        query_skip(q) as nat,
        spec_page_size(q.page_size) as nat,
    )
}

/// What a scan selects.
enum Selection<'a> {
    ByFilter(&'a ReservationFilter, bool),
    ByQuery(&'a ReservationQuery, TimeRange),
}

impl<'a> Selection<'a> {
    spec fn pred(&self) -> spec_fn(Reservation) -> bool {
        match *self {
            Selection::ByFilter(f, desc) => filter_pred(*f, desc),
            Selection::ByQuery(q, range) => query_pred(*q, range),
        }
    }

    fn holds(&self, r: &Reservation) -> (b: bool)
        ensures
            b == (self.pred())(*r),
    {
        match self {
            Selection::ByFilter(f, desc) => {
                let cursor_ok = f.cursor == 0 || (if *desc { r.id < f.cursor } else { r.id > f.cursor });
                cursor_ok && text_ok(&f.user_id, &r.user_id) && text_ok(&f.resource_id, &r.resource_id)
                    && status_ok(f.status, r.status)
            },
            Selection::ByQuery(q, range) => {
                let span_ok = match (r.start, r.end) {
                    (Some(s), Some(e)) => {
                        (match range.start {
                            Some(a) => a.is_before(&e),
                            None => true,
                        }) && (match range.end {
                            Some(b) => s.is_before(&b),
                            None => true,
                        })
                    },
                    _ => false,
                };
                span_ok && text_ok(&q.user_id, &r.user_id) && text_ok(&q.resource_id, &r.resource_id)
                    && status_ok(q.status, r.status)
            },
        }
    }
}

fn text_ok(want: &Option<String>, have: &String) -> (b: bool)
    ensures
        b == crate::query::text_matches(crate::query::wanted(*want), have@),
{
    match want {
        Some(w) => w.as_str().unicode_len() == 0 || same_text(w.as_str(), have.as_str()),
        None => true,
    }
}

fn status_ok(want: i32, have: i32) -> (b: bool)
    ensures
        b == crate::query::status_matches(crate::status::spec_query_status(want), have),
{
    let s = crate::status::query_status(want);
    match s {
        crate::status::ReservationStatus::Unknown => true,
        _ => s.code() == have,
    }
}

/// Reservations held in memory, in insertion order.
pub struct ReservationManager {
    rows: Vec<Reservation>,
    last_id: i64,
}

impl ReservationManager {
    /// The stored rows, in insertion order.
    pub closed spec fn rows(&self) -> Seq<Reservation> {
        self.rows@
    }

    /// The last id handed out.
    pub closed spec fn last_id(&self) -> int {
        self.last_id as int
    }

    pub open spec fn wf(&self) -> bool {
        store_ok(self.rows(), self.last_id())
    }

    /// An empty store.
    pub fn new() -> (r: ReservationManager)
        ensures
            r.wf(),
            r.rows() == Seq::<Reservation>::empty(),
            r.last_id() == 0,
    {
        ReservationManager { rows: Vec::new(), last_id: 0 }
    }

    /// The index of the first row that clashes with `[span)` on `resource`.
    fn find_clash(&self, r: &Reservation, span: &Timespan) -> (k: Option<usize>)
        requires
            r.spec_timespan() == Some(*span),
            self.wf(),
        ensures
            k matches Some(i) ==> i < self.rows().len() && clash(self.rows()[i as int], *r),
            k is None ==> admits(self.rows(), *r),
    {
        let mut i: usize = 0;
        while i < self.rows.len()
            invariant
                i <= self.rows@.len(),
                r.spec_timespan() == Some(*span),
                self.wf(),
                forall|j: int| 0 <= j < i ==> !clash(#[trigger] self.rows@[j], *r),
            decreases self.rows@.len() - i,
        {
            let row = &self.rows[i];
            assert(row_ok(self.rows@[i as int]));
            let hit = match (row.start, row.end) {
                (Some(s), Some(e)) => same_text(row.resource_id.as_str(), r.resource_id.as_str())
                    && intersects(&s, &e, &span.start, &span.end),
                _ => false,
            };
            if hit {
                return Some(i);
            }
            i = i + 1;
        }
        None
    }

    /// The index of the row with that id.
    fn find_id(&self, id: i64) -> (k: Option<usize>)
        requires
            self.wf(),
        ensures
            k matches Some(i) ==> i < self.rows().len() && self.rows()[i as int].id == id,
            k is None ==> !has_id(self.rows(), id),
    {
        let mut i: usize = 0;
        while i < self.rows.len()
            invariant
                i <= self.rows@.len(),
                forall|j: int| 0 <= j < i ==> (#[trigger] self.rows@[j]).id != id,
            decreases self.rows@.len() - i,
        {
            if self.rows[i].id == id {
                return Some(i);
            }
            i = i + 1;
        }
        None
    }

    /// Stores the row, unless it clashes with one or no id is left.
    fn insert_row(&mut self, r: Reservation, span: &Timespan) -> (res: Result<Reservation, DbFailure>)
        requires
            old(self).wf(),
            r.spec_timespan() == Some(*span),
            row_ok(Reservation { id: 1, ..r }),
        ensures
            final(self).wf(),
            admits(old(self).rows(), r) && old(self).last_id() < i64::MAX ==> (res matches Ok(x) && x
                == (Reservation { id: (old(self).last_id() + 1) as i64, ..r }) && final(self).rows()
                == old(self).rows().push(x) && final(self).last_id() == old(self).last_id() + 1),
            !admits(old(self).rows(), r) ==> (res matches Err(DbFailure::Database { code, schema, table, .. })
                && crate::error::is_exclusion_violation(code@, schema, table)),
            res is Err ==> final(self).rows() == old(self).rows() && final(self).last_id() == old(self).last_id(),
            admits(old(self).rows(), r) && old(self).last_id() == i64::MAX ==> res matches Err(DbFailure::Other(_)),
    {
        match self.find_clash(&r, span) {
            Some(i) => {
                let held = &self.rows[i];
                let new = ReservationWindow { resource_id: r.resource_id.clone(), start: span.start, end: span.end };
                let (hs, he) = match (held.start, held.end) {
                    (Some(s), Some(e)) => (s, e),
                    _ => (Timestamp::new(0, 0), Timestamp::new(0, 0)),
                };
                let old = ReservationWindow { resource_id: held.resource_id.clone(), start: hs, end: he };
                let detail = describe_conflict(&new, &old);
                proof {
                    reveal_strlit("23P01");
                }
                return Err(DbFailure::Database {
                    code: "23P01".to_owned(),
                    schema: Some("rsvp".to_owned()),
                    table: Some("reservations".to_owned()),
                    detail: Some(detail),
                    message: "conflicting key value violates exclusion constraint".to_owned(),
                });
            },
            None => {},
        }
        if self.last_id == i64::MAX {
            return Err(DbFailure::Other("no reservation id is left".to_owned()));
        }
        let id = self.last_id + 1;
        let mut row = r;
        row.id = id;
        let ghost old_rows = self.rows@;
        self.rows.push(row.duplicate());
        self.last_id = id;
        proof {
            let rows = self.rows@;
            assert forall|i: int, j: int| 0 <= i < j < rows.len() implies !clash(
                #[trigger] rows[i],
                #[trigger] rows[j],
            ) by {
                if j == rows.len() - 1 {
                    assert(!clash(old_rows[i], r));
                    assert(rows[i] == old_rows[i]);
                } else {
                    assert(rows[i] == old_rows[i] && rows[j] == old_rows[j]);
                }
            }
            assert forall|i: int, j: int| 0 <= i < j < rows.len() implies #[trigger] rows[i].id
                < #[trigger] rows[j].id by {
                if j == rows.len() - 1 {
                    assert(rows[i] == old_rows[i]);
                    assert(row_ok(old_rows[i]));
                } else {
                    assert(rows[i] == old_rows[i] && rows[j] == old_rows[j]);
                }
            }
            assert(in_id_order(rows, false));
        }
        Ok(row)
    }

    /// Stores a reservation: valid, with the status normalised, under the
    /// next id, unless it clashes with a stored one.
    pub fn reserve(&mut self, rsvp: Reservation) -> (r: Result<Reservation, Error>)
        requires
            old(self).wf(),
        ensures
            final(self).wf(),
            rsvp.user_id@.len() == 0 ==> r matches Err(Error::InvalidUserId),
            rsvp.user_id@.len() > 0 && rsvp.spec_timespan() is None ==> r matches Err(Error::InvalidTimespan),
            reserve_conflicts(old(self).rows(), rsvp) ==> r matches Err(Error::ConflictReservation(_)),
            reserve_stores(old(self).rows(), old(self).last_id(), rsvp) ==> (r matches Ok(x) && x
                == stored_form(rsvp, (old(self).last_id() + 1) as i64) && final(self).rows()
                == old(self).rows().push(x) && final(self).last_id() == old(self).last_id() + 1),
            !reserve_stores(old(self).rows(), old(self).last_id(), rsvp) ==> r is Err && final(self).rows()
                == old(self).rows() && final(self).last_id() == old(self).last_id(),
    {
        match rsvp.validate() {
            Ok(()) => {},
            Err(e) => return Err(e),
        }
        let span = match rsvp.timespan() {
            Ok(t) => t,
            Err(e) => return Err(e),
        };
        let status = insert_status(rsvp.status);
        let mut row = rsvp;
        row.status = status.code();
        proof {
            assert forall|i: int| 0 <= i < old(self).rows().len() implies !clash(#[trigger] old(self).rows()[i], row)
                <==> !clash(old(self).rows()[i], rsvp) by {}
        }
        match self.insert_row(row, &span) {
            Ok(x) => Ok(x),
            Err(f) => Err(Error::from_db(f)),
        }
    }

    /// Removes the reservation with that id; `NotFound` when there is none.
    pub fn delete(&mut self, id: i64) -> (r: Result<(), Error>)
        requires
            old(self).wf(),
        ensures
            final(self).wf(),
            forall|i: int| 0 <= i < old(self).rows().len() && (#[trigger] old(self).rows()[i]).id == id
                ==> r is Ok && final(self).rows() == old(self).rows().remove(i),
            !has_id(old(self).rows(), id) ==> (r matches Err(Error::NotFound) && final(self).rows()
                == old(self).rows()),
            final(self).last_id() == old(self).last_id(),
    {
        match self.find_id(id) {
            Some(i) => {
                let ghost old_rows = self.rows@;
                self.rows.remove(i);
                proof {
                    let rows = self.rows@;
                    assert forall|a: int| 0 <= a < rows.len() implies #[trigger] rows[a] == old_rows[
                        if a < i { a } else { a + 1 }
                    ] by {}
                    assert forall|a: int, b: int| 0 <= a < b < rows.len() implies !clash(
                        #[trigger] rows[a],
                        #[trigger] rows[b],
                    ) by {
                        let a2 = if a < i { a } else { a + 1 };
                        let b2 = if b < i { b } else { b + 1 };
                        assert(rows[a] == old_rows[a2] && rows[b] == old_rows[b2]);
                    }
                    assert forall|a: int, b: int| 0 <= a < b < rows.len() implies #[trigger] rows[a].id
                        < #[trigger] rows[b].id by {
                        let a2 = if a < i { a } else { a + 1 };
                        let b2 = if b < i { b } else { b + 1 };
                        assert(rows[a] == old_rows[a2] && rows[b] == old_rows[b2]);
                    }
                    assert forall|j: int| 0 <= j < old_rows.len() && (#[trigger] old_rows[j]).id == id implies j
                        == i by {
                        if j < i {
                            assert(old_rows[j].id < old_rows[i as int].id);
                        } else if j > i {
                            assert(old_rows[i as int].id < old_rows[j].id);
                        }
                    }
                }
                Ok(())
            },
            None => Err(Error::from_db(DbFailure::RowNotFound)),
        }
    }

    /// Confirms the pending reservation with that id. A reservation that is
    /// not pending, or absent, gives `NotFound`.
    pub fn change_status(&mut self, id: i64) -> (r: Result<Reservation, Error>)
        requires
            old(self).wf(),
        ensures
            final(self).wf(),
            forall|i: int| 0 <= i < old(self).rows().len() && (#[trigger] old(self).rows()[i]).id == id
                && old(self).rows()[i].status == 1 ==> r == Ok::<Reservation, Error>(confirmed(old(self).rows()[i]))
                && final(self).rows() == old(self).rows().update(i, confirmed(old(self).rows()[i])),
            !confirm_applies(old(self).rows(), id) ==> (r matches Err(Error::NotFound) && final(self).rows()
                == old(self).rows()),
            final(self).last_id() == old(self).last_id(),
    {
        match self.find_id(id) {
            Some(i) => {
                if self.rows[i].status != 1 {
                    proof { self.lemma_unique_id(i as int, id); }
                    return Err(Error::from_db(DbFailure::RowNotFound));
                }
                let mut row = self.rows[i].duplicate();
                row.status = 2;
                let ghost old_rows = self.rows@;
                self.rows.set(i, row.duplicate());
                proof {
                    lemma_unique_index(old_rows, self.last_id as int, i as int, id);
                    lemma_update_keeps_store(old_rows, self.last_id as int, i as int, row);
                }
                Ok(row)
            },
            None => Err(Error::from_db(DbFailure::RowNotFound)),
        }
    }

    /// Replaces the note of the reservation with that id; `NotFound` when
    /// there is none.
    pub fn update_notes(&mut self, id: i64, note: String) -> (r: Result<Reservation, Error>)
        requires
            old(self).wf(),
        ensures
            final(self).wf(),
            forall|i: int| 0 <= i < old(self).rows().len() && (#[trigger] old(self).rows()[i]).id == id
                ==> r == Ok::<Reservation, Error>(with_note(old(self).rows()[i], note))
                && final(self).rows() == old(self).rows().update(i, with_note(old(self).rows()[i], note)),
            !has_id(old(self).rows(), id) ==> (r matches Err(Error::NotFound) && final(self).rows()
                == old(self).rows()),
            final(self).last_id() == old(self).last_id(),
    {
        match self.find_id(id) {
            Some(i) => {
                let mut row = self.rows[i].duplicate();
                row.note = note;
                let ghost old_rows = self.rows@;
                self.rows.set(i, row.duplicate());
                proof {
                    lemma_unique_index(old_rows, self.last_id as int, i as int, id);
                    lemma_update_keeps_store(old_rows, self.last_id as int, i as int, row);
                }
                Ok(row)
            },
            None => Err(Error::from_db(DbFailure::RowNotFound)),
        }
    }

    /// The reservation with that id; `NotFound` when there is none.
    pub fn get(&self, id: i64) -> (r: Result<Reservation, Error>)
        requires
            self.wf(),
        ensures
            forall|i: int| 0 <= i < self.rows().len() && (#[trigger] self.rows()[i]).id == id
                ==> r == Ok::<Reservation, Error>(self.rows()[i]),
            !has_id(self.rows(), id) ==> r matches Err(Error::NotFound),
    {
        match self.find_id(id) {
            Some(i) => {
                proof { lemma_unique_index(self.rows@, self.last_id as int, i as int, id); }
                Ok(self.rows[i].duplicate())
            },
            None => Err(Error::from_db(DbFailure::RowNotFound)),
        }
    }

    proof fn lemma_unique_id(&self, i: int, id: i64)
        requires
            self.wf(),
            0 <= i < self.rows().len(),
            self.rows()[i].id == id,
            self.rows()[i].status != 1,
        ensures
            !confirm_applies(self.rows(), id),
    {
        lemma_unique_index(self.rows(), self.last_id(), i, id);
    }

    /// The first rows selected by `sel` in the order `desc`, after skipping
    /// `skip` of them, at most `n`.
    fn scan(&self, sel: &Selection, desc: bool, skip: u64, n: u64) -> (out: Vec<Reservation>)
        ensures
            out@ == pick(read_order(self.rows(), desc), sel.pred(), skip as nat, n as nat),
    {
        let len = self.rows.len();
        let ghost order = read_order(self.rows@, desc);
        let ghost p = sel.pred();
        let mut k: usize = 0;
        let mut skip_left: u64 = skip;
        let mut out: Vec<Reservation> = Vec::new();
        assert(order.skip(0) =~= order);
        while k < len && (out.len() as u64) < n
            invariant
                len == self.rows@.len(),
                order == read_order(self.rows@, desc),
                order.len() == len,
                p == sel.pred(),
                k <= len,
                out@.len() <= n,
                out@ + pick(order.skip(k as int), p, skip_left as nat, (n - out@.len()) as nat) == pick(
                    order,
                    p,
                    skip as nat,
                    n as nat,
                ),
            decreases len - k,
        {
            let idx = if desc { len - 1 - k } else { k };
            let row = &self.rows[idx];
            let ghost rest = order.skip(k as int);
            assert(rest[0] == self.rows@[idx as int]);
            assert(rest.drop_first() =~= order.skip(k + 1));
            if sel.holds(row) {
                if skip_left > 0 {
                    skip_left = skip_left - 1;
                } else {
                    let ghost before = out@;
                    out.push(row.duplicate());
                    assert(out@ + pick(order.skip(k + 1), p, 0, (n - out@.len()) as nat) =~= before + pick(
                        rest,
                        p,
                        0,
                        (n - before.len()) as nat,
                    ));
                }
            }
            k = k + 1;
        }
        assert(pick(order.skip(k as int), p, skip_left as nat, (n - out@.len()) as nat) =~= Seq::<
            Reservation,
        >::empty());
        assert(out@ =~= out@ + Seq::<Reservation>::empty());
        out
    }

    /// One page of the reservations that a query selects, ordered by id.
    pub fn query(&self, q: &ReservationQuery) -> (r: Result<Vec<Reservation>, Error>)
        requires
            self.wf(),
        ensures
            q.spec_timespan() is None ==> r matches Err(Error::InvalidTimespan),
            q.spec_timespan() matches Some(range) ==> (r matches Ok(v) && v@ == spec_query(self.rows(), *q, range)
                && in_id_order(v@, q.is_desc)),
    {
        let range = match q.timespan() {
            Ok(t) => t,
            Err(e) => return Err(e),
        };
        let size = page_size_of(q.page_size);
        let page: i32 = if q.page < 1 { 1 } else { q.page };
        let before: u64 = (page - 1) as u64;
        let each: u64 = size as u64;
        assert(before * each <= 0x4000_0000_0000_0000) by (nonlinear_arith)
            requires
                before <= 0x8000_0000,
                each <= 0x8000_0000,
        ;
        let skip: u64 = before * each;
        let sel = Selection::ByQuery(q, range);
        let v = self.scan(&sel, q.is_desc, skip, size as u64);
        proof {
            lemma_read_order(self.rows(), q.is_desc);
            lemma_pick_in_order(read_order(self.rows(), q.is_desc), query_pred(*q, range), skip as nat, size as nat, q.is_desc);
        }
        Ok(v)
    }

    /// One page of the reservations that a filter selects, with the cursors
    /// of its neighbours.
    pub fn filter(&self, f: &ReservationFilter) -> (r: Result<(FilterPager, Vec<Reservation>), Error>)
        requires
            self.wf(),
        ensures
            (r matches Ok((pager, v)) && (pager, v@) == spec_page(self.rows(), *f) && in_id_order(v@, f.is_desc)),
    {
        let desc = fetch_in_desc_order(f);
        let size = page_size_of(f.page_size);
        let sel = Selection::ByFilter(f, desc);
        let fetched = self.scan(&sel, desc, 0, size as u64);
        proof {
            lemma_read_order(self.rows(), desc);
            lemma_pick_in_order(read_order(self.rows(), desc), filter_pred(*f, desc), 0, size as nat, desc);
            if f.is_prev {
                lemma_reverse_order(fetched@, desc);
            }
        }
        Ok(assemble_page(f, fetched))
    }
}

/// Two reservations of one resource whose intervals meet are never both
/// stored: once `reserve(a)` stores `a`, `reserve(b)` is refused for a
/// conflict, whatever order the two calls come in.
pub proof fn lemma_overlapping_reservations_exclude(
    rows: Seq<Reservation>,
    last_id: int,
    a: Reservation,
    b: Reservation,
)
    requires
        store_ok(rows, last_id),
        reserve_stores(rows, last_id, a),
        b.user_id@.len() > 0,
        b.spec_timespan() is Some,
        clash(a, b),
    ensures
        reserve_conflicts(rows.push(stored_form(a, (last_id + 1) as i64)), b),
{
    let after = rows.push(stored_form(a, (last_id + 1) as i64));
    assert(after[rows.len() as int] == stored_form(a, (last_id + 1) as i64));
    assert(!clash(after[rows.len() as int], b) ==> false);
}

/// A reservation is confirmed at most once: after `confirm(id)` has
/// confirmed a pending reservation, a second `confirm(id)` does not apply
/// (it returns `NotFound`).
pub proof fn lemma_confirm_once(rows: Seq<Reservation>, last_id: int, i: int)
    requires
        store_ok(rows, last_id),
        0 <= i < rows.len(),
        rows[i].status == 1,
    ensures
        !confirm_applies(rows.update(i, confirmed(rows[i])), rows[i].id),
{
    let after = rows.update(i, confirmed(rows[i]));
    lemma_unique_index(rows, last_id, i, rows[i].id);
    assert forall|j: int| 0 <= j < after.len() && (#[trigger] after[j]).id == rows[i].id implies after[j].status
        != 1 by {
        if j != i {
            assert(after[j] == rows[j]);
        }
    }
}

/// In a valid store, an id names at most one row.
proof fn lemma_unique_index(rows: Seq<Reservation>, last_id: int, i: int, id: i64)
    requires
        store_ok(rows, last_id),
        0 <= i < rows.len(),
        rows[i].id == id,
    ensures
        forall|j: int| 0 <= j < rows.len() && (#[trigger] rows[j]).id == id ==> j == i,
{
    assert forall|j: int| 0 <= j < rows.len() && (#[trigger] rows[j]).id == id implies j == i by {
        if j < i {
            assert(rows[j].id < rows[i].id);
        } else if j > i {
            assert(rows[i].id < rows[j].id);
        }
    }
}

/// Replacing a row by one with the same id, resource, interval and a live
/// status keeps the store valid.
proof fn lemma_update_keeps_store(rows: Seq<Reservation>, last_id: int, i: int, row: Reservation)
    requires
        store_ok(rows, last_id),
        0 <= i < rows.len(),
        row.id == rows[i].id,
        row.user_id == rows[i].user_id,
        row.resource_id == rows[i].resource_id,
        row.start == rows[i].start,
        row.end == rows[i].end,
        1 <= row.status <= 3,
    ensures
        store_ok(rows.update(i, row), last_id),
{
    let u = rows.update(i, row);
    assert forall|a: int, b: int| 0 <= a < b < u.len() implies !clash(#[trigger] u[a], #[trigger] u[b]) by {
        assert(!clash(rows[a], rows[b]));
    }
    assert forall|a: int, b: int| 0 <= a < b < u.len() implies #[trigger] u[a].id < #[trigger] u[b].id by {
        assert(rows[a].id < rows[b].id);
    }
}

pub open spec fn beyond(id: i64, bound: i64, desc: bool) -> bool {
    if desc { id < bound } else { id > bound }
}

proof fn lemma_pick_beyond(s: Seq<Reservation>, p: spec_fn(Reservation) -> bool, skip: nat, n: nat, bound: i64, desc: bool)
    requires
        forall|i: int| 0 <= i < s.len() ==> beyond(#[trigger] s[i].id, bound, desc),
    ensures
        forall|j: int| 0 <= j < pick(s, p, skip, n).len() ==> beyond(#[trigger] pick(s, p, skip, n)[j].id, bound, desc),
    decreases s.len(),
{
    if s.len() > 0 && n > 0 {
        let rest = s.drop_first();
        assert forall|i: int| 0 <= i < rest.len() implies beyond(#[trigger] rest[i].id, bound, desc) by {
            assert(rest[i] == s[i + 1]);
        }
        if p(s[0]) {
            if skip > 0 {
                lemma_pick_beyond(rest, p, (skip - 1) as nat, n, bound, desc);
            } else {
                lemma_pick_beyond(rest, p, 0, (n - 1) as nat, bound, desc);
                let tail = pick(rest, p, 0, (n - 1) as nat);
                assert forall|j: int| 0 <= j < pick(s, p, skip, n).len() implies beyond(
                    #[trigger] pick(s, p, skip, n)[j].id,
                    bound,
                    desc,
                ) by {
                    if j > 0 {
                        assert(pick(s, p, skip, n)[j] == tail[j - 1]);
                    }
                }
            }
        } else {
            lemma_pick_beyond(rest, p, skip, n, bound, desc);
        }
    }
}

/// Picking rows keeps their id order.
proof fn lemma_pick_in_order(s: Seq<Reservation>, p: spec_fn(Reservation) -> bool, skip: nat, n: nat, desc: bool)
    requires
        in_id_order(s, desc),
    ensures
        in_id_order(pick(s, p, skip, n), desc),
    decreases s.len(),
{
    if s.len() > 0 && n > 0 {
        let rest = s.drop_first();
        assert(in_id_order(rest, desc)) by {
            assert forall|i: int, j: int| 0 <= i < j < rest.len() implies (if desc {
                #[trigger] rest[i].id > #[trigger] rest[j].id
            } else {
                rest[i].id < rest[j].id
            }) by {
                assert(rest[i] == s[i + 1] && rest[j] == s[j + 1]);
            }
        }
        if p(s[0]) {
            if skip > 0 {
                lemma_pick_in_order(rest, p, (skip - 1) as nat, n, desc);
            } else {
                lemma_pick_in_order(rest, p, 0, (n - 1) as nat, desc);
                assert forall|i: int| 0 <= i < rest.len() implies beyond(#[trigger] rest[i].id, s[0].id, desc) by {
                    assert(rest[i] == s[i + 1]);
                }
                lemma_pick_beyond(rest, p, 0, (n - 1) as nat, s[0].id, desc);
                let tail = pick(rest, p, 0, (n - 1) as nat);
                let all = pick(s, p, skip, n);
                assert(all =~= seq![s[0]] + tail);
                assert forall|i: int, j: int| 0 <= i < j < all.len() implies (if desc {
                    #[trigger] all[i].id > #[trigger] all[j].id
                } else {
                    all[i].id < all[j].id
                }) by {
                    assert(all[j] == tail[j - 1]);
                    if i > 0 {
                        assert(all[i] == tail[i - 1]);
                    }
                }
            }
        } else {
            lemma_pick_in_order(rest, p, skip, n, desc);
        }
    }
}

/// Rows in increasing id order read in order `desc` are in id order `desc`.
proof fn lemma_read_order(rows: Seq<Reservation>, desc: bool)
    requires
        in_id_order(rows, false),
    ensures
        in_id_order(read_order(rows, desc), desc),
{
    if desc {
        lemma_reverse_order(rows, false);
    }
}

/// Reversing flips the id order.
proof fn lemma_reverse_order(s: Seq<Reservation>, desc: bool)
    requires
        in_id_order(s, desc),
    ensures
        in_id_order(s.reverse(), !desc),
{
    let r = s.reverse();
    assert forall|i: int, j: int| 0 <= i < j < r.len() implies (if !desc {
        #[trigger] r[i].id > #[trigger] r[j].id
    } else {
        r[i].id < r[j].id
    }) by {
        assert(r[i] == s[s.len() - 1 - i] && r[j] == s[s.len() - 1 - j]);
    }
}

/// The elements of `s` that satisfy `p`, in order.
pub open spec fn keep(s: Seq<Reservation>, p: spec_fn(Reservation) -> bool) -> Seq<Reservation>
    decreases s.len(),
{
    if s.len() == 0 {
        Seq::empty()
    } else if p(s[0]) {
        seq![s[0]] + keep(s.drop_first(), p)
    } else {
        keep(s.drop_first(), p)
    }
}

/// Picking by `p` and `q` picks by `q` among the elements that satisfy `p`.
proof fn lemma_pick_keep(
    s: Seq<Reservation>,
    pq: spec_fn(Reservation) -> bool,
    p: spec_fn(Reservation) -> bool,
    q: spec_fn(Reservation) -> bool,
    n: nat,
)
    requires
        forall|r: Reservation| #[trigger] pq(r) == (p(r) && q(r)),
    ensures
        pick(s, pq, 0, n) == pick(keep(s, p), q, 0, n),
    decreases s.len(),
{
    if s.len() > 0 && n > 0 {
        let rest = s.drop_first();
        if p(s[0]) {
            assert(keep(s, p).drop_first() =~= keep(rest, p));
            assert(keep(s, p)[0] == s[0]);
            if q(s[0]) {
                lemma_pick_keep(rest, pq, p, q, (n - 1) as nat);
            } else {
                lemma_pick_keep(rest, pq, p, q, n);
            }
        } else {
            lemma_pick_keep(rest, pq, p, q, n);
        }
    }
}

proof fn lemma_keep_append(a: Seq<Reservation>, b: Seq<Reservation>, p: spec_fn(Reservation) -> bool)
    ensures
        keep(a + b, p) == keep(a, p) + keep(b, p),
    decreases a.len(),
{
    if a.len() == 0 {
        assert(a + b =~= b);
        assert(keep(a, p) + keep(b, p) =~= keep(b, p));
    } else {
        assert((a + b).drop_first() =~= a.drop_first() + b);
        assert((a + b)[0] == a[0]);
        lemma_keep_append(a.drop_first(), b, p);
        if p(a[0]) {
            assert(seq![a[0]] + (keep(a.drop_first(), p) + keep(b, p)) =~= (seq![a[0]] + keep(a.drop_first(), p))
                + keep(b, p));
        }
    }
}

proof fn lemma_keep_reverse(s: Seq<Reservation>, p: spec_fn(Reservation) -> bool)
    ensures
        keep(s.reverse(), p) == keep(s, p).reverse(),
    decreases s.len(),
{
    if s.len() == 0 {
        assert(s.reverse() =~= s);
        assert(keep(s, p).reverse() =~= Seq::<Reservation>::empty());
    } else {
        let rest = s.drop_first();
        lemma_keep_reverse(rest, p);
        assert(s.reverse() =~= rest.reverse() + seq![s[0]]);
        lemma_keep_append(rest.reverse(), seq![s[0]], p);
        assert(seq![s[0]].drop_first() =~= Seq::<Reservation>::empty());
        let k0 = keep(seq![s[0]], p);
        assert(keep(Seq::<Reservation>::empty(), p) == Seq::<Reservation>::empty());
        assert(seq![s[0]][0] == s[0]);
        assert(keep(s, p) == k0 + keep(rest, p)) by {
            if p(s[0]) {
                assert(k0 =~= seq![s[0]]);
            } else {
                assert(k0 =~= Seq::<Reservation>::empty());
                assert(k0 + keep(rest, p) =~= keep(rest, p));
            }
        }
        assert((k0 + keep(rest, p)).reverse() =~= keep(rest, p).reverse() + k0.reverse());
        assert(k0.reverse() =~= k0);
    }
}

proof fn lemma_keep_is_pick(s: Seq<Reservation>, p: spec_fn(Reservation) -> bool, n: nat)
    requires
        n >= s.len(),
    ensures
        keep(s, p) == pick(s, p, 0, n),
    decreases s.len(),
{
    if s.len() > 0 {
        let rest = s.drop_first();
        if p(s[0]) {
            lemma_keep_is_pick(rest, p, (n - 1) as nat);
        } else {
            lemma_keep_is_pick(rest, p, n);
        }
    }
}

/// Picking by a condition that fails on a prefix and holds after it picks
/// a slice.
proof fn lemma_pick_suffix(l: Seq<Reservation>, q: spec_fn(Reservation) -> bool, i: int, n: nat)
    requires
        0 <= i <= l.len(),
        forall|j: int| 0 <= j < i ==> !q(#[trigger] l[j]),
        forall|j: int| i <= j < l.len() ==> q(#[trigger] l[j]),
    ensures
        pick(l, q, 0, n) == l.subrange(i, if i + n <= l.len() { i + n } else { l.len() as int }),
    decreases l.len(),
{
    if l.len() == 0 {
        assert(l.subrange(0, 0) =~= Seq::<Reservation>::empty());
    } else if n == 0 {
        assert(l.subrange(i, i) =~= Seq::<Reservation>::empty());
    } else {
        let rest = l.drop_first();
        assert forall|j: int| 0 <= j < rest.len() implies rest[j] == l[j + 1] by {}
        if i > 0 {
            assert(!q(l[0]));
            assert forall|j: int| 0 <= j < i - 1 implies !q(#[trigger] rest[j]) by {
                assert(rest[j] == l[j + 1]);
            }
            assert forall|j: int| i - 1 <= j < rest.len() implies q(#[trigger] rest[j]) by {
                assert(rest[j] == l[j + 1]);
            }
            lemma_pick_suffix(rest, q, i - 1, n);
            let e = if i + n <= l.len() { i + n } else { l.len() as int };
            assert(rest.subrange(i - 1, e - 1) =~= l.subrange(i, e));
        } else {
            assert(q(l[0]));
            assert forall|j: int| 0 <= j < rest.len() implies q(#[trigger] rest[j]) by {
                assert(rest[j] == l[j + 1]);
            }
            lemma_pick_suffix(rest, q, 0, (n - 1) as nat);
            let e = if n <= l.len() { n as int } else { l.len() as int };
            assert(seq![l[0]] + rest.subrange(0, e - 1) =~= l.subrange(0, e));
        }
    }
}

/// In id order, the rows past a cursor come after the rows that are not.
proof fn lemma_cursor_split(l: Seq<Reservation>, c: i64, d: bool) -> (i: int)
    requires
        in_id_order(l, d),
    ensures
        0 <= i <= l.len(),
        forall|j: int| 0 <= j < i ==> !past_cursor(#[trigger] l[j].id, c, d),
        forall|j: int| i <= j < l.len() ==> past_cursor(#[trigger] l[j].id, c, d),
    decreases l.len(),
{
    if l.len() == 0 {
        0
    } else if past_cursor(l[0].id, c, d) {
        assert forall|j: int| 0 <= j < l.len() implies past_cursor(#[trigger] l[j].id, c, d) by {
            if j > 0 {
                assert(if d { l[0].id > l[j].id } else { l[0].id < l[j].id });
            }
        }
        0
    } else {
        let rest = l.drop_first();
        assert(in_id_order(rest, d)) by {
            assert forall|a: int, b: int| 0 <= a < b < rest.len() implies (if d {
                #[trigger] rest[a].id > #[trigger] rest[b].id
            } else {
                rest[a].id < rest[b].id
            }) by {
                assert(rest[a] == l[a + 1] && rest[b] == l[b + 1]);
            }
        }
        let k = lemma_cursor_split(rest, c, d);
        assert forall|j: int| 0 <= j < k + 1 implies !past_cursor(#[trigger] l[j].id, c, d) by {
            if j > 0 {
                assert(l[j] == rest[j - 1]);
            }
        }
        assert forall|j: int| k + 1 <= j < l.len() implies past_cursor(#[trigger] l[j].id, c, d) by {
            assert(l[j] == rest[j - 1]);
        }
        k + 1
    }
}

/// Going to the next page and then back to the previous one returns the
/// page started from: from a page of a filter read forwards, a filter with
/// the page's `next` cursor, then one with that page's `prev` cursor read
/// backwards, returns the same rows in the same order.
pub proof fn lemma_cursor_round_trip(rows: Seq<Reservation>, last_id: int, f: ReservationFilter)
    requires
        store_ok(rows, last_id),
        !f.is_prev,
        spec_page(rows, f).0.next is Some,
        spec_page(rows, ReservationFilter { cursor: spec_page(rows, f).0.next->0, ..f }).0.prev is Some,
    ensures
        ({
            let first = spec_page(rows, f);
            let f2 = ReservationFilter { cursor: first.0.next->0, ..f };
            let f3 = ReservationFilter { cursor: spec_page(rows, f2).0.prev->0, is_prev: true, ..f };
            spec_page(rows, f3).1 == first.1
        }),
{
    let d = f.is_desc;
    let n = spec_page_size(f.page_size) as nat;
    let sel = |r: Reservation| f.selects(r);
    let o = read_order(rows, d);
    lemma_read_order(rows, d);
    let l = keep(o, sel);
    lemma_keep_is_pick(o, sel, o.len());
    lemma_pick_in_order(o, sel, 0, o.len(), d);
    assert forall|j: int| 0 <= j < o.len() implies beyond(#[trigger] o[j].id, 0, false) by {
        if d {
            assert(o[j] == rows[rows.len() - 1 - j]);
        }
        assert(row_ok(o[j]));
    }
    lemma_pick_beyond(o, sel, 0, o.len(), 0, false);
    let len = l.len() as int;
    // The first page.
    let first = spec_page(rows, f);
    let c = f.cursor;
    let pc = |r: Reservation| past_cursor(r.id, c, d);
    lemma_pick_keep(o, filter_pred(f, d), sel, pc, n);
    let i = lemma_cursor_split(l, c, d);
    lemma_pick_suffix(l, pc, i, n);
    assert(first.1 == l.subrange(i, if i + n <= len { i + n } else { len }));
    assert(i + n <= len);
    let x = l[i + n - 1].id;
    assert(first.0.next == Some(x));
    // The next page.
    let f2 = ReservationFilter { cursor: x, ..f };
    let px = |r: Reservation| past_cursor(r.id, x, d);
    lemma_pick_keep(o, filter_pred(f2, d), sel, px, n);
    assert forall|j: int| 0 <= j < i + n implies !px(#[trigger] l[j]) by {
        if j < i + n - 1 {
            assert(if d { l[j].id > l[i + n - 1].id } else { l[j].id < l[i + n - 1].id });
        }
    }
    assert forall|j: int| i + n <= j < len implies px(#[trigger] l[j]) by {
        assert(if d { l[i + n - 1].id > l[j].id } else { l[i + n - 1].id < l[j].id });
    }
    lemma_pick_suffix(l, px, i + n, n);
    let second = spec_page(rows, f2);
    assert(second.1 == l.subrange(i + n, if i + n + n <= len { i + n + n } else { len }));
    assert(i + n < len);
    let y = l[i + n].id;
    assert(second.0.prev == Some(y));
    // Back to the previous page.
    let f3 = ReservationFilter { cursor: y, is_prev: true, ..f };
    let o3 = read_order(rows, !d);
    assert(o3 =~= o.reverse());
    lemma_keep_reverse(o, sel);
    let lr = l.reverse();
    let py = |r: Reservation| past_cursor(r.id, y, !d);
    lemma_pick_keep(o3, filter_pred(f3, !d), sel, py, n);
    let s3 = len - i - n;
    assert forall|j: int| 0 <= j < s3 implies !py(#[trigger] lr[j]) by {
        assert(lr[j] == l[len - 1 - j]);
        if len - 1 - j > i + n {
            assert(if d { l[i + n].id > l[len - 1 - j].id } else { l[i + n].id < l[len - 1 - j].id });
        }
    }
    assert forall|j: int| s3 <= j < len implies py(#[trigger] lr[j]) by {
        assert(lr[j] == l[len - 1 - j]);
        if len - 1 - j < i + n {
            assert(if d { l[len - 1 - j].id > l[i + n].id } else { l[len - 1 - j].id < l[i + n].id });
        }
    }
    lemma_pick_suffix(lr, py, s3, n);
    let fetched = spec_fetch(rows, f3);
    assert(fetched == lr.subrange(s3, s3 + n));
    assert(fetched.reverse() =~= l.subrange(i, i + n));
}

} // verus!
