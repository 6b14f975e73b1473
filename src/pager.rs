//! Cursor pagination: which rows a filter page holds and the cursors that
//! lead to its neighbours.

use crate::query::{spec_page_size, FilterPager, ReservationFilter};
use crate::reservation::Reservation;
use vstd::prelude::*;

verus! {

pub open spec fn ids_of(rows: Seq<Reservation>) -> Seq<i64> {
    rows.map_values(|r: Reservation| r.id)
}

/// Ids strictly increase along `rows` (or strictly decrease, when `desc`).
pub open spec fn in_id_order(rows: Seq<Reservation>, desc: bool) -> bool {
    forall|i: int, j: int|
        0 <= i < j < rows.len() ==> if desc {
            #[trigger] rows[i].id > #[trigger] rows[j].id
        } else {
            rows[i].id < rows[j].id
        }
}

/// The id lies strictly past the cursor in the direction of reading; a
/// cursor of 0 is the edge, which every id lies past.
pub open spec fn past_cursor(id: i64, cursor: i64, desc: bool) -> bool {
    cursor == 0 || (if desc { id < cursor } else { id > cursor })
}

/// The first `n` elements of `s` that satisfy `p`, after skipping the
/// first `skip` of those.
pub open spec fn pick(s: Seq<Reservation>, p: spec_fn(Reservation) -> bool, skip: nat, n: nat) -> Seq<Reservation>
    decreases s.len(),
{
    if s.len() == 0 || n == 0 {
        Seq::empty()
    } else if p(s[0]) {
        if skip > 0 {
            pick(s.drop_first(), p, (skip - 1) as nat, n)
        } else {
            seq![s[0]] + pick(s.drop_first(), p, 0, (n - 1) as nat)
        }
    } else {
        pick(s.drop_first(), p, skip, n)
    }
}

/// `rows` read in id order, ascending or descending.
pub open spec fn read_order(rows: Seq<Reservation>, desc: bool) -> Seq<Reservation> {
    if desc { rows.reverse() } else { rows }
}

/// The order in which the store is read for a filter: reversed for the
/// previous page.
pub open spec fn fetch_desc(f: ReservationFilter) -> bool {
    f.is_desc != f.is_prev
}

/// The rows a filter selects when the store is read in order `desc`.
pub open spec fn filter_pred(f: ReservationFilter, desc: bool) -> spec_fn(Reservation) -> bool {
    |r: Reservation| f.selects(r) && past_cursor(r.id, f.cursor, desc)
}

/// The rows that the store hands back for a filter, in the order read.
pub open spec fn spec_fetch(rows: Seq<Reservation>, f: ReservationFilter) -> Seq<Reservation> {
    let desc = fetch_desc(f);
    pick(read_order(rows, desc), filter_pred(f, desc), 0, spec_page_size(f.page_size) as nat)
}

/// The pager of a page whose ids are `ids`, in the order returned.
pub open spec fn spec_pager(cursor: i64, page_size: int, is_prev: bool, ids: Seq<i64>) -> FilterPager {
    FilterPager {
        prev: if cursor == 0 || (ids.len() < page_size && is_prev) || ids.len() == 0 {
            None
        } else {
            Some(ids[0])
        },
        next: if (ids.len() < page_size && !is_prev) || ids.len() == 0 {
            None
        } else {
            Some(ids.last())
        },
    }
}

/// The page that a filter returns: the rows fetched, put back in the
/// requested order for a previous page, and its pager.
pub open spec fn spec_page(rows: Seq<Reservation>, f: ReservationFilter) -> (FilterPager, Seq<Reservation>) {
    let fetched = spec_fetch(rows, f);
    let page = if f.is_prev { fetched.reverse() } else { fetched };
    (spec_pager(f.cursor, spec_page_size(f.page_size), f.is_prev, ids_of(page)), page)
}

/// The order in which to ask the store for rows: reversed for a previous page.
pub fn fetch_in_desc_order(f: &ReservationFilter) -> (r: bool)
    ensures
        r == fetch_desc(*f),
{
    f.is_desc != f.is_prev
}

/// Puts the rows fetched for `f` in the requested order and computes the
/// pager: the cursors are the ids of the first and last rows, except at an
/// edge, a start from the edge, or a short page.
pub fn assemble_page(f: &ReservationFilter, fetched: Vec<Reservation>) -> (r: (FilterPager, Vec<Reservation>))
    ensures
        r.1@ == (if f.is_prev { fetched@.reverse() } else { fetched@ }),
        r.0 == spec_pager(f.cursor, spec_page_size(f.page_size), f.is_prev, ids_of(r.1@)),
{
    let page = if f.is_prev { reversed(fetched) } else { fetched };
    let size = crate::query::page_size_of(f.page_size);
    let n = page.len();
    let short = n < size as usize;
    let prev = if f.cursor == 0 || (short && f.is_prev) || n == 0 { None } else { Some(page[0].id) };
    let next = if (short && !f.is_prev) || n == 0 { None } else { Some(page[n - 1].id) };
    (FilterPager { prev, next }, page)
}

/// The rows in reverse order.
pub fn reversed(v: Vec<Reservation>) -> (r: Vec<Reservation>)
    ensures
        r@ == v@.reverse(),
{
    let ghost orig = v@;
    let n = v.len();
    let mut v = v;
    let mut out: Vec<Reservation> = Vec::new();
    while v.len() > 0
        invariant
            n == orig.len(),
            v.len() <= n,
            v@ == orig.subrange(0, v.len() as int),
            out@ == Seq::new((n - v.len()) as nat, |j: int| orig[n - 1 - j]),
        decreases v.len(),
    {
        let x = v.pop().unwrap();
        out.push(x);
        assert(out@ =~= Seq::new((n - v.len()) as nat, |j: int| orig[n - 1 - j]));
    }
    assert(out@ =~= orig.reverse());
    out
}

} // verus!
