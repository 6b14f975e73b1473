use reservation::error::Error;
use reservation::manager::ReservationManager;
use reservation::query::{FilterPager, ReservationFilter, ReservationQuery};
use reservation::reservation::Reservation;
use reservation::status::ReservationStatus;
use reservation::time::Timestamp;

fn ts(text: &str) -> Timestamp {
    let t = chrono::DateTime::parse_from_rfc3339(text).unwrap();
    Timestamp::new(t.timestamp(), t.timestamp_subsec_nanos() as i32)
}

fn now() -> Timestamp {
    let t = chrono::Utc::now();
    Timestamp::new(t.timestamp(), t.timestamp_subsec_nanos() as i32)
}

/// One confirmed reservation (id 1) and a hundred pending ones (ids 2..=101).
fn hundred_pending() -> ReservationManager {
    let mut manager = ReservationManager::new();
    let first = Reservation::new_pendding(
        "user",
        "resource",
        ts("2021-01-01T00:00:00Z"),
        ts("2021-01-02T00:00:00Z"),
        "note",
    );
    let first = manager.reserve(first).unwrap();
    let confirmed = manager.change_status(first.id).unwrap();
    assert_eq!(confirmed.status, ReservationStatus::Confirmed.code());
    let base = ts("2022-01-01T00:00:00Z").seconds;
    for i in 0..100i64 {
        let start = Timestamp::new(base + i * 3600, 0);
        let end = Timestamp::new(base + i * 3600 + 60, 0);
        manager.reserve(Reservation::new_pendding("user", "resource", start, end, "note")).unwrap();
    }
    manager
}

fn pending(cursor: i64, is_desc: bool, is_prev: bool) -> ReservationFilter {
    ReservationFilter {
        page_size: 10,
        status: ReservationStatus::Pending.code(),
        cursor,
        is_desc,
        is_prev,
        ..Default::default()
    }
}

fn ids(rows: &[Reservation]) -> Vec<i64> {
    rows.iter().map(|r| r.id).collect()
}

#[test]
fn basic_reserve_is_pending_with_an_id() {
    let mut manager = ReservationManager::new();
    let r = Reservation::new_pendding(
        "user",
        "resource",
        ts("2021-01-01T00:00:00Z"),
        ts("2021-01-02T00:00:00Z"),
        "note",
    );
    let r = manager.reserve(r).unwrap();
    assert!(r.id >= 1);
    assert_eq!(r.status, ReservationStatus::Pending.code());
}

#[test]
fn invalid_timespan_maps_to_invalid_argument() {
    let mut manager = ReservationManager::new();
    let r = Reservation::new_pendding(
        "user",
        "resource",
        ts("2021-01-01T00:00:00Z"),
        ts("2021-01-01T00:00:00Z"),
        "note",
    );
    let e = manager.reserve(r).unwrap_err();
    assert!(matches!(e, Error::InvalidTimespan));
    assert_eq!(e.to_status().code, reservation::error::RpcCode::InvalidArgument);
}

#[test]
fn filter_pagination_over_a_hundred_pending() {
    let manager = hundred_pending();
    let all = ReservationFilter { page_size: 200, ..pending(0, false, false) };
    assert_eq!(manager.filter(&all).unwrap().1.len(), 100);
    let confirmed = ReservationFilter {
        page_size: 200,
        status: ReservationStatus::Confirmed.code(),
        ..Default::default()
    };
    assert_eq!(manager.filter(&confirmed).unwrap().1.len(), 1);

    let (pager, rows) = manager.filter(&pending(0, false, false)).unwrap();
    assert_eq!(ids(&rows), (2..=11).collect::<Vec<i64>>());
    assert_eq!(pager.prev, None);
    assert_eq!(pager.next, Some(11));

    let (pager2, rows2) = manager.filter(&pending(11, false, false)).unwrap();
    assert_eq!(ids(&rows2), (12..=21).collect::<Vec<i64>>());
    assert_eq!(pager2.prev, Some(12));
    assert_eq!(pager2.prev.unwrap() - 1, pager.next.unwrap());

    let (_, rows3) = manager.filter(&pending(12, false, true)).unwrap();
    assert_eq!(ids(&rows3), (2..=11).collect::<Vec<i64>>());
}

#[test]
fn filter_pagination_descending() {
    let manager = hundred_pending();
    let (pager, rows) = manager.filter(&pending(0, true, false)).unwrap();
    assert_eq!(ids(&rows), (92..=101).rev().collect::<Vec<i64>>());
    assert_eq!(pager.next, Some(92));

    let (pager2, rows2) = manager.filter(&pending(92, true, false)).unwrap();
    assert_eq!(ids(&rows2), (82..=91).rev().collect::<Vec<i64>>());
    assert_eq!(pager2, FilterPager { prev: Some(91), next: Some(82) });

    let (_, rows3) = manager.filter(&pending(pager2.prev.unwrap(), true, true)).unwrap();
    assert_eq!(ids(&rows3), (92..=101).rev().collect::<Vec<i64>>());
}

#[test]
fn cursor_round_trip_returns_the_same_page() {
    let manager = hundred_pending();
    for is_desc in [false, true] {
        for cursor in [0i64, 30, 57] {
            let (pager, page) = manager.filter(&pending(cursor, is_desc, false)).unwrap();
            let (pager2, _) = manager.filter(&pending(pager.next.unwrap(), is_desc, false)).unwrap();
            let (_, back) = manager.filter(&pending(pager2.prev.unwrap(), is_desc, true)).unwrap();
            assert_eq!(ids(&back), ids(&page));
        }
    }
}

#[test]
fn filter_ids_follow_the_requested_order() {
    let manager = hundred_pending();
    for is_prev in [false, true] {
        let (_, up) = manager.filter(&pending(50, false, is_prev)).unwrap();
        assert!(up.windows(2).all(|w| w[0].id < w[1].id));
        let (_, down) = manager.filter(&pending(50, true, is_prev)).unwrap();
        assert!(down.windows(2).all(|w| w[0].id > w[1].id));
    }
}

#[test]
fn short_pages_end_the_cursor_chain() {
    let manager = hundred_pending();
    let (pager, rows) = manager.filter(&pending(96, false, false)).unwrap();
    assert_eq!(ids(&rows), (97..=101).collect::<Vec<i64>>());
    assert_eq!(pager, FilterPager { prev: Some(97), next: None });
    let (pager, rows) = manager.filter(&pending(7, false, true)).unwrap();
    assert_eq!(ids(&rows), (2..=6).collect::<Vec<i64>>());
    assert_eq!(pager, FilterPager { prev: None, next: Some(6) });
}

#[test]
fn query_streams_exactly_one_item() {
    let mut manager = ReservationManager::new();
    let r = Reservation::new_pendding(
        "user",
        "resource",
        ts("2021-01-01T00:00:00Z"),
        ts("2021-01-02T00:00:00Z"),
        "note",
    );
    let r = manager.reserve(r).unwrap();
    let q = ReservationQuery { end: Some(now()), ..Default::default() };
    let mut items = manager.query(&q).unwrap().into_iter();
    assert_eq!(items.next().unwrap().id, r.id);
    assert!(items.next().is_none());
}

#[test]
fn query_counts_every_reservation_in_order() {
    let manager = hundred_pending();
    let q = ReservationQuery { page_size: 500, end: Some(now()), ..Default::default() };
    let items = manager.query(&q).unwrap();
    assert_eq!(items.len(), 101);
    for (i, r) in items.iter().enumerate() {
        assert_eq!(r.id, i as i64 + 1);
    }
}
