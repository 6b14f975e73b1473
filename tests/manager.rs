use reservation::conflict::{ReservationConflict, ReservationConflictInfo};
use reservation::error::Error;
use reservation::manager::ReservationManager;
use reservation::query::{ReservationFilter, ReservationQuery};
use reservation::reservation::Reservation;
use reservation::status::ReservationStatus;
use reservation::time::Timestamp;

fn ts(text: &str) -> Timestamp {
    let t = chrono::DateTime::parse_from_rfc3339(text).unwrap();
    Timestamp::new(t.timestamp(), t.timestamp_subsec_nanos() as i32)
}

fn now() -> Timestamp {
    let t = chrono::Utc::now();
    Timestamp::new(t.timestamp(), t.timestamp_subsec_nanos() as i32)
}

fn default_rsvp() -> Reservation {
    Reservation::new_pendding(
        "user",
        "resource",
        ts("2021-01-01T00:00:00Z"),
        ts("2021-01-02T00:00:00Z"),
        "note",
    )
}

fn query_until_now() -> ReservationQuery {
    ReservationQuery { end: Some(now()), ..Default::default() }
}

#[test]
fn reserve_should_work_with_valid_timespan() {
    let mut manager = ReservationManager::new();
    let rsvp = manager.reserve(default_rsvp()).unwrap();
    assert!(rsvp.id != 0);
}

#[test]
fn reserve_should_fail_with_invalid_timespan() {
    let mut manager = ReservationManager::new();
    let rsvp = Reservation::new_pendding(
        "user",
        "resource",
        ts("2021-01-01T00:00:00Z"),
        ts("2021-01-01T00:00:00Z"),
        "note",
    );
    let result = manager.reserve(rsvp);
    assert!(matches!(result, Err(Error::InvalidTimespan)));
}

#[test]
fn reserve_should_fail_with_conflicting_timespan() {
    let mut manager = ReservationManager::new();
    let conflict_start = ts("2021-01-01T12:00:00Z");
    let conflict_end = ts("2021-01-02T12:00:00Z");
    let result = manager.reserve(default_rsvp()).unwrap();
    assert!(result.id != 0);

    let rsvp = Reservation::new_pendding("user", "resource", conflict_start, conflict_end, "note");
    let result = manager.reserve(rsvp);
    assert!(matches!(result, Err(Error::ConflictReservation(_))));
    match result.unwrap_err() {
        Error::ConflictReservation(ReservationConflictInfo::Parsed(ReservationConflict { new, old })) => {
            assert_eq!(new.resource_id, "resource");
            assert_eq!(old.resource_id, "resource");
            assert_eq!(new.start, conflict_start);
            assert_eq!(new.end, conflict_end);
        }
        e => {
            panic!("Unexpected error: {:?}", e);
        }
    }
}

#[test]
fn reservation_can_be_confirmed() {
    let mut manager = ReservationManager::new();
    let rsvp = manager.reserve(default_rsvp()).unwrap();
    let rsvp = manager.change_status(rsvp.id).unwrap();
    assert_eq!(rsvp.status, ReservationStatus::Confirmed.code());
}

#[test]
fn change_reservation_again_should_do_nothing() {
    let mut manager = ReservationManager::new();
    let rsvp = manager.reserve(default_rsvp()).unwrap();
    let rsvp = manager.change_status(rsvp.id).unwrap();
    assert_eq!(rsvp.status, ReservationStatus::Confirmed.code());
    let ret = manager.change_status(rsvp.id);
    assert!(matches!(ret, Err(Error::NotFound)));
}

#[test]
fn update_notes_should_work() {
    let mut manager = ReservationManager::new();
    let rsvp = manager.reserve(default_rsvp()).unwrap();
    let rsvp = manager.update_notes(rsvp.id, "new note".to_string()).unwrap();
    assert_eq!(rsvp.note, "new note");
}

#[test]
fn get_should_work() {
    let mut manager = ReservationManager::new();
    let rsvp1 = manager.reserve(default_rsvp()).unwrap();
    let rsvp = manager.get(rsvp1.id).unwrap();
    assert_eq!(rsvp.id, rsvp1.id);
    assert_eq!(rsvp, rsvp1);
}

#[test]
fn delete_should_work() {
    let mut manager = ReservationManager::new();
    let rsvp = manager.reserve(default_rsvp()).unwrap();
    manager.delete(rsvp.id).unwrap();
    let rsvp = manager.get(rsvp.id);
    assert!(matches!(rsvp, Err(Error::NotFound)));
}

#[test]
fn delete_null_should_fail() {
    let mut manager = ReservationManager::new();
    let result = manager.delete(0);
    assert!(matches!(result, Err(Error::NotFound)));
}

#[test]
fn query_should_work() {
    let mut manager = ReservationManager::new();
    let rsvp = manager.reserve(default_rsvp()).unwrap();

    let query = query_until_now();
    let items = manager.query(&query).unwrap();
    assert_eq!(items[0].id, rsvp.id);
    assert_eq!(items.len(), 1);

    let query = ReservationQuery {
        user_id: Some("user".to_string()),
        resource_id: Some("resource".to_string()),
        ..query_until_now()
    };
    let items = manager.query(&query).unwrap();
    assert_eq!(items[0].id, rsvp.id);
    assert_eq!(items.len(), 1);
}

#[test]
fn query_should_work_with_user_id() {
    let mut manager = ReservationManager::new();
    let _rsvp = manager.reserve(default_rsvp()).unwrap();
    let query = ReservationQuery { user_id: Some("user1".to_string()), ..query_until_now() };
    let items = manager.query(&query).unwrap();
    assert_eq!(items.len(), 0);
}

#[test]
fn query_should_work_with_resource_id() {
    let mut manager = ReservationManager::new();
    let _rsvp = manager.reserve(default_rsvp()).unwrap();
    let query = ReservationQuery { resource_id: Some("resource1".to_string()), ..query_until_now() };
    let items = manager.query(&query).unwrap();
    assert_eq!(items.len(), 0);
}

#[test]
fn query_should_work_with_status() {
    let mut manager = ReservationManager::new();
    let _rsvp = manager.reserve(default_rsvp()).unwrap();
    let query = ReservationQuery { status: 2, ..query_until_now() };
    let items = manager.query(&query).unwrap();
    assert_eq!(items.len(), 0);
}

#[test]
fn query_should_work_with_timespan() {
    let mut manager = ReservationManager::new();
    let _rsvp = manager.reserve(default_rsvp()).unwrap();
    let start = now();
    let end = Timestamp::new(start.seconds + 86_400, start.nanos);
    let query = ReservationQuery { start: Some(start), end: Some(end), ..Default::default() };
    let items = manager.query(&query).unwrap();
    assert_eq!(items.len(), 0);
}

#[test]
fn filter_should_work() {
    let mut manager = ReservationManager::new();
    let rsvp = manager.reserve(default_rsvp()).unwrap();

    let filter = ReservationFilter::default();
    let filter = manager.filter(&filter).unwrap();
    assert!(filter.0.next.is_none());
    assert_eq!(filter.1.len(), 1);
    assert_eq!(filter.1[0].id, rsvp.id);

    let filter = ReservationFilter {
        user_id: Some("user".to_string()),
        resource_id: Some("resource".to_string()),
        ..Default::default()
    };
    let filter = manager.filter(&filter).unwrap();
    assert_eq!(filter.1.len(), 1);
    assert_eq!(filter.1[0].id, rsvp.id);

    let filter = ReservationFilter {
        user_id: Some("user1".to_string()),
        resource_id: Some("resource".to_string()),
        ..Default::default()
    };
    let filter = manager.filter(&filter).unwrap();
    assert_eq!(filter.1.len(), 0);
}

#[test]
fn reserve_rejects_empty_user() {
    let mut manager = ReservationManager::new();
    let rsvp = Reservation::new_pendding(
        "",
        "resource",
        ts("2021-01-01T00:00:00Z"),
        ts("2021-01-02T00:00:00Z"),
        "note",
    );
    assert!(matches!(manager.reserve(rsvp), Err(Error::InvalidUserId)));
}

#[test]
fn reserve_rejects_missing_end() {
    let mut manager = ReservationManager::new();
    let mut rsvp = default_rsvp();
    rsvp.end = None;
    assert!(matches!(manager.reserve(rsvp), Err(Error::InvalidTimespan)));
}

#[test]
fn reserve_normalises_unknown_status_to_pending() {
    let mut manager = ReservationManager::new();
    let mut rsvp = default_rsvp();
    rsvp.status = 0;
    assert_eq!(manager.reserve(rsvp).unwrap().status, 1);
    let mut other = Reservation::new_pendding(
        "user",
        "room",
        ts("2021-01-01T00:00:00Z"),
        ts("2021-01-02T00:00:00Z"),
        "",
    );
    other.status = 42;
    assert_eq!(manager.reserve(other).unwrap().status, 1);
}

#[test]
fn adjacent_windows_do_not_conflict() {
    let mut manager = ReservationManager::new();
    manager.reserve(default_rsvp()).unwrap();
    let next = Reservation::new_pendding(
        "user",
        "resource",
        ts("2021-01-02T00:00:00Z"),
        ts("2021-01-03T00:00:00Z"),
        "note",
    );
    assert_eq!(manager.reserve(next).unwrap().id, 2);
}

#[test]
fn other_resources_do_not_conflict() {
    let mut manager = ReservationManager::new();
    manager.reserve(default_rsvp()).unwrap();
    let other = Reservation::new_pendding(
        "user",
        "room",
        ts("2021-01-01T00:00:00Z"),
        ts("2021-01-02T00:00:00Z"),
        "note",
    );
    assert_eq!(manager.reserve(other).unwrap().id, 2);
}

#[test]
fn overlapping_reserves_exactly_one_succeeds() {
    let mut manager = ReservationManager::new();
    let a = Reservation::new_pendding(
        "alice",
        "room",
        ts("2021-03-01T10:00:00Z"),
        ts("2021-03-01T12:00:00Z"),
        "",
    );
    let b = Reservation::new_pendding(
        "bob",
        "room",
        ts("2021-03-01T11:00:00Z"),
        ts("2021-03-01T13:00:00Z"),
        "",
    );
    assert!(manager.reserve(a).is_ok());
    assert!(matches!(manager.reserve(b), Err(Error::ConflictReservation(_))));
}

#[test]
fn cancelled_window_can_be_reserved_again() {
    let mut manager = ReservationManager::new();
    let first = manager.reserve(default_rsvp()).unwrap();
    manager.delete(first.id).unwrap();
    let again = manager.reserve(default_rsvp()).unwrap();
    assert_eq!(again.id, 2);
}

#[test]
fn query_rejects_fully_open_range() {
    let manager = ReservationManager::new();
    let query = ReservationQuery::default();
    assert!(matches!(manager.query(&query), Err(Error::InvalidTimespan)));
}

#[test]
fn query_pages_and_orders() {
    let mut manager = ReservationManager::new();
    for day in 1..=5 {
        let start = ts(&format!("2021-01-{:02}T00:00:00Z", day));
        let end = ts(&format!("2021-01-{:02}T12:00:00Z", day));
        manager.reserve(Reservation::new_pendding("user", "room", start, end, "")).unwrap();
    }
    let q = ReservationQuery { page_size: 2, page: 2, ..query_until_now() };
    let ids: Vec<i64> = manager.query(&q).unwrap().iter().map(|r| r.id).collect();
    assert_eq!(ids, vec![3, 4]);
    let q = ReservationQuery { page_size: 2, page: 1, is_desc: true, ..query_until_now() };
    let ids: Vec<i64> = manager.query(&q).unwrap().iter().map(|r| r.id).collect();
    assert_eq!(ids, vec![5, 4]);
    let q = ReservationQuery { page_size: 2, page: 3, ..query_until_now() };
    let ids: Vec<i64> = manager.query(&q).unwrap().iter().map(|r| r.id).collect();
    assert_eq!(ids, vec![5]);
}
