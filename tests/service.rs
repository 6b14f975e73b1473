use reservation::error::RpcCode;
use reservation::manager::ReservationManager;
use reservation::query::{ReservationFilter, ReservationQuery};
use reservation::reservation::Reservation;
use reservation::service::{
    CancelRequest, ConfirmRequest, FilterRequest, GetRequest, QueryRequest, ReserveRequest, RsvpService,
    UpdateRequest,
};
use reservation::status::ReservationStatus;
use reservation::time::Timestamp;

fn ts(text: &str) -> Timestamp {
    let t = chrono::DateTime::parse_from_rfc3339(text).unwrap();
    Timestamp::new(t.timestamp(), t.timestamp_subsec_nanos() as i32)
}

fn now() -> Timestamp {
    let t = chrono::Utc::now();
    Timestamp::new(t.timestamp(), t.timestamp_subsec_nanos() as i32)
}

fn room_request(note: &str) -> ReserveRequest {
    ReserveRequest {
        reservation: Some(Reservation::new_pendding(
            "user",
            "room",
            ts("2021-01-01T00:00:00Z"),
            ts("2021-01-02T00:00:00Z"),
            note,
        )),
    }
}

#[test]
fn test_reserve() {
    let mut service = RsvpService::new(ReservationManager::new());
    let response = service.reserve(room_request("note")).unwrap();
    assert_eq!(response.reservation.as_ref().unwrap().id, 1);
}

#[test]
fn test_confirm() {
    let mut service = RsvpService::new(ReservationManager::new());
    let response = service.reserve(room_request("note")).unwrap();
    assert_eq!(response.reservation.as_ref().unwrap().id, 1);
    assert_eq!(response.reservation.as_ref().unwrap().status, ReservationStatus::Pending.code());
    let response = service.confirm(ConfirmRequest { id: 1 }).unwrap();
    assert_eq!(response.reservation.as_ref().unwrap().status, ReservationStatus::Confirmed.code());
}

#[test]
fn test_update() {
    let mut service = RsvpService::new(ReservationManager::new());
    let response = service.reserve(room_request("note")).unwrap();
    assert_eq!(response.reservation.as_ref().unwrap().id, 1);
    let request = UpdateRequest { id: 1, note: "new note".to_string() };
    let response = service.update(request).unwrap();
    assert_eq!(response.reservation.as_ref().unwrap().note, "new note");
}

// Cancelling removes the reservation; the response holds it as it was.
#[test]
fn test_cancel() {
    let mut service = RsvpService::new(ReservationManager::new());
    let response = service.reserve(room_request("note")).unwrap();
    assert_eq!(response.reservation.as_ref().unwrap().id, 1);
    let response = service.cancel(CancelRequest { id: 1 }).unwrap();
    assert_eq!(response.reservation.as_ref().unwrap().id, 1);
    let status = service.get(GetRequest { id: 1 }).err().unwrap();
    assert_eq!(status.code, RpcCode::NotFound);
}

#[test]
fn test_get() {
    let mut service = RsvpService::new(ReservationManager::new());
    let response = service.reserve(room_request("new note")).unwrap();
    assert_eq!(response.reservation.as_ref().unwrap().id, 1);
    let response = service.get(GetRequest { id: 1 }).unwrap();
    assert_eq!(response.reservation.as_ref().unwrap().note, "new note");
}

#[test]
fn test_query() {
    let mut service = RsvpService::new(ReservationManager::new());
    let response = service.reserve(room_request("note")).unwrap();
    assert_eq!(response.reservation.as_ref().unwrap().id, 1);
    let query = ReservationQuery { end: Some(now()), ..Default::default() };
    let items = service.query(QueryRequest { query: Some(query) }).unwrap();
    let mut stream = items.into_iter();
    assert_eq!(stream.next().unwrap().id, 1);
    assert!(stream.next().is_none());
}

#[test]
fn test_filter() {
    let mut service = RsvpService::new(ReservationManager::new());
    let response = service.reserve(room_request("note")).unwrap();
    assert_eq!(response.reservation.as_ref().unwrap().id, 1);
    let request = FilterRequest { filter: Some(ReservationFilter { page_size: 0, ..Default::default() }) };
    let response = service.filter(request).unwrap();
    assert_eq!(response.reservation.len(), 1);
}

#[test]
fn missing_payloads_are_invalid_arguments() {
    let mut service = RsvpService::new(ReservationManager::new());
    let status = service.reserve(ReserveRequest { reservation: None }).err().unwrap();
    assert_eq!(status.code, RpcCode::InvalidArgument);
    assert_eq!(status.message, "Invalid reservation");
    let status = service.query(QueryRequest { query: None }).err().unwrap();
    assert_eq!(status.code, RpcCode::InvalidArgument);
    let status = service.filter(FilterRequest { filter: None }).err().unwrap();
    assert_eq!(status.code, RpcCode::InvalidArgument);
}

#[test]
fn invalid_timespan_is_invalid_argument() {
    let mut service = RsvpService::new(ReservationManager::new());
    let request = ReserveRequest {
        reservation: Some(Reservation::new_pendding(
            "user",
            "resource",
            ts("2021-01-01T00:00:00Z"),
            ts("2021-01-01T00:00:00Z"),
            "note",
        )),
    };
    let status = service.reserve(request).err().unwrap();
    assert_eq!(status.code, RpcCode::InvalidArgument);
    assert_eq!(status.message, "Invalid timespan");
}

#[test]
fn conflict_is_already_exists() {
    let mut service = RsvpService::new(ReservationManager::new());
    service.reserve(room_request("note")).unwrap();
    let status = service.reserve(room_request("again")).err().unwrap();
    assert_eq!(status.code, RpcCode::AlreadyExists);
    assert_eq!(
        status.message,
        "Conflict reservation: Key (resource_id, timespan)=(room, [\"2021-01-01 00:00:00+00\",\"2021-01-02 00:00:00+00\")) conflicts with existing key (resource_id, timespan)=(room, [\"2021-01-01 00:00:00+00\",\"2021-01-02 00:00:00+00\"))."
    );
}

#[test]
fn confirm_twice_is_not_found() {
    let mut service = RsvpService::new(ReservationManager::new());
    service.reserve(room_request("note")).unwrap();
    service.confirm(ConfirmRequest { id: 1 }).unwrap();
    let status = service.confirm(ConfirmRequest { id: 1 }).err().unwrap();
    assert_eq!(status.code, RpcCode::NotFound);
    assert_eq!(status.message, "Row not found");
}
