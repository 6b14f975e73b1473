use reservation::conflict::{describe_conflict, ReservationConflict, ReservationConflictInfo, ReservationWindow};
use reservation::error::{DbFailure, Error, RpcCode};
use reservation::time::Timestamp;

const DIAGNOSTIC: &str = "Key (resource_id, timespan)=(resource, [\"2021-01-01 12:00:00+00\",\"2021-01-02 12:00:00+00\")) conflicts with existing key (resource_id, timespan)=(resource, [\"2021-01-01 00:00:00+00\",\"2021-01-02 00:00:00+00\")).";

#[test]
fn test_parse_conflict() {
    let conflict = ReservationConflictInfo::parse(DIAGNOSTIC);
    assert!(matches!(conflict, ReservationConflictInfo::Parsed(_)));
}

#[test]
fn parsed_conflict_holds_both_windows() {
    let c = ReservationConflict::parse(DIAGNOSTIC).unwrap();
    assert_eq!(c.new.resource_id, "resource");
    assert_eq!(c.new.start, Timestamp::new(1_609_502_400, 0));
    assert_eq!(c.new.end, Timestamp::new(1_609_588_800, 0));
    assert_eq!(c.old.resource_id, "resource");
    assert_eq!(c.old.start, Timestamp::new(1_609_459_200, 0));
    assert_eq!(c.old.end, Timestamp::new(1_609_545_600, 0));
}

#[test]
fn utc_offset_is_applied() {
    let text = DIAGNOSTIC.replace("2021-01-01 12:00:00+00", "2021-01-01 14:00:00+02");
    let c = ReservationConflict::parse(&text).unwrap();
    assert_eq!(c.new.start, Timestamp::new(1_609_502_400, 0));
    let text = DIAGNOSTIC.replace("2021-01-01 12:00:00+00", "2021-01-01 07:00:00-05");
    let c = ReservationConflict::parse(&text).unwrap();
    assert_eq!(c.new.start, Timestamp::new(1_609_502_400, 0));
}

#[test]
fn mutated_timestamp_is_raw() {
    let positions: Vec<usize> = DIAGNOSTIC.match_indices("2021").map(|(i, _)| i).collect();
    assert_eq!(positions.len(), 4);
    for start in positions {
        for offset in 0..22 {
            let mut chars: Vec<char> = DIAGNOSTIC.chars().collect();
            chars[start + offset] = 'x';
            let text: String = chars.into_iter().collect();
            match ReservationConflictInfo::parse(&text) {
                ReservationConflictInfo::Raw(s) => assert_eq!(s, text),
                other => panic!("parsed a mutated diagnostic: {:?}", other),
            }
        }
    }
}

#[test]
fn impossible_date_is_raw() {
    let text = DIAGNOSTIC.replace("2021-01-02 12:00:00+00", "2021-02-30 12:00:00+00");
    assert!(matches!(ReservationConflictInfo::parse(&text), ReservationConflictInfo::Raw(_)));
}

#[test]
fn single_fragment_is_raw() {
    let text = "Key (resource_id, timespan)=(resource, [\"2021-01-01 12:00:00+00\",\"2021-01-02 12:00:00+00\")).";
    assert!(matches!(ReservationConflictInfo::parse(text), ReservationConflictInfo::Raw(_)));
    assert!(matches!(ReservationConflictInfo::parse(""), ReservationConflictInfo::Raw(_)));
}

#[test]
fn described_conflict_parses_back() {
    let new = ReservationWindow {
        resource_id: "room_7".to_string(),
        start: Timestamp::new(1_609_502_400, 0),
        end: Timestamp::new(1_609_588_800, 0),
    };
    let old = ReservationWindow {
        resource_id: "room_7".to_string(),
        start: Timestamp::new(1_609_459_200, 0),
        end: Timestamp::new(1_609_545_600, 0),
    };
    let text = describe_conflict(&new, &old);
    assert_eq!(
        text,
        "Key (resource_id, timespan)=(room_7, [\"2021-01-01 12:00:00+00\",\"2021-01-02 12:00:00+00\")) conflicts with existing key (resource_id, timespan)=(room_7, [\"2021-01-01 00:00:00+00\",\"2021-01-02 00:00:00+00\"))."
    );
    let c = ReservationConflict::parse(&text).unwrap();
    assert_eq!(c, ReservationConflict { new, old });
}

#[test]
fn unrepresentable_instant_is_described_plainly() {
    let new = ReservationWindow {
        resource_id: "a".to_string(),
        start: Timestamp::new(0, 5),
        end: Timestamp::new(10, 0),
    };
    let old = ReservationWindow {
        resource_id: "b".to_string(),
        start: Timestamp::new(0, 0),
        end: Timestamp::new(10, 0),
    };
    assert_eq!(
        describe_conflict(&new, &old),
        "Key (resource_id)=(a) conflicts with existing key (resource_id)=(b)."
    );
}

fn exclusion(schema: &str, table: &str) -> DbFailure {
    DbFailure::Database {
        code: "23P01".to_string(),
        schema: Some(schema.to_string()),
        table: Some(table.to_string()),
        detail: Some(DIAGNOSTIC.to_string()),
        message: "conflicting key value violates exclusion constraint".to_string(),
    }
}

#[test]
fn exclusion_violation_becomes_conflict() {
    match Error::from_db(exclusion("rsvp", "reservations")) {
        Error::ConflictReservation(ReservationConflictInfo::Parsed(c)) => {
            assert_eq!(c.old.start, Timestamp::new(1_609_459_200, 0))
        }
        e => panic!("unexpected: {:?}", e),
    }
}

#[test]
fn other_tables_are_database_errors() {
    assert!(matches!(Error::from_db(exclusion("public", "reservations")), Error::DatabaseError(_)));
    assert!(matches!(Error::from_db(exclusion("rsvp", "other")), Error::DatabaseError(_)));
    assert!(matches!(Error::from_db(DbFailure::RowNotFound), Error::NotFound));
    match Error::from_db(DbFailure::Other("pool timed out".to_string())) {
        Error::DatabaseError(m) => assert_eq!(m, "pool timed out"),
        e => panic!("unexpected: {:?}", e),
    }
}

#[test]
fn every_error_has_its_status() {
    let cases = vec![
        (Error::InvalidUserId, RpcCode::InvalidArgument, "Invalid User ID"),
        (Error::InvalidTimespan, RpcCode::InvalidArgument, "Invalid timespan"),
        (Error::InvalidId, RpcCode::InvalidArgument, "Invalid ID"),
        (Error::InvalidConfig("x".to_string()), RpcCode::InvalidArgument, "Invalid config"),
        (Error::NotFound, RpcCode::NotFound, "Row not found"),
        (Error::Unknown, RpcCode::Internal, "Unknown error"),
        (Error::DatabaseError("secret sql".to_string()), RpcCode::Internal, "Database error"),
        (Error::IoError("disk".to_string()), RpcCode::Internal, "IO error"),
    ];
    for (e, code, message) in cases {
        let s = e.to_status();
        assert_eq!(s.code, code);
        assert_eq!(s.message, message);
    }
    let raw = Error::ConflictReservation(ReservationConflictInfo::Raw("odd".to_string())).to_status();
    assert_eq!(raw.code, RpcCode::AlreadyExists);
    assert_eq!(raw.message, "Conflict reservation: odd");
}
