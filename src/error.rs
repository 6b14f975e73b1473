//! Error kinds, the classification of persistence failures, and the mapping
//! of errors to RPC status codes.

use crate::conflict::{describe_conflict, describes, ReservationConflictInfo};
use crate::text::{chars_of, push_all, push_literal, same_text, string_of};
use vstd::prelude::*;

verus! {

#[derive(Clone, Debug)]
pub enum Error {
    InvalidUserId,
    InvalidTimespan,
    ConflictReservation(ReservationConflictInfo),
    Unknown,
    InvalidId,
    DatabaseError(String),
    NotFound,
    IoError(String),
    InvalidConfig(String),
}

/// A failure as the persistence layer reports it, in plain values.
#[derive(Clone, Debug)]
pub enum DbFailure {
    /// An error raised by the database, with its SQLSTATE code and the
    /// schema, table and detail that it names.
    Database {
        code: String,
        schema: Option<String>,
        table: Option<String>,
        detail: Option<String>,
        message: String,
    },
    /// A statement that had to return a row returned none.
    RowNotFound,
    /// Any other failure (connection, protocol, decoding).
    Other(String),
}

/// A violation of the exclusion index on `rsvp.reservations`.
pub open spec fn is_exclusion_violation(
    code: Seq<char>,
    schema: Option<String>,
    table: Option<String>,
) -> bool {
    &&& code == "23P01"@
    &&& schema matches Some(s) && s@ == "rsvp"@
    &&& table matches Some(t) && t@ == "reservations"@
}

pub open spec fn detail_text(detail: Option<String>) -> Seq<char> {
    match detail {
        Some(d) => d@,
        None => Seq::empty(),
    }
}

/// Whether `a` holds a string equal to `lit`.
fn names(a: &Option<String>, lit: &str) -> (r: bool)
    ensures
        r == (a matches Some(s) && s@ == lit@),
{
    match a {
        Some(s) => same_text(s.as_str(), lit),
        None => false,
    }
}

impl Error {
    /// The error that a persistence failure stands for: a violation of the
    /// exclusion index is a conflict whose diagnostic is parsed, a missing row
    /// is `NotFound`, anything else a database error.
    pub fn from_db(f: DbFailure) -> (r: Error)
        ensures
            match f {
                DbFailure::Database { code, schema, table, detail, message } => if is_exclusion_violation(
                    code@,
                    schema,
                    table,
                ) {
                    r matches Error::ConflictReservation(info) && info.windows()
                        == crate::conflict::parse_diagnostic(detail_text(detail))
                } else {
                    r matches Error::DatabaseError(m) && m@ == message@
                },
                DbFailure::RowNotFound => r is NotFound,
                DbFailure::Other(m) => r matches Error::DatabaseError(e) && e@ == m@,
            },
    {
        match f {
            DbFailure::Database { code, schema, table, detail, message } => {
                if same_text(code.as_str(), "23P01") && names(&schema, "rsvp") && names(
                    &table,
                    "reservations",
                ) {
                    let text = match detail {
                        Some(d) => d,
                        None => String::new(),
                    };
                    Error::ConflictReservation(ReservationConflictInfo::parse(text.as_str()))
                } else {
                    Error::DatabaseError(message)
                }
            },
            DbFailure::RowNotFound => Error::NotFound,
            DbFailure::Other(m) => Error::DatabaseError(m),
        }
    }

    pub open spec fn spec_rpc_code(&self) -> RpcCode {
        match self {
            Error::InvalidUserId | Error::InvalidTimespan | Error::InvalidConfig(_)
            | Error::InvalidId => RpcCode::InvalidArgument,
            Error::ConflictReservation(_) => RpcCode::AlreadyExists,
            Error::NotFound => RpcCode::NotFound,
            Error::Unknown | Error::DatabaseError(_) | Error::IoError(_) => RpcCode::Internal,
        }
    }

    /// The message a client sees; internal details are not passed on.
    pub open spec fn spec_message(&self) -> Seq<char> {
        match self {
            Error::InvalidUserId => "Invalid User ID"@,
            Error::InvalidTimespan => "Invalid timespan"@,
            Error::InvalidConfig(_) => "Invalid config"@,
            Error::InvalidId => "Invalid ID"@,
            Error::NotFound => "Row not found"@,
            Error::Unknown => "Unknown error"@,
            Error::DatabaseError(_) => "Database error"@,
            Error::IoError(_) => "IO error"@,
            Error::ConflictReservation(_) => Seq::empty(),
        }
    }

    /// The RPC status that reports this error.
    pub fn to_status(&self) -> (r: RpcStatus)
        ensures
            r.code == self.spec_rpc_code(),
            match self {
                Error::ConflictReservation(info) => r.message@.len() >= 22 && r.message@.subrange(0, 22)
                    == "Conflict reservation: "@ && match info {
                    ReservationConflictInfo::Raw(s) => r.message@.subrange(22, r.message@.len() as int) == s@,
                    ReservationConflictInfo::Parsed(c) => describes(
                        r.message@.subrange(22, r.message@.len() as int),
                        c.new.model(),
                        c.old.model(),
                    ),
                },
                _ => r.message@ == self.spec_message(),
            },
    {
        match self {
            Error::InvalidUserId => RpcStatus::new(RpcCode::InvalidArgument, "Invalid User ID"),
            Error::InvalidTimespan => RpcStatus::new(RpcCode::InvalidArgument, "Invalid timespan"),
            Error::InvalidConfig(_) => RpcStatus::new(RpcCode::InvalidArgument, "Invalid config"),
            Error::InvalidId => RpcStatus::new(RpcCode::InvalidArgument, "Invalid ID"),
            Error::NotFound => RpcStatus::new(RpcCode::NotFound, "Row not found"),
            Error::Unknown => RpcStatus::new(RpcCode::Internal, "Unknown error"),
            Error::DatabaseError(_) => RpcStatus::new(RpcCode::Internal, "Database error"),
            Error::IoError(_) => RpcStatus::new(RpcCode::Internal, "IO error"),
            Error::ConflictReservation(info) => {
                let prefix = "Conflict reservation: ";
                proof {
                    reveal_strlit("Conflict reservation: ");
                }
                let mut out: Vec<char> = Vec::new();
                push_literal(&mut out, prefix);
                let detail = match info {
                    ReservationConflictInfo::Raw(s) => s.clone(),
                    ReservationConflictInfo::Parsed(c) => describe_conflict(&c.new, &c.old),
                };
                let dc = chars_of(detail.as_str());
                push_all(&mut out, &dc);
                assert(out@.subrange(0, 22) =~= prefix@);
                assert(out@.subrange(22, out@.len() as int) =~= detail@);
                RpcStatus { code: RpcCode::AlreadyExists, message: string_of(&out) }
            },
        }
    }
}

/// The status codes of the RPC layer that this service reports.
#[derive(Clone, Copy, Debug, PartialEq, Eq, Structural)]
pub enum RpcCode {
    InvalidArgument,
    AlreadyExists,
    NotFound,
    Internal,
}

/// A status code with a short message for the client.
#[derive(Clone, Debug)]
pub struct RpcStatus {
    pub code: RpcCode,
    pub message: String,
}

impl RpcStatus {
    pub fn new(code: RpcCode, message: &str) -> (r: RpcStatus)
        ensures
            r.code == code,
            r.message@ == message@,
    {
        RpcStatus { code, message: message.to_owned() }
    }
}

} // verus!
