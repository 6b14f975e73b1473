//! A reservation engine: exclusive time-window ownership of named resources.
//!
//! The library holds the domain model, the conflict-diagnostic parser, the
//! error taxonomy and its mapping to RPC status codes, the pager logic of
//! cursor-based filtering, an in-memory engine that keeps the no-overlap
//! invariant, and the request facade over it.

pub mod config;
pub mod conflict;
pub mod error;
pub mod manager;
pub mod pager;
pub mod query;
pub mod reservation;
pub mod service;
pub mod status;
pub mod text;
pub mod time;
