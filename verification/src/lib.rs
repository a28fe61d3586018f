//! Client-side attribute collection and marshalling layer for a batch
//! workload manager.
//!
//! The crate models named, optionally resource-qualified attribute values
//! together with their comparison operators, supports merge-on-insert and
//! filter evaluation over such collections, converts collections to and from
//! the flat record chains exchanged with the batch server's client library,
//! and coerces raw attribute strings into structured values.

pub mod api;
pub mod assoc;
pub mod attribs;
pub mod attrl;
pub mod bridge;
pub mod coerce;
pub mod criteria;
pub mod op;
pub mod resource;
pub mod status;
pub mod structured;
pub mod strutil;
