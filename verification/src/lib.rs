//! A unified, timestamp-indexed store for GPS trackpoints.
//!
//! Trackpoints arrive from heterogeneous sources (a legacy flat JSON
//! location log, GPX track files); the adapters reconcile them into one
//! canonical record, the store keys them by timestamp with
//! last-write-wins semantics, and the query engine answers "where was
//! the device at time T", interpolating between recorded samples.
//!
//! All fractional quantities (degrees, meters, meters per second) are
//! held in fixed-point micro-units: an `i64` carrying one million times
//! the underlying value. Callers that deal in floating point convert at
//! the boundary.

pub mod adapters;
pub mod point;
pub mod query;
pub mod store;
