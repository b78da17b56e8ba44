//! A periodically refreshed roster of checked-in students.
//!
//! The library holds the verified core of the service: the attendance
//! aggregation pipeline that turns raw participant and check-in records into
//! a time-ordered snapshot, the snapshot store and refresh trigger that the
//! query layer shares with the background fetcher, and the scheduler's
//! decision logic. Network transport and HTTP routing live outside.

pub mod pipeline;
pub mod scheduler;
pub mod store;
pub mod time;
pub mod zone;
