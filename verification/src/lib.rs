//! Deferred publish scheduling.
//!
//! A pending delivery carries a due time, a target subject and a payload.
//! The schedule keeps pending deliveries sorted by due time (ties in
//! first-in-first-out order) together with an identifier index, so that an
//! identified delivery can be cancelled or replaced before it fires.
//! Identified deliveries are mirrored to a durable store as an exact
//! byte-level record, and the schedule can be rebuilt from those records
//! after a restart.

pub mod clock;
pub mod codec;
pub mod dispatch;
pub mod intake;
pub mod recovery;
pub mod sched;
