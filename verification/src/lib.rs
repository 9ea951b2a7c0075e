//! Presence table for collaborative sessions: per-client transient state,
//! versioned, merged last-writer-wins, and exchanged as compact updates.
//!
//! * [`model`] is the mathematical model that every contract speaks of.
//! * [`table`] is the executable table.
//! * [`wire`] is the byte format of updates.
//! * [`laws`] states and proves what holds of the table in general.
//!
//! The table reads no clock: every write takes the time that the caller has
//! read, and stamps what it changes with it.

pub mod error;
pub mod laws;
pub mod model;
pub mod table;
pub mod wire;

pub use error::Error;
pub use model::MergeOutcome;
pub use table::{MergeResult, PresenceEntry, PresenceTable};
pub use wire::{decode_update, encode_update, UpdateRecord};
