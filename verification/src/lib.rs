//! Core of an event-sourcing runtime.
//!
//! A user-supplied domain type (commands, events, a state and the handlers
//! between them, see [`entity::EventSourced`]) becomes a live *entity* whose
//! state is durably reconstructable from an append-only log of events
//! ([`evt_log::EvtLog`]), optionally accelerated by periodic snapshots
//! ([`snapshot_store::SnapshotStore`]).
//!
//! The runtime in [`entity`] restores a snapshot, replays the tail of the
//! log and then serves commands, appending each produced event with an
//! optimistic-concurrency check before folding it into the in-memory state.
//! Conversion of events and state to and from bytes happens through a
//! [`binarize::Binarize`] codec passed as a value.

pub mod binarize;
pub mod counter;
pub mod entity;
pub mod evt_log;
pub mod nats;
pub mod postgres;
pub mod seq_no;
pub mod snapshot_store;
pub mod wire;
