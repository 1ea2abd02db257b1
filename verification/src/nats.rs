//! The broker-backed persistence adapters.
//!
//! The event log lives on a stream-oriented message broker: appends are
//! addressed to the subject `{stream}.{entity_type}.{id}`, guarded by
//! the broker's per-subject compare-and-set, and replay reads the
//! subject back from a chosen sequence number. The snapshot store lives
//! in a broker KV bucket, one envelope value per id.
//!
//! This module holds what of those adapters is computation: their
//! configuration and the subject grammar. The connection handling and
//! the broker calls themselves are I/O and live with the embedding
//! program.

pub mod evt_log;
pub mod snapshot_store;
