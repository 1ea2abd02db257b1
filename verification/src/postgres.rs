//! The relational persistence adapters.
//!
//! The event log lives in a single SQL table keyed by `(id, seq_no)`:
//! the runtime computes the next per-entity sequence number itself and
//! the table's primary key turns a concurrent append into an insert
//! failure, which surfaces as the optimistic-concurrency conflict. The
//! live tail is a polling cursor. The snapshot store is an upsert
//! table keyed by id.
//!
//! This module holds what of those adapters is computation: their
//! configuration, the connection string, and the sequence-number
//! decisions of the append and polling paths. The pool handling and
//! the SQL calls themselves are I/O and live with the embedding
//! program.

pub mod evt_log;
