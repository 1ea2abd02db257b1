//! Configuration and sequence-number decisions of the relational event
//! log.

use vstd::prelude::*;
use vstd::string::StringExecFns;
use crate::seq_no::SeqNo;
use crate::wire::{append_decimal, spec_decimal};

verus! {

/// Configuration for the relational event log.
pub struct Config {
    /// Database host.
    pub host: String,
    /// Database port.
    pub port: u16,
    /// Database user.
    pub user: String,
    /// Database password.
    pub password: String,
    /// Database name.
    pub dbname: String,
    /// TLS mode, as the database driver understands it.
    pub sslmode: String,
    /// Name of the events table.
    pub evts_table: String,
    /// Cadence of the polling tail, in milliseconds.
    pub poll_interval: u64,
    /// Capacity of the per-id fan-out channel.
    pub id_broadcast_capacity: usize,
    /// Whether to create the table on setup.
    pub setup: bool,
}

/// The default name of the events table.
pub fn evts_table_default() -> (r: String)
    ensures
        r@ == "evts"@,
{
    ("evts").to_owned()
}

/// The default polling cadence: two seconds.
pub fn poll_interval_default() -> (r: u64)
    ensures
        r == 2000,
{
    2000
}

/// The default fan-out capacity: one.
pub fn id_broadcast_capacity_default() -> (r: usize)
    ensures
        r == 1,
{
    1
}

/// The connection string `cnn_config` builds.
pub open spec fn spec_cnn_config(c: Config) -> Seq<char> {
    "host="@ + c.host@ + " port="@ + spec_decimal(c.port as nat) + " user="@ + c.user@
        + " password="@ + c.password@ + " dbname="@ + c.dbname@ + " sslmode="@ + c.sslmode@
}

impl Config {
    /// The connection string for the database driver:
    /// `host=… port=… user=… password=… dbname=… sslmode=…`.
    pub fn cnn_config(&self) -> (r: String)
        ensures
            r@ == spec_cnn_config(*self),
    {
        let mut s = ("host=").to_owned();
        s.append(self.host.as_str());
        s.append(" port=");
        append_decimal(&mut s, self.port as u64);
        s.append(" user=");
        s.append(self.user.as_str());
        s.append(" password=");
        s.append(self.password.as_str());
        s.append(" dbname=");
        s.append(self.dbname.as_str());
        s.append(" sslmode=");
        s.append(self.sslmode.as_str());
        s
    }
}

impl Default for Config {
    /// A local database with its usual port and user, suitable for
    /// local testing only.
    fn default() -> (r: Config)
        ensures
            r.host@ == "localhost"@,
            r.port == 5432,
            r.user@ == "postgres"@,
            r.password@ == ""@,
            r.dbname@ == "postgres"@,
            r.sslmode@ == "prefer"@,
            r.evts_table@ == "evts"@,
            r.poll_interval == 2000,
            r.id_broadcast_capacity == 1,
            !r.setup,
    {
        Config {
            host: ("localhost").to_owned(),
            port: 5432,
            user: ("postgres").to_owned(),
            password: ("").to_owned(),
            dbname: ("postgres").to_owned(),
            sslmode: ("prefer").to_owned(),
            evts_table: evts_table_default(),
            poll_interval: poll_interval_default(),
            id_broadcast_capacity: id_broadcast_capacity_default(),
            setup: false,
        }
    }
}

/// The sequence number an append inserts: one past the expected last,
/// or 1 for an entity's first event. `None` when the entity is full —
/// the append must fail rather than wrap.
pub fn insert_seq_no(expected_last_seq_no: Option<SeqNo>) -> (r: Option<SeqNo>)
    ensures
        match r {
            Some(n) => n.as_int() == match expected_last_seq_no {
                None => 1int,
                Some(l) => l.as_int() + 1,
            },
            None => expected_last_seq_no matches Some(l) && l.as_int()
                == crate::seq_no::MAX_SEQ_NO,
        },
{
    match expected_last_seq_no {
        None => Some(SeqNo::min()),
        Some(l) => l.next(),
    }
}

/// Where the polling tail resumes after delivering `seq_no`: the next
/// integer strictly greater, or `None` at the top of the range.
pub fn tail_resume_after(seq_no: SeqNo) -> (r: Option<SeqNo>)
    ensures
        match r {
            Some(n) => n.as_int() == seq_no.as_int() + 1,
            None => seq_no.as_int() == crate::seq_no::MAX_SEQ_NO,
        },
{
    seq_no.next()
}

} // verus!
