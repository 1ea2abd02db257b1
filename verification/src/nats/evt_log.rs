//! Configuration and subject grammar of the broker-backed event log.

use vstd::prelude::*;
use vstd::string::StringExecFns;

verus! {

/// Configuration for the broker-backed event log.
pub struct Config {
    /// Address of the broker server.
    pub server_addr: String,
    /// Path of a credentials file, if the broker needs one.
    pub credentials: Option<String>,
    /// Name of the event stream; also the first subject token.
    pub evt_stream_name: String,
    /// Size cap of the stream in bytes; `-1` for unlimited.
    pub evt_stream_max_bytes: i64,
    /// Whether to create the stream on setup.
    pub setup: bool,
}

/// The default name of the event stream.
pub fn evt_stream_name_default() -> (r: String)
    ensures
        r@ == "evts"@,
{
    ("evts").to_owned()
}

/// The default size cap: unlimited, by the `-1` sentinel.
pub fn evt_stream_max_bytes_default() -> (r: i64)
    ensures
        r == -1,
{
    -1
}

impl Default for Config {
    /// A local broker at its usual port, the default stream name and
    /// no size cap; no setup.
    fn default() -> (r: Config)
        ensures
            r.server_addr@ == "localhost:4222"@,
            r.credentials is None,
            r.evt_stream_name@ == "evts"@,
            r.evt_stream_max_bytes == -1,
            !r.setup,
    {
        Config {
            server_addr: ("localhost:4222").to_owned(),
            credentials: None,
            evt_stream_name: evt_stream_name_default(),
            evt_stream_max_bytes: evt_stream_max_bytes_default(),
            setup: false,
        }
    }
}

/// The subject one entity's events are addressed to:
/// `{stream}.{entity_type}.{id}`.
pub fn subject_for_id(stream: &str, entity_type: &str, id: &str) -> (r: String)
    ensures
        r@ == stream@ + "."@ + entity_type@ + "."@ + id@,
{
    let mut s = stream.to_owned();
    s.append(".");
    s.append(entity_type);
    s.append(".");
    s.append(id);
    s
}

/// The subject filter that fans out over all ids of one entity type:
/// `{stream}.{entity_type}.*`.
pub fn subject_for_type(stream: &str, entity_type: &str) -> (r: String)
    ensures
        r@ == stream@ + "."@ + entity_type@ + "."@ + "*"@,
{
    let mut s = stream.to_owned();
    s.append(".");
    s.append(entity_type);
    s.append(".");
    s.append("*");
    s
}

/// The subject wildcard the stream is created with: `{stream}.>`.
pub fn subject_all(stream: &str) -> (r: String)
    ensures
        r@ == stream@ + ".>"@,
{
    let mut s = stream.to_owned();
    s.append(".>");
    s
}

} // verus!
