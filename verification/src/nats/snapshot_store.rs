//! Configuration of the broker-backed snapshot store.
//!
//! The stored value is the wire envelope of [`crate::wire`]: the
//! sequence number and the state bytes, length-delimited, so the pair
//! fits a single KV value without ambiguity.

use vstd::prelude::*;
use vstd::string::StringExecFns;

verus! {

/// Configuration for the broker-backed snapshot store.
pub struct Config {
    /// Address of the broker server.
    pub server_addr: String,
    /// Path of a credentials file, if the broker needs one.
    pub credentials: Option<String>,
    /// Name of the KV bucket holding the snapshots.
    pub bucket_name: String,
    /// Size cap of the bucket in bytes; `-1` for unlimited.
    pub bucket_max_bytes: i64,
    /// Whether to create the bucket on setup.
    pub setup: bool,
}

/// The default size cap: unlimited, by the `-1` sentinel.
pub fn bucket_max_bytes_default() -> (r: i64)
    ensures
        r == -1,
{
    -1
}

/// The default name of the snapshot bucket.
pub fn bucket_name_default() -> (r: String)
    ensures
        r@ == "snapshots"@,
{
    ("snapshots").to_owned()
}

impl Default for Config {
    /// A local broker at its usual port and the default bucket name;
    /// no size cap, no setup.
    fn default() -> (r: Config)
        ensures
            r.server_addr@ == "localhost:4222"@,
            r.credentials is None,
            r.bucket_name@ == "snapshots"@,
            r.bucket_max_bytes == -1,
            !r.setup,
    {
        Config {
            server_addr: ("localhost:4222").to_owned(),
            credentials: None,
            bucket_name: bucket_name_default(),
            bucket_max_bytes: bucket_max_bytes_default(),
            setup: false,
        }
    }
}

} // verus!
