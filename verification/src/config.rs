//! DHT-wide protocol constants and the operator-tunable [`DhtConfig`].

use vstd::prelude::*;

verus! {

/// Replication factor: number of replicas per user key.
pub const K: usize = 3;

/// Lookup parallelism.
pub const ALPHA: usize = 3;

/// Per-bucket capacity (k-bucket size).
pub const BUCKET_SIZE: usize = 16;

/// Number of k-buckets: one per leading-zero-bit class of a 256-bit id.
pub const BUCKETS: usize = 256;

/// Presence record lifetime in milliseconds (10 minutes).
pub const PRESENCE_TTL_MS: u64 = 600_000;

/// Minimum number of successful homes for a forwarded dispatch.
pub const FORWARD_K_MIN: usize = 2;

/// Operator-tunable subset of the DHT parameters.
#[derive(Clone, Debug)]
pub struct DhtConfig {
    /// Master switch; `false` keeps the relay on the pre-DHT path.
    pub enabled: bool,
    /// Override of [`BUCKET_SIZE`] for test clusters.
    pub bucket_size: Option<usize>,
    /// Permit dialling loopback or private peer addresses.
    pub allow_local_peer_addrs: bool,
}

impl Default for DhtConfig {
    /// The configuration a relay runs with when the TOML block is absent:
    /// the DHT off.
    fn default() -> (c: DhtConfig)
        ensures
            !c.enabled,
            c.bucket_size is None,
            !c.allow_local_peer_addrs,
    {
        DhtConfig { enabled: false, bucket_size: None, allow_local_peer_addrs: false }
    }
}

impl DhtConfig {

    /// Effective bucket size: the operator override if set, otherwise
    /// [`BUCKET_SIZE`].
    pub fn bucket_size(&self) -> (n: usize)
        ensures
            n == match self.bucket_size {
                Some(v) => v,
                None => BUCKET_SIZE,
            },
    {
        match self.bucket_size {
            Some(v) => v,
            None => BUCKET_SIZE,
        }
    }
}

/// The STUN echo and TURN bridge on the QUIC port; off by default, since
/// bridge tokens are unissued bearer secrets.
#[derive(Clone, Copy, Debug)]
pub struct AssistConfig {
    pub enabled: bool,
}

impl Default for AssistConfig {
    fn default() -> (c: AssistConfig)
        ensures
            !c.enabled,
    {
        AssistConfig { enabled: false }
    }
}

/// Logging block of the relay configuration.
#[derive(Clone, Debug)]
pub struct LogConfig {
    /// trace|debug|info|warn|error; info when absent.
    pub level: Option<String>,
    /// Show the DHT bootstrap and routing chatter.
    pub dht: bool,
}

impl Default for LogConfig {
    fn default() -> (c: LogConfig)
        ensures
            c.level is None,
            !c.dht,
    {
        LogConfig { level: None, dht: false }
    }
}

/// The standard TURN port.
pub fn default_turn_port() -> (p: u16)
    ensures
        p == 3478,
{
    3478
}

/// A TURN server for calls on its own UDP port; `public_ip` is the address
/// peers reach relayed traffic at, required when enabled.
#[derive(Clone, Debug)]
pub struct TurnConfig {
    pub enabled: bool,
    pub port: u16,
    pub public_ip: Option<crate::net::IpAddress>,
}

impl Default for TurnConfig {
    fn default() -> (c: TurnConfig)
        ensures
            !c.enabled,
            c.port == 3478,
            c.public_ip is None,
    {
        TurnConfig { enabled: false, port: default_turn_port(), public_ip: None }
    }
}

} // verus!
