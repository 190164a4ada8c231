//! Verified core of the Promtuz relay, resolver and client library: Kademlia
//! routing, presence storage rules, wire framing, certificate encoding,
//! registration admission and sticker-pack bookkeeping.

pub mod config;
pub mod bytes;
pub mod net;
pub mod routing;
pub mod cert;
pub mod codec;
pub mod storage;
pub mod rank;
pub mod resolver;
pub mod fanout;
pub mod digest;
pub mod transfer;
pub mod stickers;
pub mod push;
pub mod util;
pub mod dial;
pub mod presence;
pub mod dht_client;
pub mod dht_server;
pub mod handshake;
pub mod replica;
pub mod turn_auth;
pub mod replication;
pub mod queue;
