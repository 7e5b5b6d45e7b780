//! Core of a Kadcast peer-to-peer overlay: a Kademlia-style routing table of
//! k-buckets, a height-indexed broadcast fan-out, a forward-error-corrected
//! chunking layer for broadcast payloads, and the binary codec for the five
//! wire message kinds.
//!
//! Transport (UDP sockets, timers, channels) is kept outside this crate; every
//! function here works on plain values and carries its contract.

use vstd::prelude::*;

pub mod bucket;
pub mod cache;
pub mod encoding;
pub mod engine;
pub mod fec;
pub mod fountain;
pub mod hashing;
pub mod key;
pub mod peer;
pub mod random;
pub mod sockaddr;
pub mod tree;

verus! {

/// Maximum number of node records a bucket may hold.
pub const K_K: usize = 20;

/// Width of a binary key in bytes.
pub const K_ID_LEN_BYTES: usize = 16;

/// Width of a binary key in bits; also the number of bucket indexes.
pub const K_ID_LEN_BITS: usize = 128;

/// Per-bucket fan-out width during broadcast.
pub const K_BETA: usize = 3;

/// Largest datagram the transport will carry.
pub const MAX_DATAGRAM_SIZE: usize = 65507;

/// Default time in milliseconds after which an unseen node is no longer alive.
pub const BUCKET_DEFAULT_NODE_TTL_MILLIS: u64 = 30000;

/// Default time in milliseconds a flagged head is given before eviction.
pub const BUCKET_DEFAULT_NODE_EVICT_AFTER_MILLIS: u64 = 5000;

/// Default time in seconds after which an untouched bucket counts as idle.
pub const BUCKET_DEFAULT_TTL_SECS: u64 = 3600;

} // verus!
