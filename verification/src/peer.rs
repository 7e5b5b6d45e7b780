//! Peer identity: socket addresses as plain values, node records, and the
//! canonical node ID derived from (IP, port).
//!
//! The node ID is the first `K_ID_LEN_BYTES` bytes of
//! `BLAKE2s(port_le_bytes || ip_octets)`, so a receiver can verify a claimed
//! sender ID by recomputing it from the observed source IP and the declared
//! port.

use vstd::prelude::*;

use crate::hashing::{blake2s, blake2s_of};
use crate::key::{clone_bytes, keys_equal, wf_key, BinaryKey};
use crate::K_ID_LEN_BYTES;

verus! {

/// The IP half of a socket address, kept as plain octets.
#[derive(Debug, PartialEq, Eq)]
pub enum IpInfo {
    IPv4(Vec<u8>),
    IPv6(Vec<u8>),
}

/// Mathematical value of an `IpInfo`: the octets as a sequence.
pub enum IpV {
    V4(Seq<u8>),
    V6(Seq<u8>),
}

impl View for IpInfo {
    type V = IpV;

    open spec fn view(&self) -> IpV {
        match self {
            IpInfo::IPv4(b) => IpV::V4(b@),
            IpInfo::IPv6(b) => IpV::V6(b@),
        }
    }
}

/// An IP value is well-formed when it has the right number of octets.
pub open spec fn wf_ip(ip: IpV) -> bool {
    match ip {
        IpV::V4(b) => b.len() == 4,
        IpV::V6(b) => b.len() == 16,
    }
}

/// The octets of an IP value, 4 or 16 bytes.
pub open spec fn ip_octets(ip: IpV) -> Seq<u8> {
    match ip {
        IpV::V4(b) => b,
        IpV::V6(b) => b,
    }
}

impl IpInfo {
    /// Copy an address value.
    pub fn duplicate(&self) -> (r: IpInfo)
        ensures
            r@ == self@,
    {
        match self {
            IpInfo::IPv4(b) => IpInfo::IPv4(clone_bytes(b)),
            IpInfo::IPv6(b) => IpInfo::IPv6(clone_bytes(b)),
        }
    }
}

/// What a node record knows about a peer: its socket address as plain values.
#[derive(Debug, PartialEq, Eq)]
pub struct PeerInfo {
    pub ip: IpInfo,
    pub port: u16,
}

/// Mathematical value of a `PeerInfo`.
pub struct PeerInfoV {
    pub ip: IpV,
    pub port: u16,
}

impl View for PeerInfo {
    type V = PeerInfoV;

    open spec fn view(&self) -> PeerInfoV {
        PeerInfoV { ip: self.ip@, port: self.port }
    }
}

impl PeerInfo {
    /// The socket address this peer is reached at.
    pub fn address(&self) -> (r: (&IpInfo, u16))
        ensures
            r.0@ == self.ip@,
            r.1 == self.port,
    {
        (&self.ip, self.port)
    }

    /// Copy an address value.
    pub fn duplicate(&self) -> (r: PeerInfo)
        ensures
            r@ == self@,
    {
        PeerInfo { ip: self.ip.duplicate(), port: self.port }
    }
}

/// The two little-endian bytes of a port number.
pub open spec fn le16(p: u16) -> Seq<u8> {
    seq![(p % 256) as u8, (p / 256) as u8]
}

/// The canonical node ID of a socket address: the first `K_ID_LEN_BYTES`
/// bytes of `BLAKE2s(port_le_bytes || ip_octets)`.
pub open spec fn spec_compute_id(ip: IpV, port: u16) -> Seq<u8> {
    blake2s_of(le16(port) + ip_octets(ip)).take(K_ID_LEN_BYTES as int)
}

/// The canonical ID is a pure function of the address: computing it twice,
/// or on another machine, gives the same bytes.
pub proof fn lemma_compute_id_deterministic(ip1: IpV, port1: u16, ip2: IpV, port2: u16)
    requires
        ip1 == ip2,
        port1 == port2,
    ensures
        spec_compute_id(ip1, port1) == spec_compute_id(ip2, port2),
{
}

/// Eviction state of a node record: untouched, or flagged for eviction at a
/// given instant (milliseconds).
#[derive(Clone, Copy, Debug, PartialEq, Eq)]
pub enum NodeEvictionStatus {
    Clear,
    Requested(u64),
}

/// A routing-table record: a peer's ID and address, when it was last seen
/// alive, and whether it is flagged for eviction.
#[derive(Debug, PartialEq, Eq)]
pub struct Node {
    pub id: BinaryKey,
    pub info: PeerInfo,
    pub seen_at: u64,
    pub eviction_status: NodeEvictionStatus,
}

/// In this crate every node value is a peer record.
pub type PeerNode = Node;

/// Mathematical value of a node record.
pub struct NodeV {
    pub id: Seq<u8>,
    pub ip: IpV,
    pub port: u16,
    pub seen_at: u64,
    pub eviction_status: NodeEvictionStatus,
}

impl View for Node {
    type V = NodeV;

    open spec fn view(&self) -> NodeV {
        NodeV {
            id: self.id@,
            ip: self.info.ip@,
            port: self.info.port,
            seen_at: self.seen_at,
            eviction_status: self.eviction_status,
        }
    }
}

/// A node record is well-formed when its key and address have the right
/// widths and its ID is the canonical hash of its address.
pub open spec fn wf_node(n: NodeV) -> bool {
    &&& wf_key(n.id)
    &&& wf_ip(n.ip)
    &&& n.id == spec_compute_id(n.ip, n.port)
}

/// Milliseconds elapsed from `t` to `now` (zero if `now` lies before `t`).
pub open spec fn spec_elapsed(t: u64, now: u64) -> int {
    if now >= t { now - t } else { 0 }
}

/// A record is alive at `now` when it was seen less than `ttl` ago.
pub open spec fn spec_is_alive(n: NodeV, now: u64, ttl: u64) -> bool {
    spec_elapsed(n.seen_at, now) < ttl
}

impl Node {
    /// Build a record first seen at `now`.
    pub fn new(id: BinaryKey, info: PeerInfo, now: u64) -> (r: Node)
        ensures
            r@ == (NodeV {
                id: id@,
                ip: info.ip@,
                port: info.port,
                seen_at: now,
                eviction_status: NodeEvictionStatus::Clear,
            }),
    {
        Node { id, info, seen_at: now, eviction_status: NodeEvictionStatus::Clear }
    }

    /// The record's binary ID.
    pub fn id(&self) -> (r: &BinaryKey)
        ensures
            r@ == self@.id,
    {
        &self.id
    }

    /// The record's address value.
    pub fn value(&self) -> (r: &PeerInfo)
        ensures
            r@.ip == self@.ip,
            r@.port == self@.port,
    {
        &self.info
    }

    /// Copy a record.
    pub fn duplicate(&self) -> (r: Node)
        ensures
            r@ == self@,
    {
        Node {
            id: clone_bytes(&self.id),
            info: self.info.duplicate(),
            seen_at: self.seen_at,
            eviction_status: self.eviction_status,
        }
    }

    /// Mark the record seen alive at `now`, clearing any eviction flag.
    pub fn refresh(&mut self, now: u64)
        ensures
            final(self)@ == (NodeV {
                seen_at: now,
                eviction_status: NodeEvictionStatus::Clear,
                ..old(self)@
            }),
    {
        self.seen_at = now;
        self.eviction_status = NodeEvictionStatus::Clear;
    }

    /// Flag the record for eviction at `now`.
    pub fn flag_for_check(&mut self, now: u64)
        ensures
            final(self)@ == (NodeV { eviction_status: NodeEvictionStatus::Requested(now), ..old(self)@ }),
    {
        self.eviction_status = NodeEvictionStatus::Requested(now);
    }

    /// Whether the record was seen alive less than `ttl` milliseconds ago.
    pub fn is_alive(&self, now: u64, ttl: u64) -> (r: bool)
        ensures
            r == spec_is_alive(self@, now, ttl),
    {
        let elapsed = if now >= self.seen_at { now - self.seen_at } else { 0 };
        elapsed < ttl
    }

    /// Whether the record's ID is the canonical hash of its address.
    pub fn is_id_valid(&self) -> (r: bool)
        ensures
            r == (self@.id == spec_compute_id(self@.ip, self@.port)),
    {
        let expected = PeerNode::compute_id(&self.info.ip, self.info.port);
        keys_equal(&self.id, &expected)
    }

    /// Build a record for a known address whose ID was already computed.
    pub fn from_socket(info: PeerInfo, id: BinaryKey, now: u64) -> (r: Node)
        ensures
            r@ == (NodeV {
                id: id@,
                ip: info.ip@,
                port: info.port,
                seen_at: now,
                eviction_status: NodeEvictionStatus::Clear,
            }),
    {
        Node::new(id, info, now)
    }

    /// The canonical node ID of a socket address.
    pub fn compute_id(ip: &IpInfo, port: u16) -> (r: BinaryKey)
        ensures
            r@ == spec_compute_id(ip@, port),
            wf_key(r@),
    {
        let mut input: Vec<u8> = Vec::new();
        input.push((port % 256) as u8);
        input.push((port / 256) as u8);
        let octets: &Vec<u8> = match ip {
            IpInfo::IPv4(b) => b,
            IpInfo::IPv6(b) => b,
        };
        let mut i: usize = 0;
        while i < octets.len()
            invariant
                i <= octets@.len(),
                octets@ == ip_octets(ip@),
                input@ == le16(port) + octets@.take(i as int),
            decreases octets@.len() - i,
        {
            input.push(octets[i]);
            proof {
                assert(le16(port) + octets@.take(i as int) + seq![octets@[i as int]]
                    =~= le16(port) + octets@.take(i + 1));
            }
            i += 1;
        }
        proof {
            assert(octets@.take(octets@.len() as int) =~= octets@);
        }
        let digest = blake2s(&input);
        let mut id: Vec<u8> = Vec::new();
        let mut j: usize = 0;
        while j < K_ID_LEN_BYTES
            invariant
                j <= K_ID_LEN_BYTES,
                digest@.len() == 32,
                digest@ == blake2s_of(le16(port) + ip_octets(ip@)),
                id@ == digest@.take(j as int),
            decreases K_ID_LEN_BYTES - j,
        {
            id.push(digest[j]);
            proof {
                assert(digest@.take(j as int) + seq![digest@[j as int]] =~= digest@.take(j + 1));
            }
            j += 1;
        }
        id
    }
}

impl Node {
    /// Whether a header's claimed sender ID is the canonical hash of the
    /// observed source IP and the declared sender port.
    pub fn verify_header(header: &crate::encoding::Header, ip: &IpInfo) -> (r: bool)
        ensures
            r == (header@.id == spec_compute_id(ip@, header@.port)),
    {
        let expected = Node::compute_id(ip, header.sender_port);
        keys_equal(&header.binary_id, &expected)
    }

    /// The header this node signs its messages with: its ID and port, with
    /// the reserved bytes zero.
    pub fn as_header(&self) -> (r: crate::encoding::Header)
        ensures
            r@ == (crate::encoding::HeaderV { id: self@.id, port: self@.port, r0: 0, r1: 0 }),
    {
        crate::encoding::Header {
            binary_id: clone_bytes(&self.id),
            sender_port: self.info.port,
            reserved: (0, 0),
        }
    }

    /// This node as one entry of a `Nodes` listing.
    pub fn as_peer_info(&self) -> (r: crate::encoding::PeerEncodedInfo)
        ensures
            r@ == (crate::encoding::PeerEncodedInfoV {
                ip: self@.ip,
                port: self@.port,
                id: self@.id,
            }),
    {
        crate::encoding::PeerEncodedInfo {
            ip: self.info.ip.duplicate(),
            port: self.info.port,
            id: clone_bytes(&self.id),
        }
    }
}

} // verus!
