//! Wire codec for the five message kinds.
//!
//! Every message starts with a one-byte kind tag and a 20-byte header
//! (`id || port_le || reserved[2]`). `FindNodes` then carries a target key,
//! `Nodes` a counted list of encoded peers, `Broadcast` a height byte and the
//! gossip frame up to the end of the datagram. Multi-byte integers are
//! little-endian.
//!
//! Each type's bytes are pinned by a spec encoding function, and parsing by a
//! spec parse function; `marshal_binary` and `unmarshal_binary` are proved
//! against them, and the round-trip lemmas tie the two together.

use vstd::prelude::*;

use crate::key::{wf_key, BinaryKey};
use crate::peer::{le16, wf_ip, IpInfo, IpV};
use crate::K_K;

verus! {

/// Why a datagram was rejected.
#[derive(Clone, Copy, Debug, PartialEq, Eq)]
pub enum DecodeError {
    /// The datagram ended before the field being read.
    Truncated,
    /// The kind tag names no message kind.
    UnknownKind,
}

/// A type with a pinned-down wire format.
pub trait Marshallable: View + Sized {
    /// The values whose wire bytes are defined.
    spec fn m_wf(&self) -> bool;

    /// The wire bytes of this value.
    spec fn m_bytes(&self) -> Seq<u8>;

    /// What parsing reads at `pos` of `b`: the parsed value and the position
    /// just past it, or `None` when the bytes do not form a value.
    spec fn m_parse(b: Seq<u8>, pos: int) -> Option<(Self::V, int)>;

    /// Append this value's wire bytes to `out`.
    fn marshal_binary(&self, out: &mut Vec<u8>)
        requires
            self.m_wf(),
        ensures
            final(out)@ == old(out)@ + self.m_bytes(),
    ;

    /// Read one value at `*pos`, advancing `*pos` past it; errors exactly
    /// when the spec parse has no value there.
    fn unmarshal_binary(bytes: &Vec<u8>, pos: &mut usize) -> (r: Result<Self, DecodeError>)
        requires
            *old(pos) <= bytes@.len(),
        ensures
            r is Ok ==> Self::m_parse(bytes@, *old(pos) as int)
                == Some((r->Ok_0@, *final(pos) as int)),
            r is Ok ==> *old(pos) <= *final(pos) <= bytes@.len(),
            r is Err ==> Self::m_parse(bytes@, *old(pos) as int) is None,
    ;
}

/// Append all of `src` to `out`.
pub fn push_bytes(out: &mut Vec<u8>, src: &Vec<u8>)
    ensures
        final(out)@ == old(out)@ + src@,
{
    let mut i: usize = 0;
    while i < src.len()
        invariant
            i <= src@.len(),
            out@ == old(out)@ + src@.take(i as int),
        decreases src@.len() - i,
    {
        out.push(src[i]);
        proof {
            assert(old(out)@ + src@.take(i as int) + seq![src@[i as int]]
                =~= old(out)@ + src@.take(i + 1));
        }
        i += 1;
    }
    proof {
        assert(src@.take(src@.len() as int) =~= src@);
    }
}

/// Append the two little-endian bytes of `p` to `out`.
pub fn push_le16(out: &mut Vec<u8>, p: u16)
    ensures
        final(out)@ == old(out)@ + le16(p),
{
    out.push((p % 256) as u8);
    out.push((p / 256) as u8);
    proof {
        assert(old(out)@ + seq![(p % 256) as u8] + seq![(p / 256) as u8]
            =~= old(out)@ + le16(p));
    }
}

/// Copy `n` bytes of `bytes` starting at `pos`.
pub fn read_bytes(bytes: &Vec<u8>, pos: usize, n: usize) -> (r: Vec<u8>)
    requires
        pos + n <= bytes@.len(),
    ensures
        r@ == bytes@.subrange(pos as int, pos + n),
{
    let total = bytes.len();
    let mut out: Vec<u8> = Vec::new();
    let mut i: usize = 0;
    while i < n
        invariant
            i <= n,
            pos + n <= total,
            total == bytes@.len(),
            out@ == bytes@.subrange(pos as int, pos + i),
        decreases n - i,
    {
        out.push(bytes[pos + i]);
        proof {
            assert(bytes@.subrange(pos as int, pos + i) + seq![bytes@[pos + i]]
                =~= bytes@.subrange(pos as int, pos + i + 1));
        }
        i += 1;
    }
    out
}

/// The 16-bit value read from two little-endian bytes.
pub open spec fn u16_from_le(lo: u8, hi: u8) -> u16 {
    (lo + hi * 256) as u16
}

/// Reading back the two little-endian bytes of a port gives the port.
pub proof fn lemma_le16_round_trip(p: u16)
    ensures
        u16_from_le(le16(p)[0], le16(p)[1]) == p,
{
    assert(p % 256 + (p / 256) * 256 == p) by (nonlinear_arith);
}

/// The message header every kind carries: sender ID, sender port, and two
/// reserved bytes (zero on send, kept as received).
#[derive(Debug, PartialEq, Eq)]
pub struct Header {
    pub binary_id: BinaryKey,
    pub sender_port: u16,
    pub reserved: (u8, u8),
}

/// Mathematical value of a header.
pub struct HeaderV {
    pub id: Seq<u8>,
    pub port: u16,
    pub r0: u8,
    pub r1: u8,
}

impl View for Header {
    type V = HeaderV;

    open spec fn view(&self) -> HeaderV {
        HeaderV {
            id: self.binary_id@,
            port: self.sender_port,
            r0: self.reserved.0,
            r1: self.reserved.1,
        }
    }
}

/// A header is well-formed when its ID has the key width.
pub open spec fn wf_header(h: HeaderV) -> bool {
    wf_key(h.id)
}

/// Wire bytes of a header: `id || port_le || reserved`.
pub open spec fn enc_header(h: HeaderV) -> Seq<u8> {
    h.id + le16(h.port) + seq![h.r0, h.r1]
}

/// Parse a header at `pos`: 20 bytes, or nothing.
pub open spec fn parse_header(b: Seq<u8>, pos: int) -> Option<(HeaderV, int)> {
    if 0 <= pos && pos + 20 <= b.len() {
        Some((
            HeaderV {
                id: b.subrange(pos, pos + 16),
                port: u16_from_le(b[pos + 16], b[pos + 17]),
                r0: b[pos + 18],
                r1: b[pos + 19],
            },
            pos + 20,
        ))
    } else {
        None
    }
}

impl Header {
    /// Copy a header value.
    pub fn duplicate(&self) -> (r: Header)
        ensures
            r@ == self@,
    {
        Header {
            binary_id: crate::key::clone_bytes(&self.binary_id),
            sender_port: self.sender_port,
            reserved: self.reserved,
        }
    }
}

impl Marshallable for Header {
    open spec fn m_wf(&self) -> bool {
        wf_header(self@)
    }

    open spec fn m_bytes(&self) -> Seq<u8> {
        enc_header(self@)
    }

    open spec fn m_parse(b: Seq<u8>, pos: int) -> Option<(HeaderV, int)> {
        parse_header(b, pos)
    }

    fn marshal_binary(&self, out: &mut Vec<u8>)
    {
        push_bytes(out, &self.binary_id);
        push_le16(out, self.sender_port);
        out.push(self.reserved.0);
        out.push(self.reserved.1);
        proof {
            assert(old(out)@ + self.binary_id@ + le16(self.sender_port)
                + seq![self.reserved.0] + seq![self.reserved.1]
                =~= old(out)@ + enc_header(self@));
        }
    }

    fn unmarshal_binary(bytes: &Vec<u8>, pos: &mut usize) -> (r: Result<Header, DecodeError>)
    {
        let p = *pos;
        if bytes.len() - p < 20 {
            return Err(DecodeError::Truncated);
        }
        let id = read_bytes(bytes, p, 16);
        let port = bytes[p + 16] as u16 + (bytes[p + 17] as u16) * 256;
        let reserved = (bytes[p + 18], bytes[p + 19]);
        *pos = p + 20;
        Ok(Header { binary_id: id, sender_port: port, reserved })
    }
}

/// One peer entry inside a `Nodes` listing: address and ID.
#[derive(Debug, PartialEq, Eq)]
pub struct PeerEncodedInfo {
    pub ip: IpInfo,
    pub port: u16,
    pub id: BinaryKey,
}

/// Mathematical value of a peer entry.
pub struct PeerEncodedInfoV {
    pub ip: IpV,
    pub port: u16,
    pub id: Seq<u8>,
}

impl View for PeerEncodedInfo {
    type V = PeerEncodedInfoV;

    open spec fn view(&self) -> PeerEncodedInfoV {
        PeerEncodedInfoV { ip: self.ip@, port: self.port, id: self.id@ }
    }
}

/// A peer entry is well-formed when its address and key have the right widths.
pub open spec fn wf_peer(p: PeerEncodedInfoV) -> bool {
    wf_ip(p.ip) && wf_key(p.id)
}

/// Wire bytes of an address: IPv4 as its four octets, IPv6 as a zero tag byte
/// followed by its sixteen octets. An IPv4 address whose first octet is zero
/// cannot be told apart from an IPv6 tag on the wire.
pub open spec fn enc_ip(ip: IpV) -> Seq<u8> {
    match ip {
        IpV::V4(b) => b,
        IpV::V6(b) => seq![0u8] + b,
    }
}

/// An address survives the wire exactly when it is not an IPv4 address whose
/// first octet is zero.
pub open spec fn ip_encodable(ip: IpV) -> bool {
    match ip {
        IpV::V4(b) => b.len() == 4 && b[0] != 0,
        IpV::V6(b) => b.len() == 16,
    }
}

/// Wire bytes of a peer entry: address, port, ID.
pub open spec fn enc_peer(p: PeerEncodedInfoV) -> Seq<u8> {
    enc_ip(p.ip) + le16(p.port) + p.id
}

/// Parse one peer entry at `pos`.
pub open spec fn parse_peer(b: Seq<u8>, pos: int) -> Option<(PeerEncodedInfoV, int)> {
    if 0 <= pos < b.len() {
        if b[pos] != 0 {
            if pos + 22 <= b.len() {
                Some((
                    PeerEncodedInfoV {
                        ip: IpV::V4(b.subrange(pos, pos + 4)),
                        port: u16_from_le(b[pos + 4], b[pos + 5]),
                        id: b.subrange(pos + 6, pos + 22),
                    },
                    pos + 22,
                ))
            } else {
                None
            }
        } else {
            if pos + 35 <= b.len() {
                Some((
                    PeerEncodedInfoV {
                        ip: IpV::V6(b.subrange(pos + 1, pos + 17)),
                        port: u16_from_le(b[pos + 17], b[pos + 18]),
                        id: b.subrange(pos + 19, pos + 35),
                    },
                    pos + 35,
                ))
            } else {
                None
            }
        }
    } else {
        None
    }
}

impl Marshallable for PeerEncodedInfo {
    open spec fn m_wf(&self) -> bool {
        wf_peer(self@)
    }

    open spec fn m_bytes(&self) -> Seq<u8> {
        enc_peer(self@)
    }

    open spec fn m_parse(b: Seq<u8>, pos: int) -> Option<(PeerEncodedInfoV, int)> {
        parse_peer(b, pos)
    }

    fn marshal_binary(&self, out: &mut Vec<u8>)
    {
        match &self.ip {
            IpInfo::IPv6(b) => {
                out.push(0u8);
                push_bytes(out, b);
                proof {
                    assert(old(out)@ + seq![0u8] + b@ =~= old(out)@ + enc_ip(self@.ip));
                }
            }
            IpInfo::IPv4(b) => {
                push_bytes(out, b);
            }
        }
        push_le16(out, self.port);
        push_bytes(out, &self.id);
        proof {
            assert(old(out)@ + enc_ip(self@.ip) + le16(self.port) + self.id@
                =~= old(out)@ + enc_peer(self@));
        }
    }

    fn unmarshal_binary(bytes: &Vec<u8>, pos: &mut usize) -> (r: Result<PeerEncodedInfo, DecodeError>)
    {
        let p = *pos;
        if p >= bytes.len() {
            return Err(DecodeError::Truncated);
        }
        if bytes[p] != 0 {
            if bytes.len() - p < 22 {
                return Err(DecodeError::Truncated);
            }
            let ip = IpInfo::IPv4(read_bytes(bytes, p, 4));
            let port = bytes[p + 4] as u16 + (bytes[p + 5] as u16) * 256;
            let id = read_bytes(bytes, p + 6, 16);
            *pos = p + 22;
            Ok(PeerEncodedInfo { ip, port, id })
        } else {
            if bytes.len() - p < 35 {
                return Err(DecodeError::Truncated);
            }
            let ip = IpInfo::IPv6(read_bytes(bytes, p + 1, 16));
            let port = bytes[p + 17] as u16 + (bytes[p + 18] as u16) * 256;
            let id = read_bytes(bytes, p + 19, 16);
            *pos = p + 35;
            Ok(PeerEncodedInfo { ip, port, id })
        }
    }
}

/// The peer listing carried by a `Nodes` message.
#[derive(Debug, PartialEq, Eq)]
pub struct NodePayload {
    pub peers: Vec<PeerEncodedInfo>,
}

/// Mathematical value of a peer listing.
pub open spec fn peers_view(s: Seq<PeerEncodedInfo>) -> Seq<PeerEncodedInfoV> {
    s.map_values(|p: PeerEncodedInfo| p@)
}

impl View for NodePayload {
    type V = Seq<PeerEncodedInfoV>;

    open spec fn view(&self) -> Seq<PeerEncodedInfoV> {
        peers_view(self.peers@)
    }
}

/// A listing is well-formed when it fits a bucket and every entry is.
pub open spec fn wf_node_payload(s: Seq<PeerEncodedInfoV>) -> bool {
    &&& s.len() <= K_K
    &&& forall|i: int| 0 <= i < s.len() ==> wf_peer(#[trigger] s[i])
}

/// Wire bytes of a run of peer entries, one after the other.
pub open spec fn enc_peers(s: Seq<PeerEncodedInfoV>) -> Seq<u8>
    decreases s.len(),
{
    if s.len() == 0 {
        Seq::empty()
    } else {
        enc_peer(s[0]) + enc_peers(s.skip(1))
    }
}

/// Wire bytes of a listing: a little-endian count then the entries, and
/// nothing at all when the listing is empty.
pub open spec fn enc_node_payload(s: Seq<PeerEncodedInfoV>) -> Seq<u8> {
    if s.len() == 0 {
        Seq::empty()
    } else {
        le16(s.len() as u16) + enc_peers(s)
    }
}

/// Appending one entry to a run appends its bytes.
pub proof fn lemma_enc_peers_snoc(s: Seq<PeerEncodedInfoV>, x: PeerEncodedInfoV)
    ensures
        enc_peers(s.push(x)) == enc_peers(s) + enc_peer(x),
    decreases s.len(),
{
    if s.len() == 0 {
        assert(s.push(x)[0] == x);
        assert(s.push(x).skip(1) =~= Seq::<PeerEncodedInfoV>::empty());
        assert(enc_peers(s.push(x))
            == enc_peer(s.push(x)[0]) + enc_peers(s.push(x).skip(1)));
        assert(enc_peers(Seq::<PeerEncodedInfoV>::empty()) == Seq::<u8>::empty());
        assert(enc_peers(s) == Seq::<u8>::empty());
        assert(enc_peer(x) + Seq::<u8>::empty() =~= enc_peer(x));
        assert(enc_peers(s) + enc_peer(x) =~= enc_peer(x));
    } else {
        assert(s.push(x).skip(1) =~= s.skip(1).push(x));
        lemma_enc_peers_snoc(s.skip(1), x);
        assert(s.push(x)[0] == s[0]);
        assert(enc_peers(s.push(x))
            == enc_peer(s.push(x)[0]) + enc_peers(s.push(x).skip(1)));
        assert(enc_peers(s) == enc_peer(s[0]) + enc_peers(s.skip(1)));
        assert(enc_peer(s[0]) + (enc_peers(s.skip(1)) + enc_peer(x))
            =~= (enc_peer(s[0]) + enc_peers(s.skip(1))) + enc_peer(x));
    }
}

/// Parse `n` peer entries one after the other starting at `pos`.
pub open spec fn parse_peers(b: Seq<u8>, pos: int, n: nat) -> Option<(Seq<PeerEncodedInfoV>, int)>
    decreases n,
{
    if n == 0 {
        Some((Seq::empty(), pos))
    } else {
        match parse_peer(b, pos) {
            Some((v, p2)) => match parse_peers(b, p2, (n - 1) as nat) {
                Some((s, e)) => Some((seq![v] + s, e)),
                None => None,
            },
            None => None,
        }
    }
}

/// Parse a listing at `pos`: nothing left means an empty listing; otherwise a
/// count followed by that many entries.
pub open spec fn parse_node_payload(b: Seq<u8>, pos: int) -> Option<(Seq<PeerEncodedInfoV>, int)> {
    if pos == b.len() {
        Some((Seq::empty(), pos))
    } else if 0 <= pos && pos + 2 <= b.len() {
        parse_peers(b, pos + 2, u16_from_le(b[pos], b[pos + 1]) as nat)
    } else {
        None
    }
}

impl Marshallable for NodePayload {
    open spec fn m_wf(&self) -> bool {
        wf_node_payload(self@)
    }

    open spec fn m_bytes(&self) -> Seq<u8> {
        enc_node_payload(self@)
    }

    open spec fn m_parse(b: Seq<u8>, pos: int) -> Option<(Seq<PeerEncodedInfoV>, int)> {
        parse_node_payload(b, pos)
    }

    fn marshal_binary(&self, out: &mut Vec<u8>)
    {
        if self.peers.len() == 0 {
            proof {
                assert(old(out)@ + enc_node_payload(self@) =~= old(out)@);
            }
            return;
        }
        push_le16(out, self.peers.len() as u16);
        let mut i: usize = 0;
        while i < self.peers.len()
            invariant
                i <= self.peers@.len(),
                self.m_wf(),
                out@ == old(out)@ + le16(self.peers@.len() as u16)
                    + enc_peers(self@.take(i as int)),
            decreases self.peers@.len() - i,
        {
            proof {
                assert(wf_peer(self@[i as int]));
                assert(self.peers@[i as int]@ == self@[i as int]);
            }
            self.peers[i].marshal_binary(out);
            proof {
                lemma_enc_peers_snoc(self@.take(i as int), self@[i as int]);
                assert(self@.take(i as int).push(self@[i as int]) =~= self@.take(i + 1));
            }
            i += 1;
        }
        proof {
            assert(self@.take(self@.len() as int) =~= self@);
        }
    }

    fn unmarshal_binary(bytes: &Vec<u8>, pos: &mut usize) -> (r: Result<NodePayload, DecodeError>)
    {
        let p = *pos;
        if p == bytes.len() {
            let empty = NodePayload { peers: Vec::new() };
            proof {
                assert(empty@ =~= Seq::<PeerEncodedInfoV>::empty());
            }
            return Ok(empty);
        }
        if bytes.len() - p < 2 {
            return Err(DecodeError::Truncated);
        }
        let count = (bytes[p] as u16 + (bytes[p + 1] as u16) * 256) as usize;
        proof {
            assert(count == u16_from_le(bytes@[p as int], bytes@[p + 1]) as nat);
            assert(parse_node_payload(bytes@, p as int)
                == parse_peers(bytes@, p + 2, count as nat));
        }
        let mut cur: usize = p + 2;
        let mut peers: Vec<PeerEncodedInfo> = Vec::new();
        let ghost base = parse_peers(bytes@, p + 2, count as nat);
        let mut k: usize = 0;
        while k < count
            invariant
                k <= count,
                p + 2 <= cur,
                cur <= bytes@.len(),
                p == *old(pos),
                base == parse_node_payload(bytes@, p as int),
                base == match parse_peers(bytes@, cur as int, (count - k) as nat) {
                    Some((s, e)) => Some((peers_view(peers@) + s, e)),
                    None => None::<(Seq<PeerEncodedInfoV>, int)>,
                },
            decreases count - k,
        {
            let ghost cur_before = cur as int;
            let ghost pv_old = peers_view(peers@);
            match PeerEncodedInfo::unmarshal_binary(bytes, &mut cur) {
                Ok(pe) => {
                    proof {
                        let n = (count - k) as nat;
                        let tail = parse_peers(bytes@, cur as int, (n - 1) as nat);
                        assert(parse_peers(bytes@, cur_before, n) == match tail {
                            Some((s, e)) => Some((seq![pe@] + s, e)),
                            None => None::<(Seq<PeerEncodedInfoV>, int)>,
                        });
                        assert(peers_view(peers@.push(pe)) =~= pv_old + seq![pe@]);
                        if let Some((s, e)) = tail {
                            assert(pv_old + (seq![pe@] + s) =~= (pv_old + seq![pe@]) + s);
                        }
                    }
                    peers.push(pe);
                }
                Err(e) => {
                    proof {
                        let n = (count - k) as nat;
                        assert(parse_peers(bytes@, cur_before, n) is None);
                        assert(base is None);
                    }
                    return Err(e);
                }
            }
            k += 1;
        }
        proof {
            assert(peers_view(peers@) + Seq::<PeerEncodedInfoV>::empty() =~= peers_view(peers@));
        }
        *pos = cur;
        Ok(NodePayload { peers })
    }
}

/// The payload of a `Broadcast` message: the hop-height and the gossip frame.
#[derive(Debug, PartialEq, Eq)]
pub struct BroadcastPayload {
    pub height: u8,
    pub gossip_frame: Vec<u8>,
}

/// Mathematical value of a broadcast payload.
pub struct BroadcastPayloadV {
    pub height: u8,
    pub frame: Seq<u8>,
}

impl View for BroadcastPayload {
    type V = BroadcastPayloadV;

    open spec fn view(&self) -> BroadcastPayloadV {
        BroadcastPayloadV { height: self.height, frame: self.gossip_frame@ }
    }
}

/// Wire bytes of a broadcast payload: the height byte then the frame.
pub open spec fn enc_broadcast(bp: BroadcastPayloadV) -> Seq<u8> {
    seq![bp.height] + bp.frame
}

/// Parse a broadcast payload at `pos`: a height byte, then everything to the
/// end of the datagram.
pub open spec fn parse_broadcast(b: Seq<u8>, pos: int) -> Option<(BroadcastPayloadV, int)> {
    if 0 <= pos < b.len() {
        Some((
            BroadcastPayloadV { height: b[pos], frame: b.subrange(pos + 1, b.len() as int) },
            b.len() as int,
        ))
    } else {
        None
    }
}

impl BroadcastPayload {
    /// The payload's own wire bytes.
    pub fn bytes(&self) -> (r: Vec<u8>)
        ensures
            r@ == enc_broadcast(self@),
    {
        let mut out: Vec<u8> = Vec::new();
        self.marshal_binary(&mut out);
        proof {
            assert(Seq::<u8>::empty() + enc_broadcast(self@) =~= enc_broadcast(self@));
        }
        out
    }

    /// Copy a payload value.
    pub fn duplicate(&self) -> (r: BroadcastPayload)
        ensures
            r@ == self@,
    {
        BroadcastPayload {
            height: self.height,
            gossip_frame: crate::key::clone_bytes(&self.gossip_frame),
        }
    }
}

impl Marshallable for BroadcastPayload {
    open spec fn m_wf(&self) -> bool {
        true
    }

    open spec fn m_bytes(&self) -> Seq<u8> {
        enc_broadcast(self@)
    }

    open spec fn m_parse(b: Seq<u8>, pos: int) -> Option<(BroadcastPayloadV, int)> {
        parse_broadcast(b, pos)
    }

    fn marshal_binary(&self, out: &mut Vec<u8>)
    {
        out.push(self.height);
        push_bytes(out, &self.gossip_frame);
        proof {
            assert(old(out)@ + seq![self.height] + self.gossip_frame@
                =~= old(out)@ + enc_broadcast(self@));
        }
    }

    fn unmarshal_binary(bytes: &Vec<u8>, pos: &mut usize) -> (r: Result<BroadcastPayload, DecodeError>)
    {
        let p = *pos;
        if p >= bytes.len() {
            return Err(DecodeError::Truncated);
        }
        let height = bytes[p];
        let frame = read_bytes(bytes, p + 1, bytes.len() - (p + 1));
        *pos = bytes.len();
        Ok(BroadcastPayload { height, gossip_frame: frame })
    }
}

/// One wire message: kind tag, header, then the kind's own payload.
#[derive(Debug, PartialEq, Eq)]
pub enum Message {
    Ping(Header),
    Pong(Header),
    FindNodes(Header, BinaryKey),
    Nodes(Header, NodePayload),
    Broadcast(Header, BroadcastPayload),
}

/// Mathematical value of a message.
pub enum MessageV {
    Ping(HeaderV),
    Pong(HeaderV),
    FindNodes(HeaderV, Seq<u8>),
    Nodes(HeaderV, Seq<PeerEncodedInfoV>),
    Broadcast(HeaderV, BroadcastPayloadV),
}

impl View for Message {
    type V = MessageV;

    open spec fn view(&self) -> MessageV {
        match self {
            Message::Ping(h) => MessageV::Ping(h@),
            Message::Pong(h) => MessageV::Pong(h@),
            Message::FindNodes(h, t) => MessageV::FindNodes(h@, t@),
            Message::Nodes(h, np) => MessageV::Nodes(h@, np@),
            Message::Broadcast(h, bp) => MessageV::Broadcast(h@, bp@),
        }
    }
}

/// A message is well-formed when its header and payload are.
pub open spec fn wf_message(m: MessageV) -> bool {
    match m {
        MessageV::Ping(h) => wf_header(h),
        MessageV::Pong(h) => wf_header(h),
        MessageV::FindNodes(h, t) => wf_header(h) && wf_key(t),
        MessageV::Nodes(h, s) => wf_header(h) && wf_node_payload(s),
        MessageV::Broadcast(h, _bp) => wf_header(h),
    }
}

/// A message survives the wire exactly when no listed IPv4 address starts
/// with a zero octet.
pub open spec fn encodable_message(m: MessageV) -> bool {
    match m {
        MessageV::Nodes(_h, s) => forall|i: int|
            0 <= i < s.len() ==> ip_encodable(#[trigger] s[i].ip),
        _ => true,
    }
}

/// The kind tag of each message kind.
pub open spec fn kind_byte(m: MessageV) -> u8 {
    match m {
        MessageV::Ping(_) => 0,
        MessageV::Pong(_) => 1,
        MessageV::FindNodes(_, _) => 2,
        MessageV::Nodes(_, _) => 3,
        MessageV::Broadcast(_, _) => 4,
    }
}

/// Wire bytes of a whole message.
pub open spec fn enc_message(m: MessageV) -> Seq<u8> {
    match m {
        MessageV::Ping(h) => seq![0u8] + enc_header(h),
        MessageV::Pong(h) => seq![1u8] + enc_header(h),
        MessageV::FindNodes(h, t) => seq![2u8] + enc_header(h) + t,
        MessageV::Nodes(h, s) => seq![3u8] + enc_header(h) + enc_node_payload(s),
        MessageV::Broadcast(h, bp) => seq![4u8] + enc_header(h) + enc_broadcast(bp),
    }
}

/// Parse one whole message at `pos`. Trailing bytes after a fixed-length
/// kind are ignored, as a datagram reader would.
pub open spec fn parse_message(b: Seq<u8>, pos: int) -> Option<(MessageV, int)> {
    if 0 <= pos < b.len() {
        let kind = b[pos];
        match parse_header(b, pos + 1) {
            Some((h, p2)) => {
                if kind == 0 {
                    Some((MessageV::Ping(h), p2))
                } else if kind == 1 {
                    Some((MessageV::Pong(h), p2))
                } else if kind == 2 {
                    if p2 + 16 <= b.len() {
                        Some((MessageV::FindNodes(h, b.subrange(p2, p2 + 16)), p2 + 16))
                    } else {
                        None
                    }
                } else if kind == 3 {
                    match parse_node_payload(b, p2) {
                        Some((s, e)) => Some((MessageV::Nodes(h, s), e)),
                        None => None,
                    }
                } else if kind == 4 {
                    match parse_broadcast(b, p2) {
                        Some((bp, e)) => Some((MessageV::Broadcast(h, bp), e)),
                        None => None,
                    }
                } else {
                    None
                }
            }
            None => None,
        }
    } else {
        None
    }
}

impl Message {
    /// The header every message kind carries.
    pub fn header(&self) -> (r: &Header)
        ensures
            r@ == match self@ {
                MessageV::Ping(h) => h,
                MessageV::Pong(h) => h,
                MessageV::FindNodes(h, _) => h,
                MessageV::Nodes(h, _) => h,
                MessageV::Broadcast(h, _) => h,
            },
    {
        match self {
            Message::Ping(h) => h,
            Message::Pong(h) => h,
            Message::FindNodes(h, _) => h,
            Message::Nodes(h, _) => h,
            Message::Broadcast(h, _) => h,
        }
    }

    /// The message's wire bytes, freshly allocated.
    pub fn bytes(&self) -> (r: Vec<u8>)
        requires
            self.m_wf(),
        ensures
            r@ == enc_message(self@),
    {
        let mut out: Vec<u8> = Vec::new();
        self.marshal_binary(&mut out);
        proof {
            assert(Seq::<u8>::empty() + enc_message(self@) =~= enc_message(self@));
        }
        out
    }
}

impl Marshallable for Message {
    open spec fn m_wf(&self) -> bool {
        wf_message(self@)
    }

    open spec fn m_bytes(&self) -> Seq<u8> {
        enc_message(self@)
    }

    open spec fn m_parse(b: Seq<u8>, pos: int) -> Option<(MessageV, int)> {
        parse_message(b, pos)
    }

    fn marshal_binary(&self, out: &mut Vec<u8>)
    {
        match self {
            Message::Ping(h) => {
                out.push(0u8);
                h.marshal_binary(out);
                proof {
                    assert(old(out)@ + seq![0u8] + enc_header(h@)
                        =~= old(out)@ + enc_message(self@));
                }
            }
            Message::Pong(h) => {
                out.push(1u8);
                h.marshal_binary(out);
                proof {
                    assert(old(out)@ + seq![1u8] + enc_header(h@)
                        =~= old(out)@ + enc_message(self@));
                }
            }
            Message::FindNodes(h, t) => {
                out.push(2u8);
                h.marshal_binary(out);
                push_bytes(out, t);
                proof {
                    assert(old(out)@ + seq![2u8] + enc_header(h@) + t@
                        =~= old(out)@ + enc_message(self@));
                }
            }
            Message::Nodes(h, np) => {
                out.push(3u8);
                h.marshal_binary(out);
                np.marshal_binary(out);
                proof {
                    assert(old(out)@ + seq![3u8] + enc_header(h@) + enc_node_payload(np@)
                        =~= old(out)@ + enc_message(self@));
                }
            }
            Message::Broadcast(h, bp) => {
                out.push(4u8);
                h.marshal_binary(out);
                bp.marshal_binary(out);
                proof {
                    assert(old(out)@ + seq![4u8] + enc_header(h@) + enc_broadcast(bp@)
                        =~= old(out)@ + enc_message(self@));
                }
            }
        }
    }

    fn unmarshal_binary(bytes: &Vec<u8>, pos: &mut usize) -> (r: Result<Message, DecodeError>)
    {
        let p = *pos;
        if p >= bytes.len() {
            return Err(DecodeError::Truncated);
        }
        let kind = bytes[p];
        if kind > 4 {
            if bytes.len() - (p + 1) < 20 {
                return Err(DecodeError::Truncated);
            }
            return Err(DecodeError::UnknownKind);
        }
        let mut cur: usize = p + 1;
        let header = match Header::unmarshal_binary(bytes, &mut cur) {
            Ok(h) => h,
            Err(e) => {
                return Err(e);
            }
        };
        if kind == 0 {
            *pos = cur;
            Ok(Message::Ping(header))
        } else if kind == 1 {
            *pos = cur;
            Ok(Message::Pong(header))
        } else if kind == 2 {
            if bytes.len() - cur < 16 {
                return Err(DecodeError::Truncated);
            }
            let target = read_bytes(bytes, cur, 16);
            *pos = cur + 16;
            Ok(Message::FindNodes(header, target))
        } else if kind == 3 {
            match NodePayload::unmarshal_binary(bytes, &mut cur) {
                Ok(np) => {
                    *pos = cur;
                    Ok(Message::Nodes(header, np))
                }
                Err(e) => Err(e),
            }
        } else {
            match BroadcastPayload::unmarshal_binary(bytes, &mut cur) {
                Ok(bp) => {
                    *pos = cur;
                    Ok(Message::Broadcast(header, bp))
                }
                Err(e) => Err(e),
            }
        }
    }
}

/// Parsing a header out of its own bytes gives the header back.
pub proof fn lemma_parse_header_of_enc(b: Seq<u8>, pos: int, h: HeaderV)
    requires
        wf_header(h),
        0 <= pos,
        pos + 20 <= b.len(),
        b.subrange(pos, pos + 20) == enc_header(h),
    ensures
        parse_header(b, pos) == Some((h, pos + 20)),
{
    let e = enc_header(h);
    assert(e.len() == 20);
    assert forall|i: int| pos <= i < pos + 20 implies b[i] == e[i - pos] by {
        assert(b.subrange(pos, pos + 20)[i - pos] == b[i]);
    }
    assert(b.subrange(pos, pos + 16) =~= h.id);
    lemma_le16_round_trip(h.port);
    assert(e[16] == le16(h.port)[0]);
    assert(e[17] == le16(h.port)[1]);
    assert(u16_from_le(b[pos + 16], b[pos + 17]) == h.port);
    assert(e[18] == h.r0);
    assert(e[19] == h.r1);
}

/// Parsing a peer entry out of its own bytes gives the entry back, as long
/// as its address is encodable.
pub proof fn lemma_parse_peer_of_enc(b: Seq<u8>, pos: int, p: PeerEncodedInfoV)
    requires
        wf_peer(p),
        ip_encodable(p.ip),
        0 <= pos,
        pos + enc_peer(p).len() <= b.len(),
        b.subrange(pos, pos + enc_peer(p).len()) == enc_peer(p),
    ensures
        parse_peer(b, pos) == Some((p, pos + enc_peer(p).len())),
{
    let e = enc_peer(p);
    match p.ip {
        IpV::V4(octs) => {
            assert(e.len() == 22);
            assert forall|i: int| pos <= i < pos + 22 implies b[i] == e[i - pos] by {
                assert(b.subrange(pos, pos + 22)[i - pos] == b[i]);
            }
            assert(b[pos] == octs[0]);
            assert(b[pos] != 0);
            assert(b.subrange(pos, pos + 4) =~= octs);
            lemma_le16_round_trip(p.port);
            assert(e[4] == le16(p.port)[0]);
            assert(e[5] == le16(p.port)[1]);
            assert(u16_from_le(b[pos + 4], b[pos + 5]) == p.port);
            assert(b.subrange(pos + 6, pos + 22) =~= p.id);
        }
        IpV::V6(octs) => {
            assert(e.len() == 35);
            assert forall|i: int| pos <= i < pos + 35 implies b[i] == e[i - pos] by {
                assert(b.subrange(pos, pos + 35)[i - pos] == b[i]);
            }
            assert(b[pos] == 0);
            assert(b.subrange(pos + 1, pos + 17) =~= octs);
            lemma_le16_round_trip(p.port);
            assert(e[17] == le16(p.port)[0]);
            assert(e[18] == le16(p.port)[1]);
            assert(u16_from_le(b[pos + 17], b[pos + 18]) == p.port);
            assert(b.subrange(pos + 19, pos + 35) =~= p.id);
        }
    }
}

/// Parsing a run of peer entries out of its own bytes gives the run back.
#[verifier::rlimit(80)]
pub proof fn lemma_parse_peers_of_enc(b: Seq<u8>, pos: int, s: Seq<PeerEncodedInfoV>)
    requires
        forall|i: int| 0 <= i < s.len() ==> wf_peer(#[trigger] s[i]) && ip_encodable(s[i].ip),
        0 <= pos,
        pos + enc_peers(s).len() <= b.len(),
        b.subrange(pos, pos + enc_peers(s).len()) == enc_peers(s),
    ensures
        parse_peers(b, pos, s.len()) == Some((s, pos + enc_peers(s).len())),
    decreases s.len(),
{
    if s.len() == 0 {
        assert(s =~= Seq::<PeerEncodedInfoV>::empty());
    } else {
        let e0 = enc_peer(s[0]);
        let rest = enc_peers(s.skip(1));
        let d = e0.len() as int;
        let el = enc_peers(s).len() as int;
        assert(enc_peers(s) == e0 + rest);
        assert forall|i: int| 0 <= i < d implies b.subrange(pos, pos + d)[i] == e0[i] by {
            assert(b.subrange(pos, pos + el)[i] == b[i + pos]);
            assert(b.subrange(pos, pos + d)[i] == b[i + pos]);
            assert((e0 + rest)[i] == e0[i]);
        }
        assert(b.subrange(pos, pos + d) =~= e0);
        lemma_parse_peer_of_enc(b, pos, s[0]);
        assert forall|i: int| 0 <= i < rest.len()
            implies b.subrange(pos + d, pos + el)[i] == rest[i] by {
            assert(b.subrange(pos, pos + el)[i + d] == b[i + d + pos]);
            assert(b.subrange(pos + d, pos + el)[i] == b[i + d + pos]);
            assert((e0 + rest)[i + d] == rest[i]);
        }
        assert(b.subrange(pos + d, pos + d + rest.len()) =~= rest);
        assert forall|i: int| 0 <= i < s.skip(1).len()
            implies wf_peer(#[trigger] s.skip(1)[i]) && ip_encodable(s.skip(1)[i].ip) by {
            assert(s.skip(1)[i] == s[i + 1]);
        }
        lemma_parse_peers_of_enc(b, pos + d, s.skip(1));
        assert(seq![s[0]] + s.skip(1) =~= s);
    }
}

/// Parsing a listing out of its own bytes gives the listing back. An empty
/// listing writes nothing, so its bytes must end the datagram.
pub proof fn lemma_parse_node_payload_of_enc(b: Seq<u8>, pos: int, s: Seq<PeerEncodedInfoV>)
    requires
        wf_node_payload(s),
        forall|i: int| 0 <= i < s.len() ==> ip_encodable(#[trigger] s[i].ip),
        0 <= pos,
        pos + enc_node_payload(s).len() <= b.len(),
        b.subrange(pos, pos + enc_node_payload(s).len()) == enc_node_payload(s),
        s.len() == 0 ==> pos == b.len(),
    ensures
        parse_node_payload(b, pos) == Some((s, pos + enc_node_payload(s).len())),
{
    if s.len() == 0 {
        assert(s =~= Seq::<PeerEncodedInfoV>::empty());
    } else {
        let e = enc_node_payload(s);
        let el = e.len() as int;
        assert(e == le16(s.len() as u16) + enc_peers(s));
        assert forall|i: int| pos <= i < pos + el implies b[i] == e[i - pos] by {
            assert(b.subrange(pos, pos + el)[i - pos] == b[i]);
        }
        assert(el >= 2);
        assert(pos < b.len());
        assert(pos != b.len());
        lemma_le16_round_trip(s.len() as u16);
        assert(b[pos] == le16(s.len() as u16)[0]);
        assert(b[pos + 1] == le16(s.len() as u16)[1]);
        assert(u16_from_le(b[pos], b[pos + 1]) == s.len() as u16);
        assert(b.subrange(pos + 2, pos + 2 + enc_peers(s).len()) =~= enc_peers(s));
        assert forall|i: int| 0 <= i < s.len()
            implies wf_peer(#[trigger] s[i]) && ip_encodable(s[i].ip) by {
            assert(wf_peer(s[i]));
        }
        lemma_parse_peers_of_enc(b, pos + 2, s);
    }
}

/// Round trip: parsing a well-formed, encodable message out of its own wire
/// bytes gives the message back, consuming them all.
pub proof fn lemma_message_round_trip(m: MessageV)
    requires
        wf_message(m),
        encodable_message(m),
    ensures
        parse_message(enc_message(m), 0) == Some((m, enc_message(m).len() as int)),
{
    let b = enc_message(m);
    assert(b[0] == kind_byte(m));
    match m {
        MessageV::Ping(h) => {
            assert(b.subrange(1, 21) =~= enc_header(h));
            lemma_parse_header_of_enc(b, 1, h);
        }
        MessageV::Pong(h) => {
            assert(b.subrange(1, 21) =~= enc_header(h));
            lemma_parse_header_of_enc(b, 1, h);
        }
        MessageV::FindNodes(h, t) => {
            assert(b.subrange(1, 21) =~= enc_header(h));
            lemma_parse_header_of_enc(b, 1, h);
            assert(b.len() == 37);
            assert(b.subrange(21, 37) =~= t);
        }
        MessageV::Nodes(h, s) => {
            assert(b.subrange(1, 21) =~= enc_header(h));
            lemma_parse_header_of_enc(b, 1, h);
            assert(b.subrange(21, 21 + enc_node_payload(s).len() as int) =~= enc_node_payload(s));
            lemma_parse_node_payload_of_enc(b, 21, s);
        }
        MessageV::Broadcast(h, bp) => {
            assert(b.subrange(1, 21) =~= enc_header(h));
            lemma_parse_header_of_enc(b, 1, h);
            assert(b.len() == 22 + bp.frame.len());
            assert(b[21] == bp.height);
            assert(b.subrange(22, b.len() as int) =~= bp.frame);
        }
    }
}

} // verus!
