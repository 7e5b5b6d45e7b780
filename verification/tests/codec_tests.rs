//! Round trips and exact wire bytes of the message codec.

use kadcast::encoding::{
    BroadcastPayload, DecodeError, Marshallable, Message, NodePayload,
};
use kadcast::peer::PeerNode;

fn roundtrip(message: Message) {
    let mut bytes: Vec<u8> = Vec::new();
    message.marshal_binary(&mut bytes);
    let mut pos: usize = 0;
    let deser = Message::unmarshal_binary(&bytes, &mut pos).unwrap();
    assert_eq!(message, deser);
}

#[test]
fn encode_ping() {
    let peer = PeerNode::from_address("192.168.0.1:666", 0).unwrap();
    let a = Message::Ping(peer.as_header());
    roundtrip(a);
}

#[test]
fn encode_pong() {
    let peer = PeerNode::from_address("192.168.0.1:666", 0).unwrap();
    let a = Message::Pong(peer.as_header());
    roundtrip(a);
    assert_eq!(1, 1);
}

#[test]
fn encode_find_nodes() {
    let peer = PeerNode::from_address("192.168.0.1:666", 0).unwrap();
    let target = PeerNode::from_address("192.168.1.1:666", 0).unwrap();
    let _other = PeerNode::from_address("[2001:0db8:85a3:0000:0000:8a2e:0370:7334]:666", 0)
        .unwrap();
    let a = Message::FindNodes(peer.as_header(), target.id().clone());
    roundtrip(a);
    assert_eq!(1, 1);
}

#[test]
fn encode_nodes() {
    let peer = PeerNode::from_address("192.168.0.1:666", 0).unwrap();
    let nodes = vec![
        PeerNode::from_address("192.168.1.1:666", 0).unwrap(),
        PeerNode::from_address("[2001:0db8:85a3:0000:0000:8a2e:0370:7334]:666", 0).unwrap(),
    ]
    .iter()
    .map(|f| f.as_peer_info())
    .collect();
    let a = Message::Nodes(peer.as_header(), NodePayload { peers: nodes });
    roundtrip(a);
    assert_eq!(1, 1);
}

#[test]
fn encode_broadcast() {
    let peer = PeerNode::from_address("192.168.0.1:666", 0).unwrap();
    let a = Message::Broadcast(
        peer.as_header(),
        BroadcastPayload {
            height: 10,
            gossip_frame: vec![3, 5, 6, 7],
        },
    );
    roundtrip(a);
    assert_eq!(1, 1);
}

#[test]
fn ping_wire_bytes() {
    // Sender 192.168.0.1:666: the datagram starts with the kind tag, the
    // 16-byte ID, then the port 666 little-endian (0x9A 0x02) and two zero
    // reserved bytes.
    let peer = PeerNode::from_address("192.168.0.1:666", 0).unwrap();
    let message = Message::Ping(peer.as_header());
    let bytes = message.bytes();
    assert_eq!(bytes.len(), 21);
    assert_eq!(bytes[0], 0x00);
    assert_eq!(&bytes[1..17], peer.id().as_slice());
    assert_eq!(bytes[17], 0x9A);
    assert_eq!(bytes[18], 0x02);
    assert_eq!(bytes[19], 0x00);
    assert_eq!(bytes[20], 0x00);
    let mut pos: usize = 0;
    let deser = Message::unmarshal_binary(&bytes, &mut pos).unwrap();
    assert_eq!(message, deser);
}

#[test]
fn empty_nodes_roundtrip() {
    // A `Nodes` with no entries writes no count and reads back equal.
    let peer = PeerNode::from_address("192.168.0.1:666", 0).unwrap();
    let a = Message::Nodes(peer.as_header(), NodePayload { peers: vec![] });
    let bytes = a.bytes();
    assert_eq!(bytes.len(), 21);
    roundtrip(a);
}

#[test]
fn truncated_datagram_is_rejected() {
    let empty: Vec<u8> = Vec::new();
    let mut pos: usize = 0;
    assert_eq!(
        Message::unmarshal_binary(&empty, &mut pos),
        Err(DecodeError::Truncated)
    );
    let peer = PeerNode::from_address("192.168.0.1:666", 0).unwrap();
    let bytes = Message::Ping(peer.as_header()).bytes();
    let mut pos2: usize = 0;
    let short = bytes[..bytes.len() - 1].to_vec();
    assert_eq!(
        Message::unmarshal_binary(&short, &mut pos2),
        Err(DecodeError::Truncated)
    );
}

#[test]
fn unknown_kind_is_rejected() {
    let peer = PeerNode::from_address("192.168.0.1:666", 0).unwrap();
    let mut bytes = Message::Ping(peer.as_header()).bytes();
    bytes[0] = 9;
    let mut pos: usize = 0;
    assert_eq!(
        Message::unmarshal_binary(&bytes, &mut pos),
        Err(DecodeError::UnknownKind)
    );
}
