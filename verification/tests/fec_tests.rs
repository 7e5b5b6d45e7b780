//! The FEC chunking layer: encoding a broadcast into chunks, reassembling
//! it from them, and delivering each payload only once.

use kadcast::cache::{RaptorQDecoder, RaptorQDecoderConf};
use kadcast::encoding::{BroadcastPayload, Message};
use kadcast::fec::{RaptorQEncoder, RaptorQEncoderConf};
use kadcast::peer::PeerNode;

fn random_payload(len: usize) -> Vec<u8> {
    let mut data: Vec<u8> = vec![0; len];
    for i in 0..data.len() {
        data[i] = rand::random::<u8>();
    }
    data
}

#[test]
fn test_encode() {
    let data = random_payload(10000);
    let peer = PeerNode::from_address("192.168.0.1:666", 0).unwrap();
    let header = peer.as_header();
    let payload = BroadcastPayload {
        height: 255,
        gossip_frame: data,
    };
    println!("orig payload len {}", payload.bytes().len());
    let message = Message::Broadcast(header, payload);
    let message_bytes = message.bytes();
    println!("orig message len {}", message_bytes.len());
    let encoder = RaptorQEncoder::configure(&RaptorQEncoderConf::default());
    let chunks = encoder.encode(message);
    println!("encoded chunks {}", chunks.len());

    let mut decoder = RaptorQDecoder::configure(&RaptorQDecoderConf::default());
    let mut decoded = None;
    let mut i = 0;
    for chunk in chunks {
        i = i + 1;
        if let Some(d) = decoder.decode(chunk, 0).unwrap() {
            decoded = Some(d);
            println!("Decoder after {} messages ", i);
            break;
        }
    }
    assert_eq!(decoded.unwrap().bytes(), message_bytes, "Unable to decode");
}

#[test]
fn chunk_count_exceeds_source_symbols() {
    // With the default 1300-byte MTU a 10000-byte payload needs at most 8
    // source symbols; the encoder always produces more chunks than that.
    let data = random_payload(10000);
    let peer = PeerNode::from_address("192.168.0.1:666", 0).unwrap();
    let message = Message::Broadcast(
        peer.as_header(),
        BroadcastPayload {
            height: 128,
            gossip_frame: data,
        },
    );
    let encoder = RaptorQEncoder::configure(&RaptorQEncoderConf::default());
    let chunks = encoder.encode(message);
    assert!(chunks.len() > 10000 / 1300);
}

#[test]
fn duplicate_payload_is_delivered_once() {
    // Feeding every chunk twice yields exactly one reassembled message.
    let data = random_payload(3000);
    let peer = PeerNode::from_address("192.168.0.1:666", 0).unwrap();
    let message = Message::Broadcast(
        peer.as_header(),
        BroadcastPayload {
            height: 7,
            gossip_frame: data,
        },
    );
    let encoder = RaptorQEncoder::configure(&RaptorQEncoderConf::default());
    let chunks = encoder.encode(message);
    let mut decoder = RaptorQDecoder::configure(&RaptorQDecoderConf::default());
    let mut deliveries = 0;
    for _round in 0..2 {
        for chunk in &chunks {
            let copy = match chunk {
                Message::Broadcast(h, bp) => Message::Broadcast(
                    h.duplicate(),
                    BroadcastPayload {
                        height: bp.height,
                        gossip_frame: bp.gossip_frame.clone(),
                    },
                ),
                _ => unreachable!(),
            };
            if decoder.decode(copy, 0).unwrap().is_some() {
                deliveries += 1;
            }
        }
    }
    assert_eq!(deliveries, 1);
}

#[test]
fn non_broadcast_messages_bypass_both_sides() {
    let peer = PeerNode::from_address("192.168.0.1:666", 0).unwrap();
    let ping = Message::Ping(peer.as_header());
    let encoder = RaptorQEncoder::configure(&RaptorQEncoderConf::default());
    let through = encoder.encode(ping);
    assert_eq!(through.len(), 1);
    assert_eq!(through[0], Message::Ping(peer.as_header()));

    let mut decoder = RaptorQDecoder::configure(&RaptorQDecoderConf::default());
    let back = decoder.decode(Message::Pong(peer.as_header()), 0).unwrap();
    assert_eq!(back, Some(Message::Pong(peer.as_header())));
}

#[test]
fn short_broadcast_frame_is_a_decode_error() {
    let peer = PeerNode::from_address("192.168.0.1:666", 0).unwrap();
    let tiny = Message::Broadcast(
        peer.as_header(),
        BroadcastPayload {
            height: 1,
            gossip_frame: vec![1, 2, 3],
        },
    );
    let mut decoder = RaptorQDecoder::configure(&RaptorQDecoderConf::default());
    assert!(decoder.decode(tiny, 0).is_err());
}

#[test]
fn cache_prune_forgets_expired_entries() {
    // A pruned entry's payload can be delivered again after expiry.
    let data = random_payload(2000);
    let peer = PeerNode::from_address("192.168.0.1:666", 0).unwrap();
    let make_message = |frame: Vec<u8>| {
        Message::Broadcast(
            peer.as_header(),
            BroadcastPayload {
                height: 3,
                gossip_frame: frame,
            },
        )
    };
    let encoder = RaptorQEncoder::configure(&RaptorQEncoderConf::default());
    let chunks = encoder.encode(make_message(data));
    let conf = RaptorQDecoderConf {
        cache_ttl_millis: 1000,
        cache_prune_every_millis: 1000,
    };
    let mut decoder = RaptorQDecoder::configure(&conf);
    let mut first = 0;
    for chunk in &chunks {
        let copy = match chunk {
            Message::Broadcast(h, bp) => Message::Broadcast(
                h.duplicate(),
                BroadcastPayload {
                    height: bp.height,
                    gossip_frame: bp.gossip_frame.clone(),
                },
            ),
            _ => unreachable!(),
        };
        if decoder.decode(copy, 0).unwrap().is_some() {
            first += 1;
        }
    }
    assert_eq!(first, 1);
    decoder.prune(5000);
    let mut second = 0;
    for chunk in chunks {
        if decoder.decode(chunk, 5000).unwrap().is_some() {
            second += 1;
        }
    }
    assert_eq!(second, 1);
}

#[test]
fn single_byte_payload_roundtrip() {
    // The smallest payload the encoder accepts still reassembles exactly.
    let peer = PeerNode::from_address("192.168.0.1:666", 0).unwrap();
    let message = Message::Broadcast(
        peer.as_header(),
        BroadcastPayload {
            height: 1,
            gossip_frame: vec![42],
        },
    );
    let expected = message.bytes();
    let encoder = RaptorQEncoder::configure(&RaptorQEncoderConf::default());
    let chunks = encoder.encode(message);
    assert!(chunks.len() > 1);
    let mut decoder = RaptorQDecoder::configure(&RaptorQDecoderConf::default());
    let mut decoded = None;
    for chunk in chunks {
        if let Some(d) = decoder.decode(chunk, 0).unwrap() {
            decoded = Some(d);
            break;
        }
    }
    assert_eq!(decoded.unwrap().bytes(), expected);
}
