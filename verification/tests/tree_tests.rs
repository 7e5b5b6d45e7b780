//! The routing table and the height-indexed fan-out.

use kadcast::bucket::{BucketConfig, NodeInsertError, NodeInsertOk};
use kadcast::engine::{broadcast_fanout, forward_fanout};
use kadcast::encoding::Message;
use kadcast::peer::PeerNode;
use kadcast::tree::Tree;
use kadcast::{K_BETA, K_ID_LEN_BITS};

fn make_tree() -> Tree {
    let root = PeerNode::generate("127.0.0.1:666", 0).unwrap();
    Tree::new(root, BucketConfig::default())
}

#[test]
fn tree_insert_routes_by_distance() {
    let mut tree = make_tree();
    let mut inserted = 0;
    for i in 1..50u32 {
        let node = PeerNode::generate(&format!("192.168.1.{}:8080", i)[..], 0).unwrap();
        match tree.insert(node, 0) {
            Ok(NodeInsertOk::Inserted { .. }) => inserted += 1,
            Ok(_) => {}
            Err(NodeInsertError::Full(_)) => {}
            Err(NodeInsertError::Invalid(_)) => assert!(false),
        }
    }
    assert!(inserted > 0);
}

#[test]
fn tree_rejects_self_insert() {
    let mut tree = make_tree();
    let myself = PeerNode::generate("127.0.0.1:666", 0).unwrap();
    match tree.insert(myself, 0) {
        Err(NodeInsertError::Invalid(_)) => {}
        _ => assert!(false),
    }
}

#[test]
fn closest_returns_alive_peers() {
    let mut tree = make_tree();
    for i in 1..30u32 {
        let node = PeerNode::generate(&format!("192.168.1.{}:8080", i)[..], 0).unwrap();
        let _ = tree.insert(node, 0);
    }
    let target = PeerNode::generate("192.168.1.7:8080", 0).unwrap();
    let found = tree.closest(target.id(), 10, 0);
    assert!(found.len() <= 10);
    assert!(found.len() > 0);
}

#[test]
fn fanout_overwrites_height_per_bucket() {
    let mut tree = make_tree();
    for i in 1..30u32 {
        let node = PeerNode::generate(&format!("192.168.1.{}:8080", i)[..], 0).unwrap();
        let _ = tree.insert(node, 0);
    }
    let header = PeerNode::generate("127.0.0.1:666", 0).unwrap().as_header();
    let frame: Vec<u8> = vec![1, 2, 3, 4];
    let rounds = broadcast_fanout(&tree, &header, &frame, (K_ID_LEN_BITS - 1) as u8, K_BETA);
    assert_eq!(rounds.len(), K_ID_LEN_BITS);
    for (i, (message, targets)) in rounds.iter().enumerate() {
        match message {
            Message::Broadcast(h, bp) => {
                assert_eq!(h, &header);
                assert_eq!(bp.height as usize, i);
                assert_eq!(bp.gossip_frame, frame);
            }
            _ => assert!(false),
        }
        assert!(targets.len() <= K_BETA);
    }
    // Forwarding a height-zero message fans out to nobody.
    let nothing = forward_fanout(&tree, &header, &frame, 0, K_BETA);
    assert_eq!(nothing.len(), 0);
    // Forwarding at height 5 revisits buckets 0..5 only.
    let five = forward_fanout(&tree, &header, &frame, 5, K_BETA);
    assert_eq!(five.len(), 5);
}
