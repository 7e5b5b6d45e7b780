//! The k-bucket's LRU behaviour, eviction timeline, and random draw.

use kadcast::bucket::{Bucket, BucketConfig, NodeInsertError, NodeInsertOk};
use kadcast::peer::PeerNode;
use kadcast::{K_BETA, K_K};

fn test_config() -> BucketConfig {
    BucketConfig {
        node_ttl: 5000,
        node_evict_after: 1000,
        bucket_ttl: 3600000,
    }
}

#[test]
fn test_lru_base_5secs() {
    let config = test_config();
    let mut bucket = Bucket::new(config);
    let node1 = PeerNode::generate("192.168.1.1:8080", 0).unwrap();
    let id_node1 = node1.id().clone();
    let node1_copy = PeerNode::generate("192.168.1.1:8080", 0).unwrap();
    match bucket.insert(node1, 0).expect("This should return an ok()") {
        NodeInsertOk::Inserted { .. } => {}
        _ => assert!(false),
    }
    let a = bucket.pick(K_BETA);
    assert_eq!(a.len(), 1);

    match bucket
        .insert(node1_copy, 0)
        .expect("This should return an ok()")
    {
        NodeInsertOk::Updated { .. } => {}
        _ => assert!(false),
    }
    assert_eq!(Some(&id_node1), bucket.last_id());
    let node2 = PeerNode::generate("192.168.1.2:8080", 0).unwrap();
    let id_node2 = node2.id().clone();

    match bucket.insert(node2, 0).expect("This should return an ok()") {
        NodeInsertOk::Inserted { inserted: _ } => {}
        _ => assert!(false),
    }
    let a = bucket.pick(K_BETA);
    assert_eq!(a.len(), 2);
    assert_eq!(Some(&id_node2), bucket.last_id());
    assert_eq!(Some(&id_node1), bucket.least_used_id());

    match bucket
        .insert(PeerNode::generate("192.168.1.1:8080", 0).unwrap(), 0)
        .expect("This should return an ok()")
    {
        NodeInsertOk::Updated { .. } => {}
        _ => assert!(false),
    }
    let a = bucket.pick(K_BETA);
    assert_eq!(a.len(), 2);
    assert_eq!(Some(&id_node1), bucket.last_id());
    assert_eq!(Some(&id_node2), bucket.least_used_id());
    let a = bucket.remove_id(&id_node2);
    assert_eq!(&id_node2, a.unwrap().id());
    assert_eq!(Some(&id_node1), bucket.last_id());
    assert_eq!(Some(&id_node1), bucket.least_used_id());
    for i in 2..21 {
        match bucket
            .insert(
                PeerNode::generate(&format!("192.168.1.{}:8080", i)[..], 0).unwrap(),
                0,
            )
            .expect("This should return an ok()")
        {
            NodeInsertOk::Inserted { .. } => {
                assert!(bucket.pick(K_BETA).len() <= K_BETA);
            }
            _ => assert!(false),
        }
    }
    assert_eq!(bucket.pick(K_BETA).len(), K_BETA);
    let pending = PeerNode::generate("192.168.1.21:8080", 0).unwrap();
    let pending_id = pending.id().clone();
    match bucket.insert(pending, 0).expect_err("this should be error") {
        NodeInsertError::Full(pending) => {
            assert_eq!(pending.id(), &pending_id);
            // 5 seconds pass without the head being refreshed.
            match bucket.insert(pending, 5000).expect("this should be ok") {
                NodeInsertOk::Pending {
                    pending_insert,
                    pending_eviction: _,
                } => {
                    assert_eq!(pending_insert.id(), &pending_id);
                    // One more second passes: the head's grace time is over.
                    let pending = PeerNode::generate("192.168.1.21:8080", 6000).unwrap();
                    match bucket.insert(pending, 6000).expect("this should be ok") {
                        NodeInsertOk::Inserted { inserted: _ } => {}
                        v => {
                            println!("{:?}", v);
                            assert!(false)
                        }
                    }
                }
                b => {
                    println!("{:?}", b);
                    assert!(false)
                }
            }
        }
        _ => assert!(false),
    }
}

#[test]
fn full_bucket_scenario() {
    // 20 distinct peers go in; the 21st meets a full bucket with a live
    // head, then becomes the pending replacement once the head expires,
    // then enters once the head's grace time passes.
    let config = test_config();
    let mut bucket = Bucket::new(config);
    for i in 1..=K_K {
        let node = PeerNode::generate(&format!("192.168.1.{}:8080", i)[..], 0).unwrap();
        match bucket.insert(node, 0).unwrap() {
            NodeInsertOk::Inserted { .. } => {}
            _ => assert!(false),
        }
    }
    let newcomer = PeerNode::generate("192.168.1.21:8080", 0).unwrap();
    match bucket.insert(newcomer, 0) {
        Err(NodeInsertError::Full(_)) => {}
        _ => assert!(false),
    }
    let newcomer = PeerNode::generate("192.168.1.21:8080", 0).unwrap();
    match bucket.insert(newcomer, 5000).unwrap() {
        NodeInsertOk::Pending { .. } => {}
        _ => assert!(false),
    }
    let newcomer = PeerNode::generate("192.168.1.21:8080", 6000).unwrap();
    match bucket.insert(newcomer, 6000).unwrap() {
        NodeInsertOk::Inserted { .. } => {}
        _ => assert!(false),
    }
}

#[test]
fn invalid_id_is_rejected() {
    let config = test_config();
    let mut bucket = Bucket::new(config);
    let mut node = PeerNode::generate("192.168.1.1:8080", 0).unwrap();
    node.id[0] = node.id[0].wrapping_add(1);
    match bucket.insert(node, 0) {
        Err(NodeInsertError::Invalid(_)) => {}
        _ => assert!(false),
    }
}

#[test]
fn remove_idle_nodes_drops_dead_records() {
    let config = test_config();
    let mut bucket = Bucket::new(config);
    let a = PeerNode::generate("192.168.1.1:8080", 0).unwrap();
    bucket.insert(a, 0).unwrap();
    let b = PeerNode::generate("192.168.1.2:8080", 4000).unwrap();
    bucket.insert(b, 4000).unwrap();
    // At 6000 the first record (seen at 0) is past the 5000 ttl.
    bucket.remove_idle_nodes(6000);
    assert_eq!(bucket.len(), 1);
    let survivor = PeerNode::generate("192.168.1.2:8080", 0).unwrap();
    assert!(bucket.has_node(survivor.id()));
}

#[test]
fn pick_draws_distinct_members() {
    let config = test_config();
    let mut bucket = Bucket::new(config);
    for i in 1..=10 {
        let node = PeerNode::generate(&format!("192.168.1.{}:8080", i)[..], 0).unwrap();
        bucket.insert(node, 0).unwrap();
    }
    let picked = bucket.pick(K_BETA);
    assert_eq!(picked.len(), K_BETA);
    for i in 0..picked.len() {
        assert!(bucket.has_node(picked[i].id()));
        for j in 0..i {
            assert_ne!(picked[i].id(), picked[j].id());
        }
    }
    assert_eq!(bucket.pick(0).len(), 0);
    assert_eq!(bucket.pick(50).len(), 10);
}
