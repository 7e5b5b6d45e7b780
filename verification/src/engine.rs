//! The height-indexed broadcast fan-out.
//!
//! A broadcast visits bucket indexes `0..=height` (on first send) or `0..h`
//! (when forwarding a message received at height `h`), draws up to `K_BETA`
//! random records from each visited bucket, and sends each of them a copy
//! whose height is overwritten with the bucket index.

use vstd::prelude::*;

use crate::bucket::nodes_view;
use crate::encoding::{
    wf_header, BroadcastPayload, BroadcastPayloadV, Header, Message, MessageV,
};
use crate::key::clone_bytes;
use crate::peer::{Node, PeerInfo};
use crate::tree::{wf_tree, Tree};
use crate::K_ID_LEN_BITS;

verus! {

/// What the application learns alongside a delivered payload: the sender's
/// address and the height the broadcast arrived with.
pub struct MessageInfo {
    pub src: PeerInfo,
    pub height: u8,
}

impl MessageInfo {
    /// The sender's address.
    pub fn src(&self) -> (r: &PeerInfo)
        ensures
            r@ == self.src@,
    {
        &self.src
    }

    /// The height the broadcast arrived with.
    pub fn height(&self) -> (r: u8)
        ensures
            r == self.height,
    {
        self.height
    }
}

/// One copy of a broadcast per visited bucket index `0..upto`: the message
/// carries the bucket index as its height, and its targets are up to `beta`
/// distinct records drawn from that bucket.
pub fn fanout_messages(
    tree: &Tree,
    header: &Header,
    frame: &Vec<u8>,
    upto: usize,
    beta: usize,
) -> (r: Vec<(Message, Vec<Node>)>)
    requires
        wf_tree(tree@),
        wf_header(header@),
        upto <= K_ID_LEN_BITS,
    ensures
        r@.len() == upto,
        forall|i: int| 0 <= i < upto ==> (#[trigger] r@[i]).0@ == MessageV::Broadcast(
            header@,
            BroadcastPayloadV { height: i as u8, frame: frame@ },
        ),
        forall|i: int| 0 <= i < upto ==> (#[trigger] r@[i]).1@.len() == vstd::math::min(
            beta as int,
            tree@.buckets[i].nodes.len() as int,
        ),
        forall|i: int| #![trigger r@[i]]
            0 <= i < upto ==> forall|j: int| 0 <= j < r@[i].1@.len()
                ==> tree@.buckets[i].nodes.contains(#[trigger] nodes_view(r@[i].1@)[j]),
{
    let mut out: Vec<(Message, Vec<Node>)> = Vec::new();
    let mut i: usize = 0;
    while i < upto
        invariant
            i <= upto,
            upto <= K_ID_LEN_BITS,
            wf_tree(tree@),
            wf_header(header@),
            out@.len() == i,
            forall|a: int| 0 <= a < i ==> (#[trigger] out@[a]).0@ == MessageV::Broadcast(
                header@,
                BroadcastPayloadV { height: a as u8, frame: frame@ },
            ),
            forall|a: int| 0 <= a < i ==> (#[trigger] out@[a]).1@.len() == vstd::math::min(
                beta as int,
                tree@.buckets[a].nodes.len() as int,
            ),
            forall|a: int| #![trigger out@[a]]
                0 <= a < i ==> forall|j: int| 0 <= j < out@[a].1@.len()
                    ==> tree@.buckets[a].nodes.contains(#[trigger] nodes_view(out@[a].1@)[j]),
        decreases upto - i,
    {
        let targets = tree.bucket_at(i).pick(beta);
        let message = Message::Broadcast(
            header.duplicate(),
            BroadcastPayload { height: i as u8, gossip_frame: clone_bytes(frame) },
        );
        let ghost os = out@;
        out.push((message, targets));
        proof {
            assert forall|a: int| 0 <= a < i + 1
                implies (#[trigger] out@[a]).0@ == MessageV::Broadcast(
                    header@,
                    BroadcastPayloadV { height: a as u8, frame: frame@ },
                ) by {
                if a < i {
                    assert(out@[a] == os[a]);
                }
            }
            assert forall|a: int| 0 <= a < i + 1
                implies (#[trigger] out@[a]).1@.len() == vstd::math::min(
                    beta as int,
                    tree@.buckets[a].nodes.len() as int,
                ) by {
                if a < i {
                    assert(out@[a] == os[a]);
                }
            }
            assert forall|a: int| #![trigger out@[a]]
                0 <= a < i + 1 implies forall|j: int| 0 <= j < out@[a].1@.len()
                    ==> tree@.buckets[a].nodes.contains(
                        #[trigger] nodes_view(out@[a].1@)[j],
                    ) by {
                if a < i {
                    assert(out@[a] == os[a]);
                }
            }
        }
        i += 1;
    }
    out
}

/// The copies an application-initiated broadcast sends: one per bucket
/// index `0..=height`, capped at the number of distance bands.
pub fn broadcast_fanout(
    tree: &Tree,
    header: &Header,
    frame: &Vec<u8>,
    height: u8,
    beta: usize,
) -> (r: Vec<(Message, Vec<Node>)>)
    requires
        wf_tree(tree@),
        wf_header(header@),
    ensures
        r@.len() == vstd::math::min(height as int + 1, K_ID_LEN_BITS as int),
        forall|i: int| 0 <= i < r@.len() ==> (#[trigger] r@[i]).0@ == MessageV::Broadcast(
            header@,
            BroadcastPayloadV { height: i as u8, frame: frame@ },
        ),
        forall|i: int| 0 <= i < r@.len() ==> (#[trigger] r@[i]).1@.len() == vstd::math::min(
            beta as int,
            tree@.buckets[i].nodes.len() as int,
        ),
        forall|i: int| #![trigger r@[i]]
            0 <= i < r@.len() ==> forall|j: int| 0 <= j < r@[i].1@.len()
                ==> tree@.buckets[i].nodes.contains(#[trigger] nodes_view(r@[i].1@)[j]),
{
    let upto = if (height as usize) + 1 < K_ID_LEN_BITS {
        (height as usize) + 1
    } else {
        K_ID_LEN_BITS
    };
    fanout_messages(tree, header, frame, upto, beta)
}

/// The copies a forwarded broadcast sends on: one per bucket index `0..h`
/// where `h` is the height the message arrived with. A message received at
/// height zero is not forwarded.
pub fn forward_fanout(
    tree: &Tree,
    header: &Header,
    frame: &Vec<u8>,
    arrived_height: u8,
    beta: usize,
) -> (r: Vec<(Message, Vec<Node>)>)
    requires
        wf_tree(tree@),
        wf_header(header@),
    ensures
        r@.len() == vstd::math::min(arrived_height as int, K_ID_LEN_BITS as int),
        arrived_height == 0 ==> r@.len() == 0,
        forall|i: int| 0 <= i < r@.len() ==> (#[trigger] r@[i]).0@ == MessageV::Broadcast(
            header@,
            BroadcastPayloadV { height: i as u8, frame: frame@ },
        ),
        forall|i: int| 0 <= i < r@.len() ==> (#[trigger] r@[i]).1@.len() == vstd::math::min(
            beta as int,
            tree@.buckets[i].nodes.len() as int,
        ),
        forall|i: int| #![trigger r@[i]]
            0 <= i < r@.len() ==> forall|j: int| 0 <= j < r@[i].1@.len()
                ==> tree@.buckets[i].nodes.contains(#[trigger] nodes_view(r@[i].1@)[j]),
{
    let upto = if (arrived_height as usize) < K_ID_LEN_BITS {
        arrived_height as usize
    } else {
        K_ID_LEN_BITS
    };
    fanout_messages(tree, header, frame, upto, beta)
}

} // verus!
