//! The k-bucket: a bounded, least-recently-seen-first list of node records
//! with one pending replacement slot and timed eviction.
//!
//! Invariants carried by every bucket (see `wf_bucket`): never more than
//! `K_K` records, IDs unique, a pending replacement only while the bucket is
//! full, and only the head record may be flagged for eviction.

use vstd::prelude::*;

use crate::peer::{
    spec_compute_id, spec_elapsed, spec_is_alive, Node, NodeEvictionStatus, NodeV,
};
use crate::K_K;

verus! {

/// Timing configuration of a bucket, in milliseconds.
#[derive(Clone, Copy, Debug)]
pub struct BucketConfig {
    pub node_ttl: u64,
    pub node_evict_after: u64,
    pub bucket_ttl: u64,
}

impl Default for BucketConfig {
    /// The default bucket timings.
    fn default() -> (r: BucketConfig)
        ensures
            r.node_ttl == crate::BUCKET_DEFAULT_NODE_TTL_MILLIS,
            r.node_evict_after == crate::BUCKET_DEFAULT_NODE_EVICT_AFTER_MILLIS,
            r.bucket_ttl == crate::BUCKET_DEFAULT_TTL_SECS * 1000,
    {
        BucketConfig {
            node_ttl: crate::BUCKET_DEFAULT_NODE_TTL_MILLIS,
            node_evict_after: crate::BUCKET_DEFAULT_NODE_EVICT_AFTER_MILLIS,
            bucket_ttl: crate::BUCKET_DEFAULT_TTL_SECS * 1000,
        }
    }
}

/// A bounded list of node records, least recently seen first, with one
/// pending replacement slot.
pub struct Bucket {
    nodes: Vec<Node>,
    pending_node: Option<Node>,
    bucket_config: BucketConfig,
}

/// Mathematical value of a bucket.
pub struct BucketV {
    pub nodes: Seq<NodeV>,
    pub pending: Option<NodeV>,
    pub config: BucketConfig,
}

/// Mathematical value of a list of records.
pub open spec fn nodes_view(s: Seq<Node>) -> Seq<NodeV> {
    s.map_values(|n: Node| n@)
}

/// Mathematical value of an optional record.
pub open spec fn opt_node_view(o: Option<Node>) -> Option<NodeV> {
    match o {
        Some(n) => Some(n@),
        None => None,
    }
}

impl View for Bucket {
    type V = BucketV;

    closed spec fn view(&self) -> BucketV {
        BucketV {
            nodes: nodes_view(self.nodes@),
            pending: opt_node_view(self.pending_node),
            config: self.bucket_config,
        }
    }
}

/// The bucket invariant: bounded size, unique IDs, a pending replacement
/// only while full (and itself unflagged, with a fresh ID), and no flag
/// anywhere but the head.
pub open spec fn wf_bucket(b: BucketV) -> bool {
    &&& b.nodes.len() <= K_K
    &&& forall|i: int, j: int|
        0 <= i < j < b.nodes.len() ==> #[trigger] b.nodes[i].id != #[trigger] b.nodes[j].id
    &&& forall|i: int|
        1 <= i < b.nodes.len() ==> #[trigger] b.nodes[i].eviction_status
            == NodeEvictionStatus::Clear
    &&& match b.pending {
        Some(p) => {
            &&& b.nodes.len() == K_K
            &&& p.eviction_status == NodeEvictionStatus::Clear
            &&& forall|i: int| 0 <= i < b.nodes.len() ==> #[trigger] b.nodes[i].id != p.id
        },
        None => true,
    }
}

/// Index of the first record with the given ID, or -1.
pub open spec fn spec_find(s: Seq<NodeV>, key: Seq<u8>) -> int
    decreases s.len(),
{
    if s.len() == 0 {
        -1
    } else if s[0].id == key {
        0
    } else {
        let r = spec_find(s.skip(1), key);
        if r < 0 {
            -1
        } else {
            r + 1
        }
    }
}

/// Whether some record carries the given ID.
pub open spec fn spec_has_id(b: BucketV, key: Seq<u8>) -> bool {
    spec_find(b.nodes, key) >= 0
}

/// `spec_find` returns either -1 or a position holding the key.
pub proof fn lemma_spec_find(s: Seq<NodeV>, key: Seq<u8>)
    ensures
        spec_find(s, key) >= 0 ==> spec_find(s, key) < s.len()
            && s[spec_find(s, key)].id == key,
        spec_find(s, key) == -1 ==> forall|i: int| 0 <= i < s.len()
            ==> #[trigger] s[i].id != key,
        spec_find(s, key) >= 0 || spec_find(s, key) == -1,
    decreases s.len(),
{
    if s.len() > 0 && s[0].id != key {
        lemma_spec_find(s.skip(1), key);
        let r = spec_find(s.skip(1), key);
        if r >= 0 {
            assert(s.skip(1)[r] == s[r + 1]);
        } else {
            assert forall|i: int| 0 <= i < s.len() implies #[trigger] s[i].id != key by {
                if i > 0 {
                    assert(s.skip(1)[i - 1] == s[i]);
                }
            }
        }
    }
}

/// A record rotated to the tail and marked seen at `now`: the bucket after
/// `refresh_node` found the key at `spec_find`.
pub open spec fn spec_refresh(b: BucketV, key: Seq<u8>, now: u64) -> BucketV {
    let i = spec_find(b.nodes, key);
    BucketV {
        nodes: b.nodes.remove(i).push(
            NodeV {
                seen_at: now,
                eviction_status: NodeEvictionStatus::Clear,
                ..b.nodes[i]
            },
        ),
        ..b
    }
}

/// The bucket after the pending replacement was offered a free slot: pushed
/// onto the tail if it is still alive, dropped either way.
pub open spec fn spec_insert_pending(b: BucketV, now: u64) -> BucketV {
    if b.nodes.len() >= K_K {
        b
    } else {
        match b.pending {
            Some(p) => {
                if spec_is_alive(p, now, b.config.node_ttl) {
                    BucketV { nodes: b.nodes.push(p), pending: None, ..b }
                } else {
                    BucketV { pending: None, ..b }
                }
            }
            None => b,
        }
    }
}

/// The bucket after one eviction step on a full bucket: a dead unflagged
/// head is flagged; a flagged head whose grace time has passed is dropped
/// and the pending replacement offered its slot; anything else is left
/// alone.
pub open spec fn spec_evict(b: BucketV, now: u64) -> BucketV {
    if b.nodes.len() < K_K {
        b
    } else {
        match b.nodes[0].eviction_status {
            NodeEvictionStatus::Requested(t) => {
                if spec_elapsed(t, now) < b.config.node_evict_after {
                    b
                } else {
                    spec_insert_pending(BucketV { nodes: b.nodes.skip(1), ..b }, now)
                }
            }
            NodeEvictionStatus::Clear => {
                if spec_is_alive(b.nodes[0], now, b.config.node_ttl) {
                    b
                } else {
                    BucketV {
                        nodes: b.nodes.update(
                            0,
                            NodeV {
                                eviction_status: NodeEvictionStatus::Requested(now),
                                ..b.nodes[0]
                            },
                        ),
                        ..b
                    }
                }
            }
        }
    }
}

/// The head record, if it is flagged for eviction.
pub open spec fn spec_pending_eviction(b: BucketV) -> Option<NodeV> {
    if b.nodes.len() > 0 && b.nodes[0].eviction_status != NodeEvictionStatus::Clear {
        Some(b.nodes[0])
    } else {
        None
    }
}

/// Record views distribute over removal.
pub proof fn lemma_nodes_view_remove(s: Seq<Node>, i: int)
    requires
        0 <= i < s.len(),
    ensures
        nodes_view(s.remove(i)) =~= nodes_view(s).remove(i),
{
    assert forall|j: int| 0 <= j < s.len() - 1
        implies nodes_view(s.remove(i))[j] == nodes_view(s).remove(i)[j] by {
        if j < i {
            assert(s.remove(i)[j] == s[j]);
        } else {
            assert(s.remove(i)[j] == s[j + 1]);
        }
    }
}

/// Record views distribute over push.
pub proof fn lemma_nodes_view_push(s: Seq<Node>, n: Node)
    ensures
        nodes_view(s.push(n)) =~= nodes_view(s).push(n@),
{
    assert forall|j: int| 0 <= j < s.len() + 1
        implies nodes_view(s.push(n))[j] == nodes_view(s).push(n@)[j] by {
        if j < s.len() {
            assert(s.push(n)[j] == s[j]);
        } else {
            assert(s.push(n)[j] == n);
        }
    }
}

impl Bucket {
    /// An empty bucket with the given timings.
    pub fn new(bucket_config: BucketConfig) -> (r: Bucket)
        ensures
            r@.nodes =~= Seq::<NodeV>::empty(),
            r@.pending is None,
            r@.config == bucket_config,
            wf_bucket(r@),
    {
        Bucket { nodes: Vec::new(), pending_node: None, bucket_config }
    }

    /// How many records the bucket holds.
    pub fn len(&self) -> (r: usize)
        ensures
            r == self@.nodes.len(),
    {
        self.nodes.len()
    }

    /// Whether the bucket holds its full `K_K` records.
    pub fn is_full(&self) -> (r: bool)
        ensures
            r == (self@.nodes.len() >= K_K),
    {
        self.nodes.len() >= K_K
    }

    /// A borrow of the records, least recently seen first.
    pub fn peers(&self) -> (r: &Vec<Node>)
        ensures
            nodes_view(r@) == self@.nodes,
    {
        &self.nodes
    }

    /// Index of the record with the given ID, if any.
    fn find_index(&self, key: &Vec<u8>) -> (r: Option<usize>)
        ensures
            match r {
                Some(ix) => spec_find(self@.nodes, key@) == ix as int,
                None => spec_find(self@.nodes, key@) == -1,
            },
    {
        let n = self.nodes.len();
        let ghost nv = self@.nodes;
        proof {
            assert(nv.skip(0) =~= nv);
        }
        let mut i: usize = 0;
        while i < n
            invariant
                i <= n,
                n == nv.len(),
                nv == self@.nodes,
                spec_find(nv, key@) == (if spec_find(nv.skip(i as int), key@) < 0 {
                    -1
                } else {
                    spec_find(nv.skip(i as int), key@) + i
                }),
            decreases n - i,
        {
            if crate::key::keys_equal(self.nodes[i].id(), key) {
                proof {
                    assert(nv.skip(i as int)[0] == nv[i as int]);
                }
                return Some(i);
            }
            proof {
                assert(nv.skip(i as int)[0] == nv[i as int]);
                assert(nv.skip(i as int).skip(1) =~= nv.skip(i + 1));
            }
            i += 1;
        }
        proof {
            assert(nv.skip(n as int) =~= Seq::<NodeV>::empty());
        }
        None
    }

    /// Whether some record carries the given ID.
    pub fn has_node(&self, peer: &Vec<u8>) -> (r: bool)
        ensures
            r == spec_has_id(self@, peer@),
    {
        self.find_index(peer).is_some()
    }

    /// Rotate the record with the given ID to the tail and mark it seen at
    /// `now`; reports whether such a record existed.
    fn refresh_node(&mut self, key: &Vec<u8>, now: u64) -> (r: bool)
        ensures
            r == spec_has_id(old(self)@, key@),
            r ==> final(self)@ == spec_refresh(old(self)@, key@, now),
            !r ==> final(self)@ == old(self)@,
    {
        match self.find_index(key) {
            Some(ix) => {
                proof {
                    lemma_spec_find(old(self)@.nodes, key@);
                }
                let mut node = self.nodes.remove(ix);
                node.refresh(now);
                let ghost removed = self.nodes@;
                self.nodes.push(node);
                proof {
                    let b0 = old(self)@;
                    let i = spec_find(b0.nodes, key@);
                    lemma_nodes_view_remove(old(self).nodes@, i);
                    lemma_nodes_view_push(removed, node);
                    assert(self@.nodes =~= b0.nodes.remove(i).push(node@));
                }
                true
            }
            None => false,
        }
    }
}

/// A successful insertion: appended, refreshed in place, or parked as the
/// pending replacement. The refreshed and parked cases also report the head
/// record flagged for eviction, if any, so the caller can probe it.
#[derive(Debug)]
pub enum NodeInsertOk {
    Inserted { inserted: Node },
    Updated { updated: Node, pending_eviction: Option<Node> },
    Pending { pending_insert: Node, pending_eviction: Option<Node> },
}

/// A rejected insertion: the node's ID is not the canonical hash of its
/// address, or the bucket is full behind a live head.
#[derive(Debug)]
pub enum NodeInsertError {
    Invalid(Node),
    Full(Node),
}

impl NodeInsertOk {
    /// The head record flagged for eviction that this outcome reported.
    pub fn pending_eviction(&self) -> (r: Option<&Node>)
        ensures
            match self {
                NodeInsertOk::Inserted { .. } => r is None,
                NodeInsertOk::Updated { pending_eviction, .. } => match r {
                    Some(n) => pending_eviction is Some && n@ == pending_eviction->0@,
                    None => pending_eviction is None,
                },
                NodeInsertOk::Pending { pending_eviction, .. } => match r {
                    Some(n) => pending_eviction is Some && n@ == pending_eviction->0@,
                    None => pending_eviction is None,
                },
            },
    {
        match self {
            NodeInsertOk::Inserted { inserted: _ } => None,
            NodeInsertOk::Pending { pending_insert: _, pending_eviction } => match pending_eviction {
                Some(n) => Some(n),
                None => None,
            },
            NodeInsertOk::Updated { updated: _, pending_eviction } => match pending_eviction {
                Some(n) => Some(n),
                None => None,
            },
        }
    }
}

/// How an insertion ends; `spec_insert_outcome` says exactly when each case
/// comes, and `spec_insert` what the bucket then holds.
pub enum InsertOutcome {
    Invalid,
    Updated,
    Inserted,
    Pending,
    Full,
}

/// Which outcome inserting `n` at `now` has. An ID already present (also
/// one just promoted out of the pending slot by the eviction step) is
/// refreshed; otherwise the node is appended if the bucket has room after
/// eviction, rejected behind a live head, and parked as the pending
/// replacement behind a dead one.
pub open spec fn spec_insert_outcome(b0: BucketV, n: NodeV, now: u64) -> InsertOutcome {
    if n.id != spec_compute_id(n.ip, n.port) {
        InsertOutcome::Invalid
    } else if spec_has_id(b0, n.id) {
        InsertOutcome::Updated
    } else {
        let b2 = spec_evict(b0, now);
        if spec_has_id(b2, n.id) {
            InsertOutcome::Updated
        } else if b2.nodes.len() < K_K {
            InsertOutcome::Inserted
        } else if spec_is_alive(b2.nodes[0], now, b0.config.node_ttl) {
            InsertOutcome::Full
        } else {
            InsertOutcome::Pending
        }
    }
}

/// The bucket after inserting `n` at `now`.
pub open spec fn spec_insert(b0: BucketV, n: NodeV, now: u64) -> BucketV {
    if n.id != spec_compute_id(n.ip, n.port) {
        b0
    } else if spec_has_id(b0, n.id) {
        spec_evict(spec_refresh(b0, n.id, now), now)
    } else {
        let b2 = spec_evict(b0, now);
        if spec_has_id(b2, n.id) {
            spec_refresh(b2, n.id, now)
        } else if b2.nodes.len() < K_K {
            BucketV { nodes: b2.nodes.push(n), ..b2 }
        } else if spec_is_alive(b2.nodes[0], now, b0.config.node_ttl) {
            b2
        } else {
            BucketV { pending: Some(n), ..b2 }
        }
    }
}

/// Refreshing a present record keeps the bucket invariant.
pub proof fn lemma_wf_refresh(b: BucketV, key: Seq<u8>, now: u64)
    requires
        wf_bucket(b),
        spec_has_id(b, key),
    ensures
        wf_bucket(spec_refresh(b, key, now)),
{
    lemma_spec_find(b.nodes, key);
    let i = spec_find(b.nodes, key);
    let r = spec_refresh(b, key, now);
    let rm = b.nodes.remove(i);
    assert forall|a: int, c: int| 0 <= a < c < r.nodes.len()
        implies #[trigger] r.nodes[a].id != #[trigger] r.nodes[c].id by {
        if c < r.nodes.len() - 1 {
            assert(r.nodes[a] == rm[a]);
            assert(r.nodes[c] == rm[c]);
        } else {
            assert(r.nodes[c].id == b.nodes[i].id);
            assert(r.nodes[a] == rm[a]);
        }
    }
    assert forall|a: int| 1 <= a < r.nodes.len()
        implies #[trigger] r.nodes[a].eviction_status == NodeEvictionStatus::Clear by {
        if a < r.nodes.len() - 1 {
            assert(r.nodes[a] == rm[a]);
            if a < i {
                assert(rm[a] == b.nodes[a]);
            } else {
                assert(rm[a] == b.nodes[a + 1]);
            }
        }
    }
    match r.pending {
        Some(p) => {
            assert forall|a: int| 0 <= a < r.nodes.len()
                implies #[trigger] r.nodes[a].id != p.id by {
                if a < r.nodes.len() - 1 {
                    assert(r.nodes[a] == rm[a]);
                } else {
                    assert(r.nodes[a].id == b.nodes[i].id);
                }
            }
        }
        None => {}
    }
}

/// The eviction step keeps the bucket invariant.
pub proof fn lemma_wf_evict(b: BucketV, now: u64)
    requires
        wf_bucket(b),
    ensures
        wf_bucket(spec_evict(b, now)),
{
    let r = spec_evict(b, now);
    if b.nodes.len() >= K_K {
        match b.nodes[0].eviction_status {
            NodeEvictionStatus::Requested(t) => {
                if spec_elapsed(t, now) >= b.config.node_evict_after {
                    let popped = BucketV { nodes: b.nodes.skip(1), ..b };
                    assert forall|a: int, c: int| 0 <= a < c < popped.nodes.len()
                        implies #[trigger] popped.nodes[a].id
                            != #[trigger] popped.nodes[c].id by {
                        assert(popped.nodes[a] == b.nodes[a + 1]);
                        assert(popped.nodes[c] == b.nodes[c + 1]);
                    }
                    match b.pending {
                        Some(p) => {
                            if spec_is_alive(p, now, b.config.node_ttl) {
                                let pushed = popped.nodes.push(p);
                                assert forall|a: int, c: int| 0 <= a < c < pushed.len()
                                    implies #[trigger] pushed[a].id
                                        != #[trigger] pushed[c].id by {
                                    assert(pushed[a] == b.nodes[a + 1]);
                                    if c < pushed.len() - 1 {
                                        assert(pushed[c] == b.nodes[c + 1]);
                                    } else {
                                        assert(pushed[c] == p);
                                    }
                                }
                                assert forall|a: int| 1 <= a < pushed.len()
                                    implies #[trigger] pushed[a].eviction_status
                                        == NodeEvictionStatus::Clear by {
                                    if a < pushed.len() - 1 {
                                        assert(pushed[a] == b.nodes[a + 1]);
                                    }
                                }
                            } else {
                                assert forall|a: int| 1 <= a < popped.nodes.len()
                                    implies #[trigger] popped.nodes[a].eviction_status
                                        == NodeEvictionStatus::Clear by {
                                    assert(popped.nodes[a] == b.nodes[a + 1]);
                                }
                            }
                        }
                        None => {
                            assert forall|a: int| 1 <= a < popped.nodes.len()
                                implies #[trigger] popped.nodes[a].eviction_status
                                    == NodeEvictionStatus::Clear by {
                                assert(popped.nodes[a] == b.nodes[a + 1]);
                            }
                        }
                    }
                }
            }
            NodeEvictionStatus::Clear => {
                if !spec_is_alive(b.nodes[0], now, b.config.node_ttl) {
                    let upd = b.nodes.update(
                        0,
                        NodeV {
                            eviction_status: NodeEvictionStatus::Requested(now),
                            ..b.nodes[0]
                        },
                    );
                    assert forall|a: int, c: int| 0 <= a < c < upd.len()
                        implies #[trigger] upd[a].id != #[trigger] upd[c].id by {
                        assert(upd[c] == b.nodes[c]);
                        if a > 0 {
                            assert(upd[a] == b.nodes[a]);
                        }
                    }
                    match r.pending {
                        Some(p) => {
                            assert forall|a: int| 0 <= a < upd.len()
                                implies #[trigger] upd[a].id != p.id by {
                                if a > 0 {
                                    assert(upd[a] == b.nodes[a]);
                                }
                            }
                        }
                        None => {}
                    }
                }
            }
        }
    }
}

impl Bucket {
    /// Offer the pending replacement the free slot, if there is one.
    fn insert_pending(&mut self, now: u64)
        ensures
            final(self)@ == spec_insert_pending(old(self)@, now),
    {
        if self.nodes.len() >= K_K {
            return;
        }
        match self.pending_node.take() {
            Some(pending) => {
                if pending.is_alive(now, self.bucket_config.node_ttl) {
                    let ghost s = self.nodes@;
                    self.nodes.push(pending);
                    proof {
                        lemma_nodes_view_push(s, pending);
                        assert(self@.nodes =~= old(self)@.nodes.push(pending@));
                    }
                }
            }
            None => {}
        }
    }

    /// One eviction step: flag a dead head of a full bucket, or, once its
    /// grace time has passed, drop it and offer the slot to the pending
    /// replacement.
    fn try_perform_eviction(&mut self, now: u64)
        ensures
            final(self)@ == spec_evict(old(self)@, now),
    {
        if self.nodes.len() < K_K {
            return;
        }
        match self.nodes[0].eviction_status {
            NodeEvictionStatus::Requested(instant) => {
                let elapsed = if now >= instant { now - instant } else { 0 };
                if elapsed >= self.bucket_config.node_evict_after {
                    let _head = self.nodes.remove(0);
                    proof {
                        lemma_nodes_view_remove(old(self).nodes@, 0);
                        assert(old(self)@.nodes.remove(0) =~= old(self)@.nodes.skip(1));
                    }
                    self.insert_pending(now);
                }
            }
            NodeEvictionStatus::Clear => {
                if !self.nodes[0].is_alive(now, self.bucket_config.node_ttl) {
                    let mut head = self.nodes.remove(0);
                    head.flag_for_check(now);
                    let ghost removed = self.nodes@;
                    self.nodes.insert(0, head);
                    proof {
                        let b0 = old(self)@;
                        assert forall|j: int| 0 <= j < self@.nodes.len()
                            implies self@.nodes[j] == spec_evict(b0, now).nodes[j] by {
                            assert(self.nodes@[j]@ == self@.nodes[j]);
                            if j > 0 {
                                assert(self.nodes@[j] == old(self).nodes@[j]);
                            }
                        }
                        assert(self@.nodes =~= spec_evict(b0, now).nodes);
                    }
                }
            }
        }
    }

    /// The head record, duplicated, if it is flagged for eviction.
    fn pending_eviction_node(&self) -> (r: Option<Node>)
        ensures
            opt_node_view(r) == spec_pending_eviction(self@),
    {
        if self.nodes.len() > 0 {
            match self.nodes[0].eviction_status {
                NodeEvictionStatus::Requested(_) => Some(self.nodes[0].duplicate()),
                NodeEvictionStatus::Clear => None,
            }
        } else {
            None
        }
    }

    /// Insert a freshly seen node. The outcome and the bucket afterwards
    /// are exactly `spec_insert_outcome` and `spec_insert`; the bucket
    /// invariant is kept.
    pub fn insert(&mut self, node: Node, now: u64) -> (r: Result<NodeInsertOk, NodeInsertError>)
        requires
            wf_bucket(old(self)@),
            node@.eviction_status == NodeEvictionStatus::Clear,
        ensures
            final(self)@ == spec_insert(old(self)@, node@, now),
            wf_bucket(final(self)@),
            match r {
                Err(NodeInsertError::Invalid(nn)) => {
                    &&& spec_insert_outcome(old(self)@, node@, now) == InsertOutcome::Invalid
                    &&& nn@ == node@
                },
                Err(NodeInsertError::Full(nn)) => {
                    &&& spec_insert_outcome(old(self)@, node@, now) == InsertOutcome::Full
                    &&& nn@ == node@
                },
                Ok(NodeInsertOk::Inserted { inserted }) => {
                    &&& spec_insert_outcome(old(self)@, node@, now) == InsertOutcome::Inserted
                    &&& inserted@ == node@
                },
                Ok(NodeInsertOk::Updated { updated, pending_eviction }) => {
                    &&& spec_insert_outcome(old(self)@, node@, now) == InsertOutcome::Updated
                    &&& updated@.id == node@.id
                    &&& updated@.seen_at == now
                    &&& updated@.eviction_status == NodeEvictionStatus::Clear
                    &&& opt_node_view(pending_eviction) == spec_pending_eviction(final(self)@)
                },
                Ok(NodeInsertOk::Pending { pending_insert, pending_eviction }) => {
                    &&& spec_insert_outcome(old(self)@, node@, now) == InsertOutcome::Pending
                    &&& pending_insert@ == node@
                    &&& opt_node_view(pending_eviction) == spec_pending_eviction(final(self)@)
                },
            },
    {
        let ghost b0 = self@;
        if !node.is_id_valid() {
            return Err(NodeInsertError::Invalid(node));
        }
        if self.refresh_node(&node.id, now) {
            proof {
                lemma_wf_refresh(b0, node@.id, now);
                lemma_spec_find(b0.nodes, node@.id);
            }
            proof {
                let b1 = spec_refresh(b0, node@.id, now);
                assert(self@.nodes == b1.nodes);
                assert(b1.nodes.len() == b0.nodes.len());
                assert(b1.nodes.len() >= 1);
            }
            let last = self.nodes.len() - 1;
            let updated = self.nodes[last].duplicate();
            proof {
                let b1 = spec_refresh(b0, node@.id, now);
                assert(updated@ == b1.nodes[b1.nodes.len() - 1]);
                assert(updated@.id == node@.id);
                assert(updated@.seen_at == now);
                assert(updated@.eviction_status == NodeEvictionStatus::Clear);
                assert(spec_insert_outcome(b0, node@, now) == InsertOutcome::Updated);
            }
            self.try_perform_eviction(now);
            proof {
                lemma_wf_evict(spec_refresh(b0, node@.id, now), now);
                assert(self@ == spec_insert(b0, node@, now));
                assert(wf_bucket(self@));
            }
            let pe = self.pending_eviction_node();
            return Ok(NodeInsertOk::Updated { updated, pending_eviction: pe });
        }
        self.try_perform_eviction(now);
        proof {
            lemma_wf_evict(b0, now);
        }
        let ghost b2 = self@;
        if self.refresh_node(&node.id, now) {
            proof {
                lemma_wf_refresh(b2, node@.id, now);
                lemma_spec_find(b2.nodes, node@.id);
            }
            proof {
                let b3 = spec_refresh(b2, node@.id, now);
                assert(self@.nodes == b3.nodes);
                assert(b3.nodes.len() == b2.nodes.len());
                assert(b3.nodes.len() >= 1);
            }
            let last = self.nodes.len() - 1;
            let updated = self.nodes[last].duplicate();
            proof {
                let b3 = spec_refresh(b2, node@.id, now);
                assert(updated@ == b3.nodes[b3.nodes.len() - 1]);
                assert(updated@.id == node@.id);
                assert(updated@.seen_at == now);
                assert(updated@.eviction_status == NodeEvictionStatus::Clear);
                assert(spec_insert_outcome(b0, node@, now) == InsertOutcome::Updated);
                assert(self@ == spec_insert(b0, node@, now));
                assert(wf_bucket(self@));
            }
            let pe = self.pending_eviction_node();
            return Ok(NodeInsertOk::Updated { updated, pending_eviction: pe });
        }
        proof {
            lemma_spec_find(b2.nodes, node@.id);
        }
        if self.nodes.len() < K_K {
            let inserted = node.duplicate();
            let ghost s = self.nodes@;
            self.nodes.push(node);
            proof {
                lemma_nodes_view_push(s, node);
                assert(self@.nodes =~= b2.nodes.push(inserted@));
                assert forall|a: int, c: int| 0 <= a < c < self@.nodes.len()
                    implies #[trigger] self@.nodes[a].id
                        != #[trigger] self@.nodes[c].id by {
                    if c < self@.nodes.len() - 1 {
                        assert(self@.nodes[a] == b2.nodes[a]);
                        assert(self@.nodes[c] == b2.nodes[c]);
                    } else {
                        assert(self@.nodes[a] == b2.nodes[a]);
                    }
                }
            }
            Ok(NodeInsertOk::Inserted { inserted })
        } else {
            if self.nodes[0].is_alive(now, self.bucket_config.node_ttl) {
                Err(NodeInsertError::Full(node))
            } else {
                let dup = node.duplicate();
                self.pending_node = Some(node);
                proof {
                    assert(self@.nodes =~= b2.nodes);
                }
                let pe = self.pending_eviction_node();
                Ok(NodeInsertOk::Pending { pending_insert: dup, pending_eviction: pe })
            }
        }
    }
}

/// The records that survive an idle sweep at `now`: those seen alive less
/// than `node_ttl` ago, in their old order.
pub open spec fn spec_keep_alive(s: Seq<NodeV>, now: u64, ttl: u64) -> Seq<NodeV>
    decreases s.len(),
{
    if s.len() == 0 {
        s
    } else if spec_is_alive(s[0], now, ttl) {
        seq![s[0]] + spec_keep_alive(s.skip(1), now, ttl)
    } else {
        spec_keep_alive(s.skip(1), now, ttl)
    }
}

/// The bucket after an idle sweep: dead records dropped, then the pending
/// replacement offered the freed room.
pub open spec fn spec_remove_idle(b: BucketV, now: u64) -> BucketV {
    spec_insert_pending(
        BucketV { nodes: spec_keep_alive(b.nodes, now, b.config.node_ttl), ..b },
        now,
    )
}

/// The idle sweep keeps the length bound, ID uniqueness, eviction-status
/// shape, and the absence of any foreign ID `pid`.
pub proof fn lemma_keep_alive_props(s: Seq<NodeV>, now: u64, ttl: u64, pid: Option<Seq<u8>>)
    requires
        forall|i: int, j: int| 0 <= i < j < s.len()
            ==> #[trigger] s[i].id != #[trigger] s[j].id,
        forall|i: int| 1 <= i < s.len() ==> #[trigger] s[i].eviction_status
            == NodeEvictionStatus::Clear,
        match pid {
            Some(p) => forall|i: int| 0 <= i < s.len() ==> #[trigger] s[i].id != p,
            None => true,
        },
    ensures
        spec_keep_alive(s, now, ttl).len() <= s.len(),
        forall|i: int, j: int| 0 <= i < j < spec_keep_alive(s, now, ttl).len()
            ==> #[trigger] spec_keep_alive(s, now, ttl)[i].id
                != #[trigger] spec_keep_alive(s, now, ttl)[j].id,
        forall|i: int| 1 <= i < spec_keep_alive(s, now, ttl).len()
            ==> #[trigger] spec_keep_alive(s, now, ttl)[i].eviction_status
                == NodeEvictionStatus::Clear,
        (forall|i: int| 0 <= i < s.len() ==> #[trigger] s[i].eviction_status
            == NodeEvictionStatus::Clear)
            ==> (forall|i: int| 0 <= i < spec_keep_alive(s, now, ttl).len()
                ==> #[trigger] spec_keep_alive(s, now, ttl)[i].eviction_status
                    == NodeEvictionStatus::Clear),
        match pid {
            Some(p) => forall|i: int| 0 <= i < spec_keep_alive(s, now, ttl).len()
                ==> #[trigger] spec_keep_alive(s, now, ttl)[i].id != p,
            None => true,
        },
    decreases s.len(),
{
    if s.len() > 0 {
        let tail = s.skip(1);
        assert forall|i: int, j: int| 0 <= i < j < tail.len()
            implies #[trigger] tail[i].id != #[trigger] tail[j].id by {
            assert(tail[i] == s[i + 1]);
            assert(tail[j] == s[j + 1]);
        }
        assert forall|i: int| 0 <= i < tail.len()
            implies #[trigger] tail[i].eviction_status == NodeEvictionStatus::Clear by {
            assert(tail[i] == s[i + 1]);
        }
        match pid {
            Some(p) => {
                assert forall|i: int| 0 <= i < tail.len()
                    implies #[trigger] tail[i].id != p by {
                    assert(tail[i] == s[i + 1]);
                }
            }
            None => {}
        }
        lemma_keep_alive_props(tail, now, ttl, pid);
        let kt = spec_keep_alive(tail, now, ttl);
        if spec_is_alive(s[0], now, ttl) {
            assert forall|i: int| 0 <= i < tail.len()
                implies #[trigger] tail[i].id != s[0].id by {
                assert(tail[i] == s[i + 1]);
            }
            lemma_keep_alive_props(tail, now, ttl, Some(s[0].id));
            let k = spec_keep_alive(s, now, ttl);
            assert forall|i: int, j: int| 0 <= i < j < k.len()
                implies #[trigger] k[i].id != #[trigger] k[j].id by {
                assert(k[j] == kt[j - 1]);
                if i > 0 {
                    assert(k[i] == kt[i - 1]);
                } else {
                    assert(k[0] == s[0]);
                }
            }
            assert forall|i: int| 1 <= i < k.len()
                implies #[trigger] k[i].eviction_status == NodeEvictionStatus::Clear by {
                assert(k[i] == kt[i - 1]);
            }
            match pid {
                Some(p) => {
                    assert forall|i: int| 0 <= i < k.len()
                        implies #[trigger] k[i].id != p by {
                        if i > 0 {
                            assert(k[i] == kt[i - 1]);
                        } else {
                            assert(k[0] == s[0]);
                        }
                    }
                }
                None => {}
            }
        }
    }
}

impl Bucket {
    /// Whether the bucket has gone idle: its head was last seen more than
    /// `bucket_ttl` ago. An empty bucket is not idle.
    pub fn is_idle(&self, now: u64) -> (r: bool)
        ensures
            r == (self@.nodes.len() > 0
                && spec_elapsed(self@.nodes[0].seen_at, now) > self@.config.bucket_ttl),
    {
        if self.nodes.len() == 0 {
            return false;
        }
        let seen = self.nodes[0].seen_at;
        let elapsed = if now >= seen { now - seen } else { 0 };
        elapsed > self.bucket_config.bucket_ttl
    }

    /// Drop every record not seen alive within `node_ttl`, then offer the
    /// pending replacement the freed room.
    pub fn remove_idle_nodes(&mut self, now: u64)
        requires
            wf_bucket(old(self)@),
        ensures
            final(self)@ == spec_remove_idle(old(self)@, now),
            wf_bucket(final(self)@),
    {
        let ttl = self.bucket_config.node_ttl;
        let ghost nv = self@.nodes;
        let mut kept: Vec<Node> = Vec::new();
        let mut i: usize = 0;
        proof {
            assert(nv.skip(0) =~= nv);
        }
        while i < self.nodes.len()
            invariant
                i <= self.nodes@.len(),
                nv == nodes_view(self.nodes@),
                ttl == self@.config.node_ttl,
                self@ == old(self)@,
                spec_keep_alive(nv, now, ttl) == nodes_view(kept@)
                    + spec_keep_alive(nv.skip(i as int), now, ttl),
            decreases self.nodes@.len() - i,
        {
            let ghost kv = nodes_view(kept@);
            proof {
                assert(nv.skip(i as int)[0] == nv[i as int]);
                assert(nv.skip(i as int).skip(1) =~= nv.skip(i + 1));
            }
            if self.nodes[i].is_alive(now, ttl) {
                let dup = self.nodes[i].duplicate();
                let ghost ks = kept@;
                kept.push(dup);
                proof {
                    lemma_nodes_view_push(ks, dup);
                    assert(kv + (seq![nv[i as int]] + spec_keep_alive(nv.skip(i + 1), now, ttl))
                        =~= (kv.push(nv[i as int])) + spec_keep_alive(nv.skip(i + 1), now, ttl));
                }
            }
            i += 1;
        }
        proof {
            assert(nv.skip(self.nodes@.len() as int) =~= Seq::<NodeV>::empty());
            assert(nodes_view(kept@) + Seq::<NodeV>::empty() =~= nodes_view(kept@));
        }
        self.nodes = kept;
        self.insert_pending(now);
        proof {
            lemma_wf_insert_pending_after_sweep(old(self)@, now);
        }
    }
}

/// Every record the sweep keeps is one of the old records, alive at `now`.
pub proof fn lemma_keep_alive_members(s: Seq<NodeV>, now: u64, ttl: u64)
    ensures
        forall|i: int| 0 <= i < spec_keep_alive(s, now, ttl).len()
            ==> s.contains(#[trigger] spec_keep_alive(s, now, ttl)[i])
                && spec_is_alive(spec_keep_alive(s, now, ttl)[i], now, ttl),
    decreases s.len(),
{
    if s.len() > 0 {
        let tail = s.skip(1);
        lemma_keep_alive_members(tail, now, ttl);
        let k = spec_keep_alive(s, now, ttl);
        let kt = spec_keep_alive(tail, now, ttl);
        assert forall|i: int| 0 <= i < k.len()
            implies s.contains(#[trigger] k[i]) && spec_is_alive(k[i], now, ttl) by {
            if spec_is_alive(s[0], now, ttl) && i == 0 {
                assert(k[0] == s[0]);
                assert(s.contains(s[0]));
            } else {
                let off: int = if spec_is_alive(s[0], now, ttl) { 1 } else { 0 };
                assert(k[i] == kt[i - off]);
                assert(tail.contains(kt[i - off]));
                let w = choose|w: int| 0 <= w < tail.len() && tail[w] == kt[i - off];
                assert(s[w + 1] == tail[w]);
                assert(s.contains(s[w + 1]));
            }
        }
    }
}

/// Every record alive at `now` survives the sweep.
pub proof fn lemma_keep_alive_complete(s: Seq<NodeV>, now: u64, ttl: u64)
    ensures
        forall|j: int| 0 <= j < s.len() && spec_is_alive(#[trigger] s[j], now, ttl)
            ==> spec_keep_alive(s, now, ttl).contains(s[j]),
    decreases s.len(),
{
    if s.len() > 0 {
        let tail = s.skip(1);
        lemma_keep_alive_complete(tail, now, ttl);
        let k = spec_keep_alive(s, now, ttl);
        let kt = spec_keep_alive(tail, now, ttl);
        assert forall|j: int| 0 <= j < s.len() && spec_is_alive(#[trigger] s[j], now, ttl)
            implies k.contains(s[j]) by {
            let off: int = if spec_is_alive(s[0], now, ttl) { 1 } else { 0 };
            if j == 0 {
                assert(k[0] == s[0]);
                assert(k.contains(k[0]));
            } else {
                assert(tail[j - 1] == s[j]);
                let w = choose|w: int| 0 <= w < kt.len() && kt[w] == tail[j - 1];
                assert(k[w + off] == kt[w]);
                assert(k.contains(k[w + off]));
            }
        }
    }
}

/// After the sweep, re-admitting the pending replacement keeps the bucket
/// invariant.
pub proof fn lemma_wf_insert_pending_after_sweep(b: BucketV, now: u64)
    requires
        wf_bucket(b),
    ensures
        wf_bucket(spec_remove_idle(b, now)),
{
    let k = spec_keep_alive(b.nodes, now, b.config.node_ttl);
    let mid = BucketV { nodes: k, ..b };
    lemma_keep_alive_props(b.nodes, now, b.config.node_ttl, None);
    match b.pending {
        Some(p) => {
            lemma_keep_alive_props(b.nodes, now, b.config.node_ttl, Some(p.id));
        }
        None => {}
    }
    if k.len() >= K_K {
        assert(k.len() == K_K);
        assert(spec_insert_pending(mid, now) == mid);
    } else {
        match b.pending {
            Some(p) => {
                if spec_is_alive(p, now, b.config.node_ttl) {
                    let pushed = k.push(p);
                    assert forall|a: int, c: int| 0 <= a < c < pushed.len()
                        implies #[trigger] pushed[a].id != #[trigger] pushed[c].id by {
                        assert(pushed[a] == k[a]);
                        if c < pushed.len() - 1 {
                            assert(pushed[c] == k[c]);
                        } else {
                            assert(pushed[c] == p);
                        }
                    }
                    assert forall|a: int| 1 <= a < pushed.len()
                        implies #[trigger] pushed[a].eviction_status
                            == NodeEvictionStatus::Clear by {
                        if a < pushed.len() - 1 {
                            assert(pushed[a] == k[a]);
                        } else {
                            assert(pushed[a] == p);
                        }
                    }
                }
            }
            None => {}
        }
    }
}

impl Bucket {
    /// Up to `count` records drawn without replacement, uniformly at
    /// random. Every drawn record is one of the bucket's, and no record is
    /// drawn twice.
    pub fn pick(&self, count: usize) -> (r: Vec<Node>)
        requires
            wf_bucket(self@),
        ensures
            r@.len() == vstd::math::min(count as int, self@.nodes.len() as int),
            forall|i: int| 0 <= i < r@.len()
                ==> self@.nodes.contains(#[trigger] nodes_view(r@)[i]),
            forall|i: int, j: int| 0 <= i < j < r@.len()
                ==> #[trigger] nodes_view(r@)[i].id != #[trigger] nodes_view(r@)[j].id,
    {
        let n = self.nodes.len();
        let mut idxs: Vec<usize> = Vec::new();
        let mut i: usize = 0;
        while i < n
            invariant
                i <= n,
                idxs@.len() == i,
                forall|a: int| 0 <= a < i ==> #[trigger] idxs@[a] == a,
            decreases n - i,
        {
            idxs.push(i);
            i += 1;
        }
        let m = if count < n { count } else { n };
        let mut k: usize = 0;
        while k < m
            invariant
                k <= m <= n,
                n == self@.nodes.len(),
                idxs@.len() == n,
                forall|a: int| 0 <= a < n ==> #[trigger] idxs@[a] < n,
                forall|a: int, c: int| 0 <= a < c < n
                    ==> #[trigger] idxs@[a] != #[trigger] idxs@[c],
            decreases m - k,
        {
            let j = k + crate::random::random_below(n - k);
            let a = idxs[k];
            let b = idxs[j];
            let ghost before = idxs@;
            let _ = idxs.remove(k);
            idxs.insert(k, b);
            let _ = idxs.remove(j);
            idxs.insert(j, a);
            proof {
                if j != k {
                    assert(idxs@ =~= before.update(k as int, b).update(j as int, a));
                } else {
                    assert(idxs@ =~= before);
                }
            }
            k += 1;
        }
        let mut out: Vec<Node> = Vec::new();
        let mut t: usize = 0;
        while t < m
            invariant
                t <= m <= n,
                n == self@.nodes.len(),
                idxs@.len() == n,
                wf_bucket(self@),
                forall|a: int| 0 <= a < n ==> #[trigger] idxs@[a] < n,
                forall|a: int, c: int| 0 <= a < c < n
                    ==> #[trigger] idxs@[a] != #[trigger] idxs@[c],
                out@.len() == t,
                forall|a: int| 0 <= a < t
                    ==> #[trigger] nodes_view(out@)[a] == self@.nodes[idxs@[a] as int],
            decreases m - t,
        {
            let ix = idxs[t];
            let dup = self.nodes[ix].duplicate();
            let ghost os = out@;
            out.push(dup);
            proof {
                lemma_nodes_view_push(os, dup);
            }
            t += 1;
        }
        proof {
            assert forall|i2: int| 0 <= i2 < out@.len()
                implies self@.nodes.contains(#[trigger] nodes_view(out@)[i2]) by {
                assert(nodes_view(out@)[i2] == self@.nodes[idxs@[i2] as int]);
            }
            assert forall|i2: int, j2: int| 0 <= i2 < j2 < out@.len()
                implies #[trigger] nodes_view(out@)[i2].id
                    != #[trigger] nodes_view(out@)[j2].id by {
                let a = idxs@[i2] as int;
                let c = idxs@[j2] as int;
                assert(idxs@[i2] != idxs@[j2]);
                if a < c {
                    assert(self@.nodes[a].id != self@.nodes[c].id);
                } else {
                    assert(self@.nodes[c].id != self@.nodes[a].id);
                }
            }
        }
        out
    }

    /// Exactly the records alive at `now`, in bucket (least recently seen
    /// first) order: the same sequence an idle sweep would retain.
    pub fn alive_nodes(&self, now: u64) -> (r: Vec<Node>)
        ensures
            nodes_view(r@) == spec_keep_alive(self@.nodes, now, self@.config.node_ttl),
    {
        let ttl = self.bucket_config.node_ttl;
        let ghost nv = self@.nodes;
        let mut out: Vec<Node> = Vec::new();
        let mut i: usize = 0;
        proof {
            assert(nv.skip(0) =~= nv);
        }
        while i < self.nodes.len()
            invariant
                i <= self.nodes@.len(),
                nv == self@.nodes,
                ttl == self@.config.node_ttl,
                spec_keep_alive(nv, now, ttl) == nodes_view(out@)
                    + spec_keep_alive(nv.skip(i as int), now, ttl),
            decreases self.nodes@.len() - i,
        {
            let ghost kv = nodes_view(out@);
            proof {
                assert(nv.skip(i as int)[0] == nv[i as int]);
                assert(nv.skip(i as int).skip(1) =~= nv.skip(i + 1));
            }
            if self.nodes[i].is_alive(now, ttl) {
                let dup = self.nodes[i].duplicate();
                let ghost os = out@;
                out.push(dup);
                proof {
                    lemma_nodes_view_push(os, dup);
                    assert(kv + (seq![nv[i as int]] + spec_keep_alive(nv.skip(i + 1), now, ttl))
                        =~= (kv.push(nv[i as int])) + spec_keep_alive(nv.skip(i + 1), now, ttl));
                }
            }
            i += 1;
        }
        proof {
            assert(nv.skip(self.nodes@.len() as int) =~= Seq::<NodeV>::empty());
            assert(nodes_view(out@) + Seq::<NodeV>::empty() =~= nodes_view(out@));
        }
        out
    }

    /// The ID of the most recently seen record.
    pub fn last_id(&self) -> (r: Option<&Vec<u8>>)
        ensures
            match r {
                Some(k) => self@.nodes.len() > 0
                    && k@ == self@.nodes[self@.nodes.len() - 1].id,
                None => self@.nodes.len() == 0,
            },
    {
        if self.nodes.len() == 0 {
            None
        } else {
            Some(&self.nodes[self.nodes.len() - 1].id)
        }
    }

    /// The ID of the least recently seen record.
    pub fn least_used_id(&self) -> (r: Option<&Vec<u8>>)
        ensures
            match r {
                Some(k) => self@.nodes.len() > 0 && k@ == self@.nodes[0].id,
                None => self@.nodes.len() == 0,
            },
    {
        if self.nodes.len() == 0 {
            None
        } else {
            Some(&self.nodes[0].id)
        }
    }

    /// Remove the record with the given ID, handing the pending replacement
    /// its place at the tail.
    pub fn remove_id(&mut self, id: &Vec<u8>) -> (r: Option<Node>)
        requires
            wf_bucket(old(self)@),
        ensures
            wf_bucket(final(self)@),
            match r {
                Some(n) => {
                    &&& spec_has_id(old(self)@, id@)
                    &&& n@ == old(self)@.nodes[spec_find(old(self)@.nodes, id@)]
                    &&& final(self)@.nodes == match old(self)@.pending {
                        Some(p) => old(self)@.nodes.remove(
                            spec_find(old(self)@.nodes, id@),
                        ).push(p),
                        None => old(self)@.nodes.remove(spec_find(old(self)@.nodes, id@)),
                    }
                    &&& final(self)@.pending is None || old(self)@.pending is None
                },
                None => !spec_has_id(old(self)@, id@) && final(self)@ == old(self)@,
            },
    {
        match self.find_index(id) {
            Some(ix) => {
                proof {
                    lemma_spec_find(old(self)@.nodes, id@);
                }
                let removed = self.nodes.remove(ix);
                proof {
                    lemma_nodes_view_remove(old(self).nodes@, ix as int);
                    let b0 = old(self)@;
                    let rm = b0.nodes.remove(ix as int);
                    assert forall|a: int, c: int| 0 <= a < c < rm.len()
                        implies #[trigger] rm[a].id != #[trigger] rm[c].id by {
                        if a < ix {
                            assert(rm[a] == b0.nodes[a]);
                        } else {
                            assert(rm[a] == b0.nodes[a + 1]);
                        }
                        if c < ix {
                            assert(rm[c] == b0.nodes[c]);
                        } else {
                            assert(rm[c] == b0.nodes[c + 1]);
                        }
                    }
                    assert forall|a: int| 1 <= a < rm.len()
                        implies #[trigger] rm[a].eviction_status == NodeEvictionStatus::Clear by {
                        assert(rm[a] == b0.nodes[a + (if a < ix { 0int } else { 1int })]);
                    }
                    match b0.pending {
                        Some(p) => {
                            assert forall|a: int| 0 <= a < rm.len()
                                implies #[trigger] rm[a].id != p.id by {
                                if a < ix {
                                    assert(rm[a] == b0.nodes[a]);
                                } else {
                                    assert(rm[a] == b0.nodes[a + 1]);
                                }
                            }
                        }
                        None => {}
                    }
                }
                match self.pending_node.take() {
                    Some(p) => {
                        let ghost s = self.nodes@;
                        self.nodes.push(p);
                        proof {
                            lemma_nodes_view_push(s, p);
                            let pushed = self@.nodes;
                            let base = nodes_view(s);
                            assert forall|a: int, c: int| 0 <= a < c < pushed.len()
                                implies #[trigger] pushed[a].id != #[trigger] pushed[c].id by {
                                assert(pushed[a] == base.push(p@)[a]);
                                assert(pushed[c] == base.push(p@)[c]);
                            }
                            assert forall|a: int| 1 <= a < pushed.len()
                                implies #[trigger] pushed[a].eviction_status
                                    == NodeEvictionStatus::Clear by {
                                assert(pushed[a] == base.push(p@)[a]);
                            }
                        }
                    }
                    None => {}
                }
                Some(removed)
            }
            None => None,
        }
    }
}

} // verus!
