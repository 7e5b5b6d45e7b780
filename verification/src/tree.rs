//! The routing table: one bucket per XOR-distance band from the local node.

use vstd::prelude::*;

use crate::bucket::{
    spec_insert, spec_insert_outcome, wf_bucket, Bucket, BucketConfig, BucketV, InsertOutcome,
    NodeInsertError, NodeInsertOk,
};
use crate::key::{spec_bucket_index, wf_key, bucket_index_of};
use crate::peer::{spec_is_alive, Node, NodeEvictionStatus, NodeV};
use crate::{K_ID_LEN_BITS, K_ID_LEN_BYTES};

verus! {

/// The local node's routing table: its own record and one bucket per
/// distance band.
pub struct Tree {
    root: Node,
    buckets: Vec<Bucket>,
    config: BucketConfig,
}

/// Mathematical value of a routing table.
pub struct TreeV {
    pub root: NodeV,
    pub buckets: Seq<BucketV>,
    pub config: BucketConfig,
}

/// Mathematical value of a list of buckets.
pub open spec fn buckets_view(s: Seq<Bucket>) -> Seq<BucketV> {
    s.map_values(|b: Bucket| b@)
}

impl View for Tree {
    type V = TreeV;

    closed spec fn view(&self) -> TreeV {
        TreeV { root: self.root@, buckets: buckets_view(self.buckets@), config: self.config }
    }
}

/// The table invariant: one well-formed bucket per distance band, and a
/// root key of the fixed width.
pub open spec fn wf_tree(t: TreeV) -> bool {
    &&& t.buckets.len() == K_ID_LEN_BITS
    &&& forall|i: int| 0 <= i < t.buckets.len() ==> wf_bucket(#[trigger] t.buckets[i])
    &&& wf_key(t.root.id)
}

/// Every record of bucket `bi` that is alive at `now` appears in `rv`.
pub open spec fn spec_bucket_alive_in(t: TreeV, bi: int, rv: Seq<NodeV>, now: u64) -> bool {
    forall|j: int| 0 <= j < t.buckets[bi].nodes.len()
        && spec_is_alive(#[trigger] t.buckets[bi].nodes[j], now, t.buckets[bi].config.node_ttl)
        ==> rv.contains(t.buckets[bi].nodes[j])
}

/// The alive records of the band at `index`, in bucket order; empty for an
/// index outside the table.
pub open spec fn spec_band_alive(t: TreeV, index: int, now: u64) -> Seq<NodeV> {
    if 0 <= index < t.buckets.len() {
        crate::bucket::spec_keep_alive(
            t.buckets[index].nodes,
            now,
            t.buckets[index].config.node_ttl,
        )
    } else {
        Seq::empty()
    }
}

/// The alive records of the first `d` visited bands, in visiting order:
/// the target's own band first, then its neighbours outward, the lower
/// side before the higher.
pub open spec fn spec_visit_pool(t: TreeV, start: int, d: nat, now: u64) -> Seq<NodeV>
    decreases d,
{
    if d == 0 {
        Seq::empty()
    } else if d == 1 {
        spec_band_alive(t, start, now)
    } else {
        spec_visit_pool(t, start, (d - 1) as nat, now)
            + spec_band_alive(t, start - (d - 1), now)
            + spec_band_alive(t, start + (d - 1), now)
    }
}

/// The band a lookup starts from: the target's own distance band, or band
/// zero when the target has no band (the local key itself, or a key of the
/// wrong width).
pub open spec fn spec_start_band(t: TreeV, target: Seq<u8>) -> int {
    match spec_bucket_index(t.root.id, target) {
        Some(ix) => ix,
        None => 0,
    }
}

/// Filling up to `count` from a pool and then from an appended band is
/// filling from their concatenation.
proof fn lemma_take_fill_append(a: Seq<NodeV>, b: Seq<NodeV>, count: int)
    requires
        0 <= count,
    ensures
        a.take(vstd::math::min(count, a.len() as int)) + b.take(
            vstd::math::min(count - vstd::math::min(count, a.len() as int), b.len() as int),
        ) =~= (a + b).take(vstd::math::min(count, (a + b).len() as int)),
{
    let taken = vstd::math::min(count, a.len() as int);
    let more = vstd::math::min(count - taken, b.len() as int);
    let total = vstd::math::min(count, (a + b).len() as int);
    assert(taken + more == total);
    assert forall|j: int| 0 <= j < total
        implies (a.take(taken) + b.take(more))[j] == (a + b).take(total)[j] by {
        if j < taken {
            assert((a.take(taken) + b.take(more))[j] == a[j]);
            assert((a + b).take(total)[j] == (a + b)[j]);
        } else {
            assert((a.take(taken) + b.take(more))[j] == b[j - taken]);
            assert((a + b).take(total)[j] == (a + b)[j]);
        }
    }
}

/// Some bucket of the table holds this record, alive at `now` under that
/// bucket's timing.
pub open spec fn tree_has_alive(t: TreeV, n: NodeV, now: u64) -> bool {
    exists|bi: int| 0 <= bi < t.buckets.len()
        && (#[trigger] t.buckets[bi]).nodes.contains(n)
        && spec_is_alive(n, now, t.buckets[bi].config.node_ttl)
}

impl Tree {
    /// A table for `root` with empty buckets.
    pub fn new(root: Node, config: BucketConfig) -> (r: Tree)
        requires
            wf_key(root@.id),
        ensures
            wf_tree(r@),
            r@.root == root@,
            forall|i: int| 0 <= i < r@.buckets.len()
                ==> (#[trigger] r@.buckets[i]).nodes.len() == 0,
    {
        let mut buckets: Vec<Bucket> = Vec::new();
        let mut i: usize = 0;
        while i < K_ID_LEN_BITS
            invariant
                i <= K_ID_LEN_BITS,
                buckets@.len() == i,
                forall|j: int| 0 <= j < i ==> wf_bucket(#[trigger] buckets_view(buckets@)[j])
                    && buckets_view(buckets@)[j].nodes.len() == 0,
            decreases K_ID_LEN_BITS - i,
        {
            let ghost bs = buckets@;
            let b = Bucket::new(config);
            buckets.push(b);
            proof {
                assert forall|j: int| 0 <= j < i + 1
                    implies wf_bucket(#[trigger] buckets_view(buckets@)[j])
                        && buckets_view(buckets@)[j].nodes.len() == 0 by {
                    if j < i {
                        assert(buckets@[j] == bs[j]);
                        assert(buckets_view(buckets@)[j] == buckets_view(bs)[j]);
                    } else {
                        assert(buckets@[j] == b);
                        assert(buckets_view(buckets@)[j] == b@);
                    }
                }
            }
            i += 1;
        }
        Tree { root, buckets, config }
    }

    /// The local node's own record.
    pub fn root(&self) -> (r: &Node)
        ensures
            r@ == self@.root,
    {
        &self.root
    }

    /// A borrow of the bucket at a distance band.
    pub fn bucket_at(&self, index: usize) -> (r: &Bucket)
        requires
            wf_tree(self@),
            index < K_ID_LEN_BITS,
        ensures
            r@ == self@.buckets[index as int],
    {
        &self.buckets[index]
    }

    /// Route one freshly seen node to the bucket of its distance band and
    /// insert it there. A node at distance zero (the local node itself) or
    /// with a key of the wrong width is invalid.
    pub fn insert(&mut self, node: Node, now: u64) -> (r: Result<NodeInsertOk, NodeInsertError>)
        requires
            wf_tree(old(self)@),
            node@.eviction_status == NodeEvictionStatus::Clear,
        ensures
            wf_tree(final(self)@),
            final(self)@.root == old(self)@.root,
            final(self)@.config == old(self)@.config,
            match spec_bucket_index(old(self)@.root.id, node@.id) {
                None => final(self)@ == old(self)@ && match r {
                    Err(NodeInsertError::Invalid(nn)) => nn@ == node@,
                    _ => false,
                },
                Some(ix) => {
                    &&& final(self)@.buckets == old(self)@.buckets.update(
                        ix,
                        spec_insert(old(self)@.buckets[ix], node@, now),
                    )
                    &&& match r {
                        Err(NodeInsertError::Invalid(nn)) => {
                            &&& spec_insert_outcome(old(self)@.buckets[ix], node@, now)
                                == InsertOutcome::Invalid
                            &&& nn@ == node@
                        },
                        Err(NodeInsertError::Full(nn)) => {
                            &&& spec_insert_outcome(old(self)@.buckets[ix], node@, now)
                                == InsertOutcome::Full
                            &&& nn@ == node@
                        },
                        Ok(NodeInsertOk::Inserted { inserted }) => {
                            &&& spec_insert_outcome(old(self)@.buckets[ix], node@, now)
                                == InsertOutcome::Inserted
                            &&& inserted@ == node@
                        },
                        Ok(NodeInsertOk::Updated { updated, pending_eviction: _ }) => {
                            &&& spec_insert_outcome(old(self)@.buckets[ix], node@, now)
                                == InsertOutcome::Updated
                            &&& updated@.id == node@.id
                        },
                        Ok(NodeInsertOk::Pending { pending_insert, pending_eviction: _ }) => {
                            &&& spec_insert_outcome(old(self)@.buckets[ix], node@, now)
                                == InsertOutcome::Pending
                            &&& pending_insert@ == node@
                        },
                    }
                },
            },
    {
        if node.id.len() != K_ID_LEN_BYTES {
            return Err(NodeInsertError::Invalid(node));
        }
        match bucket_index_of(&self.root.id, &node.id) {
            None => Err(NodeInsertError::Invalid(node)),
            Some(ix) => {
                proof {
                    assert(ix < K_ID_LEN_BITS);
                }
                let ghost bs = self@.buckets;
                let bucket = &mut self.buckets[ix];
                let res = bucket.insert(node, now);
                proof {
                    assert(self@.buckets =~= bs.update(
                        ix as int,
                        spec_insert(bs[ix as int], node@, now),
                    ));
                    assert forall|j: int| 0 <= j < self@.buckets.len()
                        implies wf_bucket(#[trigger] self@.buckets[j]) by {
                        if j != ix {
                            assert(self@.buckets[j] == bs[j]);
                        }
                    }
                }
                res
            }
        }
    }

    /// Up to `count` alive records: exactly the first `count` of the pool
    /// that visits the target's own distance band first and then its
    /// neighbours outward, each band in bucket (least recently seen first)
    /// order. Short only for want of alive records: fewer than `count`
    /// come back only when every alive record of the whole table is among
    /// them.
    pub fn closest(&self, target: &Vec<u8>, count: usize, now: u64) -> (r: Vec<Node>)
        requires
            wf_tree(self@),
        ensures
            r@.len() <= count,
            forall|i: int| 0 <= i < r@.len()
                ==> tree_has_alive(self@, #[trigger] crate::bucket::nodes_view(r@)[i], now),
            r@.len() < count ==> forall|bi: int| 0 <= bi < self@.buckets.len()
                ==> #[trigger] spec_bucket_alive_in(
                    self@,
                    bi,
                    crate::bucket::nodes_view(r@),
                    now,
                ),
            crate::bucket::nodes_view(r@) == spec_visit_pool(
                self@,
                spec_start_band(self@, target@),
                K_ID_LEN_BITS as nat,
                now,
            ).take(vstd::math::min(
                count as int,
                spec_visit_pool(
                    self@,
                    spec_start_band(self@, target@),
                    K_ID_LEN_BITS as nat,
                    now,
                ).len() as int,
            )),
    {
        let start: usize = if target.len() == self.root.id.len() && target.len() <= K_ID_LEN_BYTES {
            match bucket_index_of(&self.root.id, target) {
                Some(ix) => ix,
                None => 0,
            }
        } else {
            0
        };
        proof {
            assert(start < K_ID_LEN_BITS);
            assert(start as int == spec_start_band(self@, target@));
        }
        let mut out: Vec<Node> = Vec::new();
        proof {
            assert(crate::bucket::nodes_view(out@)
                =~= spec_visit_pool(self@, start as int, 0, now).take(0));
        }
        let mut d: usize = 0;
        while d < K_ID_LEN_BITS
            invariant
                wf_tree(self@),
                start < K_ID_LEN_BITS,
                d <= K_ID_LEN_BITS,
                out@.len() <= count,
                forall|i: int| 0 <= i < out@.len()
                    ==> tree_has_alive(self@, #[trigger] crate::bucket::nodes_view(out@)[i], now),
                out@.len() < count ==> forall|bi: int|
                    0 <= bi < K_ID_LEN_BITS && start - d < bi < start + d
                        ==> #[trigger] spec_bucket_alive_in(
                            self@,
                            bi,
                            crate::bucket::nodes_view(out@),
                            now,
                        ),
                crate::bucket::nodes_view(out@) == spec_visit_pool(
                    self@,
                    start as int,
                    d as nat,
                    now,
                ).take(vstd::math::min(
                    count as int,
                    spec_visit_pool(self@, start as int, d as nat, now).len() as int,
                )),
            decreases K_ID_LEN_BITS - d,
        {
            let ghost out0 = crate::bucket::nodes_view(out@);
            let ghost pool_d = spec_visit_pool(self@, start as int, d as nat, now);
            if d == 0 {
                self.collect_alive(start, count, now, &mut out);
                proof {
                    assert(pool_d =~= Seq::<NodeV>::empty());
                    assert(out0 =~= Seq::<NodeV>::empty());
                    lemma_take_fill_append(pool_d, spec_band_alive(self@, start as int, now),
                        count as int);
                    assert(pool_d + spec_band_alive(self@, start as int, now)
                        =~= spec_band_alive(self@, start as int, now));
                    assert(spec_visit_pool(self@, start as int, 1, now)
                        == spec_band_alive(self@, start as int, now));
                    assert(pool_d.take(vstd::math::min(count as int, pool_d.len() as int))
                        =~= Seq::<NodeV>::empty());
                    assert(crate::bucket::nodes_view(out@)
                        =~= spec_visit_pool(self@, start as int, 1, now).take(vstd::math::min(
                            count as int,
                            spec_visit_pool(self@, start as int, 1, now).len() as int,
                        )));
                }
            } else {
                let ghost low = spec_band_alive(self@, start - d, now);
                let ghost high = spec_band_alive(self@, start + d, now);
                if start >= d {
                    self.collect_alive(start - d, count, now, &mut out);
                }
                let ghost out1 = crate::bucket::nodes_view(out@);
                proof {
                    if start < d {
                        assert(low =~= Seq::<NodeV>::empty());
                        assert(low.take(vstd::math::min(
                            count - out0.len(),
                            low.len() as int,
                        )) =~= Seq::<NodeV>::empty());
                        assert(out1 =~= out0 + low.take(vstd::math::min(
                            count - out0.len(),
                            low.len() as int,
                        )));
                    }
                    lemma_take_fill_append(pool_d, low, count as int);
                    assert(out1 =~= (pool_d + low).take(vstd::math::min(
                        count as int,
                        (pool_d + low).len() as int,
                    )));
                    assert forall|n: NodeV| out0.contains(n) implies out1.contains(n) by {}
                }
                if start + d < K_ID_LEN_BITS {
                    self.collect_alive(start + d, count, now, &mut out);
                }
                proof {
                    let out2 = crate::bucket::nodes_view(out@);
                    if start + d >= K_ID_LEN_BITS {
                        assert(high =~= Seq::<NodeV>::empty());
                        assert(high.take(vstd::math::min(
                            count - out1.len(),
                            high.len() as int,
                        )) =~= Seq::<NodeV>::empty());
                        assert(out2 =~= out1 + high.take(vstd::math::min(
                            count - out1.len(),
                            high.len() as int,
                        )));
                    }
                    lemma_take_fill_append(pool_d + low, high, count as int);
                    assert(out2 =~= ((pool_d + low) + high).take(vstd::math::min(
                        count as int,
                        ((pool_d + low) + high).len() as int,
                    )));
                    assert(spec_visit_pool(self@, start as int, (d + 1) as nat, now)
                        == (pool_d + low) + high);
                    assert forall|n: NodeV| out1.contains(n) implies out2.contains(n) by {}
                }
            }
            proof {
                let out2 = crate::bucket::nodes_view(out@);
                if out@.len() < count {
                    assert forall|bi: int|
                        0 <= bi < K_ID_LEN_BITS && start - (d + 1) < bi < start + (d + 1)
                            implies #[trigger] spec_bucket_alive_in(self@, bi, out2, now) by {
                        if start - d < bi < start + d {
                            assert(spec_bucket_alive_in(self@, bi, out0, now));
                            assert forall|j: int| 0 <= j < self@.buckets[bi].nodes.len()
                                && spec_is_alive(
                                    #[trigger] self@.buckets[bi].nodes[j],
                                    now,
                                    self@.buckets[bi].config.node_ttl,
                                ) implies out2.contains(self@.buckets[bi].nodes[j]) by {
                                assert(out0.contains(self@.buckets[bi].nodes[j]));
                            }
                        }
                    }
                }
            }
            d += 1;
        }
        out
    }

    /// Append the alive records of one bucket to `out` until it holds
    /// `count`. `out` only grows; if it ends below `count`, every alive
    /// record of the bucket is in it.
    fn collect_alive(&self, index: usize, count: usize, now: u64, out: &mut Vec<Node>)
        requires
            wf_tree(self@),
            index < K_ID_LEN_BITS,
            old(out)@.len() <= count,
            forall|i: int| 0 <= i < old(out)@.len()
                ==> tree_has_alive(
                    self@,
                    #[trigger] crate::bucket::nodes_view(old(out)@)[i],
                    now,
                ),
        ensures
            final(out)@.len() <= count,
            old(out)@.len() <= final(out)@.len(),
            forall|i: int| 0 <= i < final(out)@.len()
                ==> tree_has_alive(
                    self@,
                    #[trigger] crate::bucket::nodes_view(final(out)@)[i],
                    now,
                ),
            forall|n: NodeV| crate::bucket::nodes_view(old(out)@).contains(n)
                ==> #[trigger] crate::bucket::nodes_view(final(out)@).contains(n),
            final(out)@.len() < count ==> spec_bucket_alive_in(
                self@,
                index as int,
                crate::bucket::nodes_view(final(out)@),
                now,
            ),
            crate::bucket::nodes_view(final(out)@) == crate::bucket::nodes_view(old(out)@)
                + spec_band_alive(self@, index as int, now).take(vstd::math::min(
                    count - old(out)@.len(),
                    spec_band_alive(self@, index as int, now).len() as int,
                )),
    {
        let ghost bv = self@.buckets[index as int];
        let alive = self.buckets[index].alive_nodes(now);
        proof {
            crate::bucket::lemma_keep_alive_members(bv.nodes, now, bv.config.node_ttl);
            crate::bucket::lemma_keep_alive_complete(bv.nodes, now, bv.config.node_ttl);
            assert(crate::bucket::nodes_view(out@)
                =~= crate::bucket::nodes_view(old(out)@)
                    + crate::bucket::nodes_view(alive@).take(0));
        }
        let mut i: usize = 0;
        while i < alive.len()
            invariant
                wf_tree(self@),
                index < K_ID_LEN_BITS,
                bv == self@.buckets[index as int],
                crate::bucket::nodes_view(alive@)
                    == crate::bucket::spec_keep_alive(bv.nodes, now, bv.config.node_ttl),
                crate::bucket::nodes_view(alive@) == spec_band_alive(self@, index as int, now),
                i <= alive@.len(),
                out@.len() <= count,
                old(out)@.len() <= out@.len(),
                out@.len() == old(out)@.len() + i,
                crate::bucket::nodes_view(out@) == crate::bucket::nodes_view(old(out)@)
                    + crate::bucket::nodes_view(alive@).take(i as int),
                forall|a: int| 0 <= a < alive@.len()
                    ==> bv.nodes.contains(#[trigger] crate::bucket::nodes_view(alive@)[a])
                        && spec_is_alive(
                            crate::bucket::nodes_view(alive@)[a],
                            now,
                            bv.config.node_ttl,
                        ),
                forall|a: int| 0 <= a < out@.len()
                    ==> tree_has_alive(
                        self@,
                        #[trigger] crate::bucket::nodes_view(out@)[a],
                        now,
                    ),
                forall|n: NodeV| crate::bucket::nodes_view(old(out)@).contains(n)
                    ==> #[trigger] crate::bucket::nodes_view(out@).contains(n),
                forall|a: int| 0 <= a < i
                    ==> crate::bucket::nodes_view(out@).contains(
                        #[trigger] crate::bucket::nodes_view(alive@)[a],
                    ),
            decreases alive@.len() - i,
        {
            if out.len() >= count {
                proof {
                    let band = crate::bucket::nodes_view(alive@);
                    assert(i == count - old(out)@.len());
                    assert(vstd::math::min(count - old(out)@.len(), band.len() as int)
                        == i as int);
                }
                return;
            }
            let dup = alive[i].duplicate();
            let ghost os = out@;
            out.push(dup);
            proof {
                crate::bucket::lemma_nodes_view_push(os, dup);
                let ov = crate::bucket::nodes_view(os);
                let nv2 = crate::bucket::nodes_view(out@);
                assert(nv2[ov.len() as int] == crate::bucket::nodes_view(alive@)[i as int]);
                assert forall|n: NodeV| ov.contains(n) implies nv2.contains(n) by {
                    let w = choose|w: int| 0 <= w < ov.len() && ov[w] == n;
                    assert(nv2[w] == n);
                }
                assert forall|a: int| 0 <= a < out@.len()
                    implies tree_has_alive(self@, #[trigger] nv2[a], now) by {
                    if a < ov.len() {
                        assert(nv2[a] == ov[a]);
                    } else {
                        assert(0 <= index as int && (index as int) < self@.buckets.len()
                            && self@.buckets[index as int].nodes.contains(nv2[a])
                            && spec_is_alive(
                                nv2[a],
                                now,
                                self@.buckets[index as int].config.node_ttl,
                            ));
                    }
                }
                assert forall|a: int| 0 <= a < i + 1
                    implies nv2.contains(#[trigger] crate::bucket::nodes_view(alive@)[a]) by {
                    if a < i {
                        let w = choose|w: int| 0 <= w < ov.len()
                            && ov[w] == crate::bucket::nodes_view(alive@)[a];
                        assert(nv2[w] == crate::bucket::nodes_view(alive@)[a]);
                    } else {
                        assert(nv2.contains(nv2[ov.len() as int]));
                    }
                }
                assert(nv2 =~= crate::bucket::nodes_view(old(out)@)
                    + crate::bucket::nodes_view(alive@).take(i + 1));
            }
            i += 1;
        }
        proof {
            let nv2 = crate::bucket::nodes_view(out@);
            let keep = crate::bucket::spec_keep_alive(bv.nodes, now, bv.config.node_ttl);
            assert forall|j: int| 0 <= j < bv.nodes.len()
                && spec_is_alive(#[trigger] bv.nodes[j], now, bv.config.node_ttl)
                implies nv2.contains(bv.nodes[j]) by {
                assert(keep.contains(bv.nodes[j]));
                let a = choose|a: int| 0 <= a < keep.len() && keep[a] == bv.nodes[j];
                assert(crate::bucket::nodes_view(alive@)[a] == bv.nodes[j]);
                assert(nv2.contains(crate::bucket::nodes_view(alive@)[a]));
            }
            let band = crate::bucket::nodes_view(alive@);
            assert(band.take(band.len() as int) =~= band);
            assert(vstd::math::min(count - old(out)@.len(), band.len() as int)
                == band.len() as int);
        }
    }

    /// Apply the idle sweep to every bucket.
    pub fn remove_idle_nodes(&mut self, now: u64)
        requires
            wf_tree(old(self)@),
        ensures
            wf_tree(final(self)@),
            final(self)@.root == old(self)@.root,
            final(self)@.buckets.len() == old(self)@.buckets.len(),
            forall|i: int| 0 <= i < final(self)@.buckets.len()
                ==> #[trigger] final(self)@.buckets[i]
                    == crate::bucket::spec_remove_idle(old(self)@.buckets[i], now),
    {
        let mut i: usize = 0;
        while i < K_ID_LEN_BITS
            invariant
                i <= K_ID_LEN_BITS,
                self@.buckets.len() == old(self)@.buckets.len(),
                self@.buckets.len() == K_ID_LEN_BITS,
                self@.root == old(self)@.root,
                self@.config == old(self)@.config,
                wf_key(self@.root.id),
                forall|j: int| i <= j < self@.buckets.len()
                    ==> #[trigger] self@.buckets[j] == old(self)@.buckets[j]
                        && wf_bucket(self@.buckets[j]),
                forall|j: int| 0 <= j < i
                    ==> #[trigger] self@.buckets[j]
                        == crate::bucket::spec_remove_idle(old(self)@.buckets[j], now)
                        && wf_bucket(self@.buckets[j]),
            decreases K_ID_LEN_BITS - i,
        {
            let ghost bs = self@.buckets;
            proof {
                assert(buckets_view(self.buckets@)[i as int] == self.buckets@[i as int]@);
                assert(wf_bucket(self@.buckets[i as int]));
            }
            let bucket = &mut self.buckets[i];
            bucket.remove_idle_nodes(now);
            proof {
                assert(self@.buckets =~= bs.update(
                    i as int,
                    crate::bucket::spec_remove_idle(bs[i as int], now),
                ));
            }
            i += 1;
        }
    }
}

} // verus!
