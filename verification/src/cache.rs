//! The receive-side reassembly cache: one fountain decoder per `safe_uid`,
//! with a delivery flag so each payload reaches the application at most
//! once, and a timed prune pass.

use vstd::prelude::*;

use crate::encoding::{
    BroadcastPayload, DecodeError, Message, MessageV,
};
use crate::fec::{spec_safe_uid, wf_chunk, ChunkedPayload};
use crate::fountain::{
    rq_completes, rq_decode, rq_decoder_fed, rq_decoder_info, rq_info_blocks,
    rq_info_symbol_size, rq_info_transfer_len, rq_new_decoder, rq_payload_of, wf_rq_info,
};

verus! {

/// Timing of the reassembly cache, in milliseconds.
#[derive(Clone, Copy, Debug)]
pub struct RaptorQDecoderConf {
    pub cache_ttl_millis: u64,
    pub cache_prune_every_millis: u64,
}

impl Default for RaptorQDecoderConf {
    /// The default cache timing: entries live a minute, pruned every five.
    fn default() -> (r: RaptorQDecoderConf)
        ensures
            r.cache_ttl_millis == 60000,
            r.cache_prune_every_millis == 300000,
    {
        RaptorQDecoderConf { cache_ttl_millis: 60000, cache_prune_every_millis: 300000 }
    }
}

/// One reassembly in progress: its cache key, the transmission parameters,
/// the accumulating decoder, when the entry expires, and whether its
/// payload was already handed out.
struct CacheEntry {
    key: Vec<u8>,
    info: Vec<u8>,
    decoder: raptorq::Decoder,
    expire_on: u64,
    delivered: bool,
}

/// Mathematical value of a cache entry: its plain fields, and the packets
/// its decoder has been fed, in order.
pub struct CacheEntryV {
    pub key: Seq<u8>,
    pub info: Seq<u8>,
    pub expire_on: u64,
    pub delivered: bool,
    pub fed: Seq<Seq<u8>>,
}

impl View for CacheEntry {
    type V = CacheEntryV;

    closed spec fn view(&self) -> CacheEntryV {
        CacheEntryV {
            key: self.key@,
            info: self.info@,
            expire_on: self.expire_on,
            delivered: self.delivered,
            fed: rq_decoder_fed(self.decoder),
        }
    }
}

/// Index of the entry with the given key, or -1.
pub open spec fn spec_cache_find(c: Seq<CacheEntryV>, k: Seq<u8>) -> int
    decreases c.len(),
{
    if c.len() == 0 {
        -1
    } else if c[0].key == k {
        0
    } else {
        let r = spec_cache_find(c.skip(1), k);
        if r < 0 {
            -1
        } else {
            r + 1
        }
    }
}

/// Whether the payload keyed `k` was already delivered once.
pub open spec fn spec_delivered(c: Seq<CacheEntryV>, k: Seq<u8>) -> bool {
    let i = spec_cache_find(c, k);
    i >= 0 && c[i].delivered
}

/// `spec_cache_find` returns either -1 or a position holding the key.
pub proof fn lemma_spec_cache_find(c: Seq<CacheEntryV>, k: Seq<u8>)
    ensures
        spec_cache_find(c, k) >= 0 ==> spec_cache_find(c, k) < c.len()
            && c[spec_cache_find(c, k)].key == k,
        spec_cache_find(c, k) == -1 ==> forall|i: int| 0 <= i < c.len()
            ==> #[trigger] c[i].key != k,
        spec_cache_find(c, k) >= 0 || spec_cache_find(c, k) == -1,
    decreases c.len(),
{
    if c.len() > 0 && c[0].key != k {
        lemma_spec_cache_find(c.skip(1), k);
        let r = spec_cache_find(c.skip(1), k);
        if r >= 0 {
            assert(c.skip(1)[r] == c[r + 1]);
        } else {
            assert forall|i: int| 0 <= i < c.len() implies #[trigger] c[i].key != k by {
                if i > 0 {
                    assert(c.skip(1)[i - 1] == c[i]);
                }
            }
        }
    }
}

/// Two caches whose entries carry the same keys position by position are
/// searched alike.
pub proof fn lemma_cache_find_same_keys(c1: Seq<CacheEntryV>, c2: Seq<CacheEntryV>, k: Seq<u8>)
    requires
        c1.len() == c2.len(),
        forall|i: int| 0 <= i < c1.len() ==> #[trigger] c1[i].key == #[trigger] c2[i].key,
    ensures
        spec_cache_find(c1, k) == spec_cache_find(c2, k),
    decreases c1.len(),
{
    if c1.len() > 0 {
        assert(c1[0].key == c2[0].key);
        if c1[0].key != k {
            assert forall|i: int| 0 <= i < c1.skip(1).len()
                implies #[trigger] c1.skip(1)[i].key == #[trigger] c2.skip(1)[i].key by {
                assert(c1.skip(1)[i] == c1[i + 1]);
                assert(c2.skip(1)[i] == c2[i + 1]);
            }
            lemma_cache_find_same_keys(c1.skip(1), c2.skip(1), k);
        }
    }
}

/// A key absent from a cache is found exactly at the end after a push of
/// an entry carrying it.
pub proof fn lemma_cache_find_push(c: Seq<CacheEntryV>, e: CacheEntryV, k: Seq<u8>)
    requires
        spec_cache_find(c, k) == -1,
        e.key == k,
    ensures
        spec_cache_find(c.push(e), k) == c.len(),
    decreases c.len(),
{
    if c.len() == 0 {
        assert(c.push(e)[0] == e);
    } else {
        assert(c.push(e)[0] == c[0]);
        assert(c[0].key != k);
        assert(c.push(e).skip(1) =~= c.skip(1).push(e));
        lemma_cache_find_push(c.skip(1), e, k);
    }
}

/// Mathematical value of a list of entries.
spec fn entries_view(s: Seq<CacheEntry>) -> Seq<CacheEntryV> {
    s.map_values(|e: CacheEntry| e@)
}

/// Entry views distribute over removal.
proof fn lemma_entries_view_remove(s: Seq<CacheEntry>, i: int)
    requires
        0 <= i < s.len(),
    ensures
        entries_view(s.remove(i)) =~= entries_view(s).remove(i),
{
    assert forall|j: int| 0 <= j < s.len() - 1
        implies entries_view(s.remove(i))[j] == entries_view(s).remove(i)[j] by {
        if j < i {
            assert(s.remove(i)[j] == s[j]);
        } else {
            assert(s.remove(i)[j] == s[j + 1]);
        }
    }
}

/// Entry views distribute over insertion.
proof fn lemma_entries_view_insert(s: Seq<CacheEntry>, i: int, e: CacheEntry)
    requires
        0 <= i <= s.len(),
    ensures
        entries_view(s.insert(i, e)) =~= entries_view(s).insert(i, e@),
{
    assert forall|j: int| 0 <= j < s.len() + 1
        implies entries_view(s.insert(i, e))[j] == entries_view(s).insert(i, e@)[j] by {
        if j < i {
            assert(s.insert(i, e)[j] == s[j]);
        } else if j == i {
            assert(s.insert(i, e)[j] == e);
        } else {
            assert(s.insert(i, e)[j] == s[j - 1]);
        }
    }
}

/// Entry views distribute over push.
proof fn lemma_entries_view_push(s: Seq<CacheEntry>, e: CacheEntry)
    ensures
        entries_view(s.push(e)) =~= entries_view(s).push(e@),
{
    assert forall|j: int| 0 <= j < s.len() + 1
        implies entries_view(s.push(e))[j] == entries_view(s).push(e@)[j] by {
        if j < s.len() {
            assert(s.push(e)[j] == s[j]);
        } else {
            assert(s.push(e)[j] == e);
        }
    }
}

/// The shape a chunk's frame must have for the decoder its transmission
/// parameters describe: a 4-byte packet ID whose block number is in range,
/// then one symbol of exactly the symbol size.
pub open spec fn spec_chunk_shape_ok(info: Seq<u8>, frame: Seq<u8>) -> bool {
    &&& frame.len() >= 48
    &&& (frame[44] as int) < rq_info_blocks(info)
    &&& frame.len() - 48 == rq_info_symbol_size(info)
}

/// When an entry created at `now` expires, saturating at the largest
/// instant.
pub open spec fn spec_expire(now: u64, ttl: u64) -> u64 {
    if now <= u64::MAX - ttl {
        (now + ttl) as u64
    } else {
        u64::MAX
    }
}

/// The entries that survive a prune at `now`: those not yet expired, in
/// their old order.
pub open spec fn spec_keep_fresh(c: Seq<CacheEntryV>, now: u64) -> Seq<CacheEntryV>
    decreases c.len(),
{
    if c.len() == 0 {
        c
    } else if c[0].expire_on > now {
        seq![c[0]] + spec_keep_fresh(c.skip(1), now)
    } else {
        spec_keep_fresh(c.skip(1), now)
    }
}

/// Appending one entry extends the survivors by it exactly when it is
/// fresh.
pub proof fn lemma_keep_fresh_snoc(c: Seq<CacheEntryV>, e: CacheEntryV, now: u64)
    ensures
        spec_keep_fresh(c.push(e), now) == if e.expire_on > now {
            spec_keep_fresh(c, now).push(e)
        } else {
            spec_keep_fresh(c, now)
        },
    decreases c.len(),
{
    if c.len() == 0 {
        assert(c.push(e)[0] == e);
        assert(c.push(e).skip(1) =~= Seq::<CacheEntryV>::empty());
        assert(spec_keep_fresh(c.push(e).skip(1), now)
            == spec_keep_fresh(Seq::<CacheEntryV>::empty(), now));
        assert(spec_keep_fresh(Seq::<CacheEntryV>::empty(), now)
            =~= Seq::<CacheEntryV>::empty());
        assert(spec_keep_fresh(c, now) =~= Seq::<CacheEntryV>::empty());
        if e.expire_on > now {
            assert(spec_keep_fresh(c.push(e), now)
                == seq![e] + spec_keep_fresh(c.push(e).skip(1), now));
            assert(seq![e] + Seq::<CacheEntryV>::empty() =~= spec_keep_fresh(c, now).push(e));
        } else {
            assert(spec_keep_fresh(c.push(e), now)
                == spec_keep_fresh(c.push(e).skip(1), now));
        }
    } else {
        assert(c.push(e)[0] == c[0]);
        assert(c.push(e).skip(1) =~= c.skip(1).push(e));
        lemma_keep_fresh_snoc(c.skip(1), e, now);
        if c[0].expire_on > now {
            assert(spec_keep_fresh(c.push(e), now)
                == seq![c[0]] + spec_keep_fresh(c.skip(1).push(e), now));
            assert(spec_keep_fresh(c, now)
                == seq![c[0]] + spec_keep_fresh(c.skip(1), now));
            if e.expire_on > now {
                assert(seq![c[0]] + spec_keep_fresh(c.skip(1), now).push(e)
                    =~= (seq![c[0]] + spec_keep_fresh(c.skip(1), now)).push(e));
            }
        } else {
            assert(spec_keep_fresh(c.push(e), now)
                == spec_keep_fresh(c.skip(1).push(e), now));
            assert(spec_keep_fresh(c, now) == spec_keep_fresh(c.skip(1), now));
        }
    }
}

/// The reassembly cache: at most one decoder per `safe_uid`, each payload
/// delivered at most once.
pub struct RaptorQDecoder {
    cache: Vec<CacheEntry>,
    conf: RaptorQDecoderConf,
}

impl View for RaptorQDecoder {
    type V = Seq<CacheEntryV>;

    closed spec fn view(&self) -> Seq<CacheEntryV> {
        entries_view(self.cache@)
    }
}

impl RaptorQDecoder {
    /// The cache invariant: distinct keys, and each entry's decoder built
    /// from that entry's well-formed transmission parameters.
    pub closed spec fn inv(&self) -> bool {
        &&& forall|i: int, j: int| 0 <= i < j < self.cache@.len()
            ==> #[trigger] self.cache@[i]@.key != #[trigger] self.cache@[j]@.key
        &&& forall|i: int| 0 <= i < self.cache@.len()
            ==> wf_rq_info((#[trigger] self.cache@[i])@.info)
                && rq_decoder_info(self.cache@[i].decoder) == self.cache@[i]@.info
    }

    /// The default cache timing.
    pub fn default_configuration() -> (r: RaptorQDecoderConf)
        ensures
            r.cache_ttl_millis == 60000,
            r.cache_prune_every_millis == 300000,
    {
        RaptorQDecoderConf::default()
    }

    /// The time to live this cache gives a new entry.
    pub closed spec fn spec_ttl(&self) -> u64 {
        self.conf.cache_ttl_millis
    }

    /// An empty cache with the given timing.
    pub fn configure(conf: &RaptorQDecoderConf) -> (r: RaptorQDecoder)
        ensures
            r.inv(),
            r@ =~= Seq::<CacheEntryV>::empty(),
            r.spec_ttl() == conf.cache_ttl_millis,
    {
        RaptorQDecoder { cache: Vec::new(), conf: *conf }
    }

    /// Index of the cache entry keyed `key`, if any.
    fn find_entry(&self, key: &Vec<u8>) -> (r: Option<usize>)
        ensures
            match r {
                Some(ix) => spec_cache_find(self@, key@) == ix as int,
                None => spec_cache_find(self@, key@) == -1,
            },
    {
        let ghost cv = self@;
        proof {
            assert(cv.skip(0) =~= cv);
        }
        let mut i: usize = 0;
        while i < self.cache.len()
            invariant
                i <= self.cache@.len(),
                cv == self@,
                cv.len() == self.cache@.len(),
                spec_cache_find(cv, key@) == (if spec_cache_find(cv.skip(i as int), key@) < 0 {
                    -1
                } else {
                    spec_cache_find(cv.skip(i as int), key@) + i
                }),
            decreases self.cache@.len() - i,
        {
            if crate::key::keys_equal(&self.cache[i].key, key) {
                proof {
                    assert(cv.skip(i as int)[0] == cv[i as int]);
                }
                return Some(i);
            }
            proof {
                assert(cv.skip(i as int)[0] == cv[i as int]);
                assert(cv.skip(i as int).skip(1) =~= cv.skip(i + 1));
            }
            i += 1;
        }
        proof {
            assert(cv.skip(self.cache@.len() as int) =~= Seq::<CacheEntryV>::empty());
        }
        None
    }

    /// Feed one message through the cache. Non-broadcast messages pass
    /// through untouched. A broadcast chunk is routed to its `safe_uid`'s
    /// decoder; the reassembled payload comes out exactly once, every chunk
    /// for an already delivered key is swallowed, a chunk whose shape
    /// contradicts its transmission parameters is dropped, and any other
    /// chunk is accumulated in its key's entry (created on first sight with
    /// this cache's time to live).
    pub fn decode(&mut self, msg: Message, now: u64) -> (r: Result<Option<Message>, DecodeError>)
        requires
            old(self).inv(),
        ensures
            final(self).inv(),
            final(self).spec_ttl() == old(self).spec_ttl(),
            !(msg@ is Broadcast) ==> final(self)@ == old(self)@ && match r {
                Ok(Some(m)) => m@ == msg@,
                _ => false,
            },
            msg@ matches MessageV::Broadcast(h, bp) ==> {
                let k = spec_safe_uid(bp.frame);
                let info = bp.frame.subrange(32, 44);
                let fnd = spec_cache_find(old(self)@, k);
                &&& (r is Err) <==> !wf_chunk(bp.frame)
                &&& wf_chunk(bp.frame) && spec_delivered(old(self)@, k)
                    ==> final(self)@ == old(self)@
                        && r == Ok::<Option<Message>, DecodeError>(None)
                &&& wf_chunk(bp.frame) && fnd >= 0 && !old(self)@[fnd].delivered
                    && !spec_chunk_shape_ok(old(self)@[fnd].info, bp.frame)
                    ==> final(self)@ == old(self)@
                        && r == Ok::<Option<Message>, DecodeError>(None)
                &&& wf_chunk(bp.frame) && fnd >= 0 && !old(self)@[fnd].delivered
                    && spec_chunk_shape_ok(old(self)@[fnd].info, bp.frame) ==> {
                    &&& r is Ok
                    &&& ((r matches Ok(Some(_))) <==> rq_completes(
                        old(self)@[fnd].info,
                        old(self)@[fnd].fed.push(bp.frame.subrange(44, bp.frame.len() as int)),
                    ))
                    &&& final(self)@ == old(self)@.update(
                        fnd,
                        CacheEntryV {
                            delivered: r matches Ok(Some(_)),
                            fed: old(self)@[fnd].fed.push(
                                bp.frame.subrange(44, bp.frame.len() as int),
                            ),
                            ..old(self)@[fnd]
                        },
                    )
                }
                &&& wf_chunk(bp.frame) && fnd == -1
                    && !(wf_rq_info(info) && spec_chunk_shape_ok(info, bp.frame))
                    ==> final(self)@ == old(self)@
                        && r == Ok::<Option<Message>, DecodeError>(None)
                &&& wf_chunk(bp.frame) && fnd == -1 && wf_rq_info(info)
                    && spec_chunk_shape_ok(info, bp.frame) ==> {
                    &&& r is Ok
                    &&& ((r matches Ok(Some(_))) <==> rq_completes(
                        info,
                        seq![bp.frame.subrange(44, bp.frame.len() as int)],
                    ))
                    &&& final(self)@ == old(self)@.push(CacheEntryV {
                        key: k,
                        info: info,
                        expire_on: spec_expire(now, old(self).spec_ttl()),
                        delivered: r matches Ok(Some(_)),
                        fed: seq![bp.frame.subrange(44, bp.frame.len() as int)],
                    })
                }
                &&& match r {
                    Ok(Some(m)) => {
                        &&& wf_chunk(bp.frame)
                        &&& !spec_delivered(old(self)@, k)
                        &&& spec_delivered(final(self)@, k)
                        &&& m@ matches MessageV::Broadcast(h2, bp2)
                            && h2 == h && bp2.height == bp.height
                            && bp2.frame == (if fnd >= 0 {
                                rq_payload_of(
                                    old(self)@[fnd].info,
                                    old(self)@[fnd].fed.push(
                                        bp.frame.subrange(44, bp.frame.len() as int),
                                    ),
                                )
                            } else {
                                rq_payload_of(
                                    info,
                                    seq![bp.frame.subrange(44, bp.frame.len() as int)],
                                )
                            })
                            && bp2.frame.len() == rq_info_transfer_len(
                                if fnd >= 0 { old(self)@[fnd].info } else { info },
                            )
                    },
                    _ => true,
                }
            },
    {
        let message = msg;
        match message {
            Message::Broadcast(header, payload) => {
                if payload.gossip_frame.len() < 44 {
                    return Err(DecodeError::Truncated);
                }
                let chunked = ChunkedPayload(&payload);
                let safe_uid = chunked.safe_uid();
                let info = chunked.transmission_info();
                let chunk = chunked.encoded_chunk();
                let ghost k = spec_safe_uid(payload@.frame);
                let ghost frame = payload@.frame;
                proof {
                    assert(chunk@.len() == frame.len() - 44);
                    if frame.len() >= 48 {
                        assert(chunk@[0] == frame[44]);
                    }
                }
                match self.find_entry(&safe_uid) {
                    Some(ix) => {
                        proof {
                            lemma_spec_cache_find(self@, k);
                            assert(self@[ix as int] == self.cache@[ix as int]@);
                        }
                        if self.cache[ix].delivered {
                            return Ok(None);
                        }
                        if !chunk_fits(&self.cache[ix].info, &chunk) {
                            proof {
                                assert(!spec_chunk_shape_ok(self@[ix as int].info, frame));
                            }
                            return Ok(None);
                        }
                        proof {
                            assert(spec_chunk_shape_ok(self@[ix as int].info, frame));
                            assert(rq_decoder_info(self.cache@[ix as int].decoder)
                                == self@[ix as int].info);
                        }
                        let ghost before = self@;
                        let mut entry = self.cache.remove(ix);
                        proof {
                            lemma_entries_view_remove(old(self).cache@, ix as int);
                            assert(entry@ == before[ix as int]);
                        }
                        let res = rq_decode(&mut entry.decoder, &chunk);
                        match res {
                            Some(reassembled) => {
                                proof {
                                    assert(reassembled@.len()
                                        == rq_info_transfer_len(before[ix as int].info));
                                }
                                entry.delivered = true;
                                let ghost ev = entry@;
                                self.cache.insert(ix, entry);
                                proof {
                                    lemma_entries_view_insert(
                                        self.cache@.remove(ix as int),
                                        ix as int,
                                        entry,
                                    );
                                    assert(self@ =~= before.update(ix as int, ev));
                                    assert(ev == (CacheEntryV {
                                        delivered: true,
                                        fed: before[ix as int].fed.push(chunk@),
                                        ..before[ix as int]
                                    }));
                                    assert(chunk@ == frame.subrange(44, frame.len() as int));
                                    assert forall|a: int| 0 <= a < self@.len()
                                        implies #[trigger] self@[a].key == before[a].key by {}
                                    lemma_cache_find_same_keys(self@, before, k);
                                    assert(spec_delivered(self@, k));
                                }
                                Ok(Some(Message::Broadcast(
                                    header,
                                    BroadcastPayload {
                                        height: payload.height,
                                        gossip_frame: reassembled,
                                    },
                                )))
                            }
                            None => {
                                let ghost ev = entry@;
                                self.cache.insert(ix, entry);
                                proof {
                                    lemma_entries_view_insert(
                                        self.cache@.remove(ix as int),
                                        ix as int,
                                        entry,
                                    );
                                    assert(self@ =~= before.update(ix as int, ev));
                                    assert(ev == (CacheEntryV {
                                        delivered: false,
                                        fed: before[ix as int].fed.push(chunk@),
                                        ..before[ix as int]
                                    }));
                                    assert(chunk@ == frame.subrange(44, frame.len() as int));
                                }
                                Ok(None)
                            }
                        }
                    }
                    None => {
                        proof {
                            lemma_spec_cache_find(self@, k);
                        }
                        if !check_rq_info(&info) {
                            return Ok(None);
                        }
                        if !chunk_fits(&info, &chunk) {
                            proof {
                                assert(!spec_chunk_shape_ok(frame.subrange(32, 44), frame));
                            }
                            return Ok(None);
                        }
                        proof {
                            assert(spec_chunk_shape_ok(frame.subrange(32, 44), frame));
                        }
                        let mut decoder = rq_new_decoder(&info);
                        let res = rq_decode(&mut decoder, &chunk);
                        let expire_on = if now <= u64::MAX - self.conf.cache_ttl_millis {
                            now + self.conf.cache_ttl_millis
                        } else {
                            u64::MAX
                        };
                        let ghost before = self@;
                        let delivered = res.is_some();
                        let entry = CacheEntry {
                            key: safe_uid,
                            info,
                            decoder,
                            expire_on,
                            delivered,
                        };
                        let ghost ev = entry@;
                        self.cache.push(entry);
                        proof {
                            lemma_entries_view_push(old(self).cache@, entry);
                            assert(self@ =~= before.push(ev));
                            assert(ev == (CacheEntryV {
                                key: k,
                                info: frame.subrange(32, 44),
                                expire_on: spec_expire(now, old(self).spec_ttl()),
                                delivered: res is Some,
                                fed: seq![frame.subrange(44, frame.len() as int)],
                            }));
                            assert(Seq::<Seq<u8>>::empty().push(chunk@)
                                =~= seq![frame.subrange(44, frame.len() as int)]);
                            lemma_cache_find_push(before, ev, k);
                            assert forall|i: int, j: int| 0 <= i < j < self.cache@.len()
                                implies #[trigger] self.cache@[i]@.key
                                    != #[trigger] self.cache@[j]@.key by {
                                if j < self.cache@.len() - 1 {
                                    assert(self.cache@[i] == old(self).cache@[i]);
                                    assert(self.cache@[j] == old(self).cache@[j]);
                                } else {
                                    assert(self.cache@[i] == old(self).cache@[i]);
                                    assert(before[i].key != k);
                                }
                            }
                        }
                        match res {
                            Some(reassembled) => {
                                proof {
                                    assert(reassembled@.len()
                                        == rq_info_transfer_len(frame.subrange(32, 44)));
                                }
                                Ok(Some(Message::Broadcast(
                                    header,
                                    BroadcastPayload {
                                        height: payload.height,
                                        gossip_frame: reassembled,
                                    },
                                )))
                            }
                            None => Ok(None),
                        }
                    }
                }
            }
            other => Ok(Some(other)),
        }
    }

    /// Drop exactly the entries whose time to live has passed, keeping the
    /// rest in their old order.
    pub fn prune(&mut self, now: u64)
        requires
            old(self).inv(),
        ensures
            final(self).inv(),
            final(self)@ == spec_keep_fresh(old(self)@, now),
    {
        let ghost orig = self@;
        let ghost k: int = 0;
        let mut i: usize = 0;
        proof {
            assert(orig.take(0) =~= Seq::<CacheEntryV>::empty());
            assert(orig.skip(0) =~= orig);
            assert(spec_keep_fresh(orig.take(0), now) + orig.skip(0) =~= orig);
        }
        while i < self.cache.len()
            invariant
                self.inv(),
                0 <= k <= orig.len(),
                i == spec_keep_fresh(orig.take(k), now).len(),
                i <= self.cache@.len(),
                self@ == spec_keep_fresh(orig.take(k), now) + orig.skip(k),
            decreases self.cache@.len() - i,
        {
            proof {
                assert(orig.skip(k)[0] == orig[k]);
                assert(self@[i as int] == orig[k]);
                assert(orig.take(k + 1) =~= orig.take(k).push(orig[k]));
                lemma_keep_fresh_snoc(orig.take(k), orig[k], now);
                assert(orig.skip(k).skip(1) =~= orig.skip(k + 1));
            }
            if self.cache[i].expire_on <= now {
                let ghost before = self.cache@;
                let _ = self.cache.remove(i);
                proof {
                    lemma_entries_view_remove(before, i as int);
                    let bv = entries_view(before);
                    assert(self@ == bv.remove(i as int));
                    assert(self@ =~= spec_keep_fresh(orig.take(k + 1), now) + orig.skip(k + 1));
                    assert forall|a: int, c: int| 0 <= a < c < self.cache@.len()
                        implies #[trigger] self.cache@[a]@.key
                            != #[trigger] self.cache@[c]@.key by {
                        if a < i {
                            assert(self.cache@[a] == before[a]);
                        } else {
                            assert(self.cache@[a] == before[a + 1]);
                        }
                        if c < i {
                            assert(self.cache@[c] == before[c]);
                        } else {
                            assert(self.cache@[c] == before[c + 1]);
                        }
                    }
                    assert forall|a: int| 0 <= a < self.cache@.len()
                        implies wf_rq_info((#[trigger] self.cache@[a])@.info)
                            && rq_decoder_info(self.cache@[a].decoder)
                                == self.cache@[a]@.info by {
                        if a < i {
                            assert(self.cache@[a] == before[a]);
                        } else {
                            assert(self.cache@[a] == before[a + 1]);
                        }
                    }
                }
            } else {
                proof {
                    assert(spec_keep_fresh(orig.take(k + 1), now)
                        =~= spec_keep_fresh(orig.take(k), now).push(orig[k]));
                    assert(self@ =~= spec_keep_fresh(orig.take(k + 1), now) + orig.skip(k + 1));
                }
                i += 1;
            }
            proof {
                k = k + 1;
            }
        }
        proof {
            assert(orig.take(orig.len() as int) =~= orig);
            assert(orig.skip(orig.len() as int) =~= Seq::<CacheEntryV>::empty());
            assert(spec_keep_fresh(orig, now) + Seq::<CacheEntryV>::empty()
                =~= spec_keep_fresh(orig, now));
        }
    }
}

/// Whether a chunk's shape matches its transmission parameters: a 4-byte
/// packet ID whose block number is in range, then one symbol of the exact
/// symbol size.
fn chunk_fits(info: &Vec<u8>, chunk: &Vec<u8>) -> (r: bool)
    requires
        info@.len() == 12,
    ensures
        r == (chunk@.len() >= 4
            && (chunk@[0] as int) < rq_info_blocks(info@)
            && chunk@.len() - 4 == rq_info_symbol_size(info@)),
{
    if chunk.len() < 4 {
        return false;
    }
    let ss: usize = (info[6] as usize) * 256 + (info[7] as usize);
    chunk[0] < info[8] && chunk.len() - 4 == ss
}

/// Whether transmission parameters are safe to build a decoder from.
fn check_rq_info(info: &Vec<u8>) -> (r: bool)
    ensures
        r == wf_rq_info(info@),
{
    if info.len() != 12 {
        return false;
    }
    if info[5] != 0 {
        return false;
    }
    let ss: u64 = (info[6] as u64) * 256 + (info[7] as u64);
    let blocks: u64 = info[8] as u64;
    let subs: u64 = (info[9] as u64) * 256 + (info[10] as u64);
    let align: u64 = info[11] as u64;
    if ss == 0 || blocks == 0 || subs == 0 || align == 0 {
        return false;
    }
    let tl: u64 = (info[0] as u64) * 0x100000000
        + (info[1] as u64) * 0x1000000
        + (info[2] as u64) * 0x10000
        + (info[3] as u64) * 0x100
        + (info[4] as u64);
    let kt: u64 = (tl + ss - 1) / ss;
    let per_block: u64 = (kt + blocks - 1) / blocks;
    per_block <= 56403
}

} // verus!
