//! Broadcast chunking: turning one broadcast payload into many datagram
//! sized chunks with a fountain code.
//!
//! Each chunk's gossip frame is `uid (32) || transmission_info (12) ||
//! encoded_symbol`, where `uid` is the BLAKE2s digest of the original
//! gossip frame.

use vstd::prelude::*;

use crate::encoding::{
    enc_broadcast, read_bytes, push_bytes, BroadcastPayload, BroadcastPayloadV, Message, MessageV,
};
use crate::hashing::{blake2s, blake2s_of};
use crate::fountain::{
    rq_encode, rq_packets_of, rq_transmission_info_of, RQ_MAX_DATA,
};

verus! {

impl BroadcastPayload {
    /// The 32-byte message UID: the BLAKE2s digest of the gossip frame
    /// (the payload's wire bytes without the height byte).
    pub fn generate_uid(&self) -> (r: Vec<u8>)
        ensures
            r@ == blake2s_of(self@.frame),
            r@.len() == 32,
    {
        let bytes = self.bytes();
        let tail = read_bytes(&bytes, 1, bytes.len() - 1);
        proof {
            assert(tail@ =~= self@.frame);
        }
        blake2s(&tail)
    }
}

/// A view of a broadcast payload whose gossip frame is one FEC chunk.
pub struct ChunkedPayload<'a>(pub &'a BroadcastPayload);

/// A gossip frame large enough to carry a chunk: UID and transmission
/// parameters at least.
pub open spec fn wf_chunk(frame: Seq<u8>) -> bool {
    frame.len() >= 44
}

/// The cache key of a chunk: the digest of its UID and transmission
/// parameters together, so corrupted parameters open a separate cache slot
/// instead of poisoning the UID's.
pub open spec fn spec_safe_uid(frame: Seq<u8>) -> Seq<u8> {
    blake2s_of(frame.subrange(0, 44))
}

impl<'a> ChunkedPayload<'a> {
    /// The 32-byte message UID at the front of the frame.
    pub fn uid(&self) -> (r: Vec<u8>)
        requires
            wf_chunk(self.0@.frame),
        ensures
            r@ == self.0@.frame.subrange(0, 32),
    {
        read_bytes(&self.0.gossip_frame, 0, 32)
    }

    /// The 12 serialized transmission-parameter bytes after the UID.
    pub fn transmission_info(&self) -> (r: Vec<u8>)
        requires
            wf_chunk(self.0@.frame),
        ensures
            r@ == self.0@.frame.subrange(32, 44),
    {
        read_bytes(&self.0.gossip_frame, 32, 12)
    }

    /// The encoded symbol: everything after the transmission parameters.
    pub fn encoded_chunk(&self) -> (r: Vec<u8>)
        requires
            wf_chunk(self.0@.frame),
        ensures
            r@ == self.0@.frame.subrange(44, self.0@.frame.len() as int),
    {
        read_bytes(&self.0.gossip_frame, 44, self.0.gossip_frame.len() - 44)
    }

    /// The chunk's cache key: `BLAKE2s(uid || transmission_info)`.
    pub fn safe_uid(&self) -> (r: Vec<u8>)
        requires
            wf_chunk(self.0@.frame),
        ensures
            r@ == spec_safe_uid(self.0@.frame),
            r@.len() == 32,
    {
        let head = read_bytes(&self.0.gossip_frame, 0, 44);
        blake2s(&head)
    }
}

/// Tuning of the chunk encoder. The redundancy is kept in whole percent.
#[derive(Clone, Copy, Debug)]
pub struct RaptorQEncoderConf {
    pub min_repair_packets_per_block: u32,
    pub mtu: u16,
    pub fec_redundancy_percent: u8,
}

/// A usable encoder configuration: chunks must have room for a symbol.
pub open spec fn wf_encoder_conf(c: RaptorQEncoderConf) -> bool {
    c.mtu >= 1
}

impl Default for RaptorQEncoderConf {
    /// The default encoder tuning: at least 5 repair packets per block, a
    /// 1300-byte MTU, 15 percent redundancy.
    fn default() -> (r: RaptorQEncoderConf)
        ensures
            r.min_repair_packets_per_block == 5,
            r.mtu == 1300,
            r.fec_redundancy_percent == 15,
    {
        RaptorQEncoderConf { min_repair_packets_per_block: 5, mtu: 1300, fec_redundancy_percent: 15 }
    }
}

/// The chunk encoder: splits each broadcast into fountain-coded chunks and
/// leaves every other message kind alone.
pub struct RaptorQEncoder {
    pub conf: RaptorQEncoderConf,
}

/// How many repair packets a frame of `len` bytes gets:
/// `max(min_repair_packets_per_block, ceil(len * redundancy / mtu))`,
/// capped at the most the fountain code can number.
pub open spec fn spec_repair_count(len: int, c: RaptorQEncoderConf) -> int {
    let ceil = (len * c.fec_redundancy_percent + (100 * c.mtu) - 1) / (100 * c.mtu);
    let wanted = if ceil < c.min_repair_packets_per_block {
        c.min_repair_packets_per_block as int
    } else {
        ceil
    };
    if wanted > crate::fountain::RQ_MAX_REPAIR {
        crate::fountain::RQ_MAX_REPAIR as int
    } else {
        wanted
    }
}

/// The gossip frame of one emitted chunk.
pub open spec fn spec_chunk_frame(orig: Seq<u8>, mtu: u16, repair: u32, i: int) -> Seq<u8> {
    blake2s_of(orig) + rq_transmission_info_of(orig, mtu) + rq_packets_of(orig, mtu, repair)[i]
}

impl RaptorQEncoder {
    /// The default encoder tuning.
    pub fn default_configuration() -> (r: RaptorQEncoderConf)
        ensures
            r.min_repair_packets_per_block == 5,
            r.mtu == 1300,
            r.fec_redundancy_percent == 15,
    {
        RaptorQEncoderConf::default()
    }

    /// An encoder with the given tuning.
    pub fn configure(conf: &RaptorQEncoderConf) -> (r: RaptorQEncoder)
        ensures
            r.conf == *conf,
    {
        RaptorQEncoder { conf: *conf }
    }

    /// Chunk a broadcast into `source + repair` fountain-coded copies, one
    /// message per encoded symbol, each carrying the original header and
    /// height. Every other message kind passes through unchanged.
    pub fn encode(&self, msg: Message) -> (r: Vec<Message>)
        requires
            wf_encoder_conf(self.conf),
            match msg@ {
                MessageV::Broadcast(_h, bp) => 1 <= bp.frame.len() <= RQ_MAX_DATA,
                _ => true,
            },
        ensures
            match msg@ {
                MessageV::Broadcast(h, bp) => {
                    let repair = spec_repair_count(bp.frame.len() as int, self.conf) as u32;
                    &&& r@.len() == rq_packets_of(bp.frame, self.conf.mtu, repair).len()
                    &&& r@.len() == crate::fountain::rq_packet_count(
                        bp.frame.len() as int,
                        rq_transmission_info_of(bp.frame, self.conf.mtu),
                        repair as int,
                    )
                    &&& spec_repair_count(bp.frame.len() as int, self.conf) >= 1
                        ==> r@.len() > (bp.frame.len()
                            + crate::fountain::rq_info_symbol_size(
                                rq_transmission_info_of(bp.frame, self.conf.mtu),
                            ) - 1) / crate::fountain::rq_info_symbol_size(
                            rq_transmission_info_of(bp.frame, self.conf.mtu),
                        )
                    &&& forall|i: int| 0 <= i < r@.len()
                        ==> (#[trigger] r@[i])@ == MessageV::Broadcast(
                            h,
                            BroadcastPayloadV {
                                height: bp.height,
                                frame: spec_chunk_frame(bp.frame, self.conf.mtu, repair, i),
                            },
                        )
                },
                _ => r@.len() == 1 && r@[0]@ == msg@,
            },
    {
        match msg {
            Message::Broadcast(header, payload) => {
                let uid = payload.generate_uid();
                let repair = self.repair_count(payload.gossip_frame.len());
                let (info, packets) = rq_encode(&payload.gossip_frame, self.conf.mtu, repair);
                proof {
                    if repair >= 1 {
                        crate::fountain::lemma_packet_count_exceeds_source(
                            payload@.frame.len() as int,
                            info@,
                            repair as int,
                        );
                    }
                }
                let mut base: Vec<u8> = Vec::new();
                push_bytes(&mut base, &uid);
                push_bytes(&mut base, &info);
                proof {
                    assert(base@ =~= blake2s_of(payload@.frame)
                        + rq_transmission_info_of(payload@.frame, self.conf.mtu));
                }
                let mut out: Vec<Message> = Vec::new();
                let mut i: usize = 0;
                while i < packets.len()
                    invariant
                        i <= packets@.len(),
                        base@ == blake2s_of(payload@.frame)
                            + rq_transmission_info_of(payload@.frame, self.conf.mtu),
                        packets.deep_view() == rq_packets_of(
                            payload@.frame,
                            self.conf.mtu,
                            repair,
                        ),
                        out@.len() == i,
                        forall|a: int| 0 <= a < i ==> (#[trigger] out@[a])@
                            == MessageV::Broadcast(
                                header@,
                                BroadcastPayloadV {
                                    height: payload@.height,
                                    frame: spec_chunk_frame(
                                        payload@.frame,
                                        self.conf.mtu,
                                        repair,
                                        a,
                                    ),
                                },
                            ),
                    decreases packets@.len() - i,
                {
                    let mut frame = crate::key::clone_bytes(&base);
                    push_bytes(&mut frame, &packets[i]);
                    proof {
                        assert(packets.deep_view()[i as int] == packets@[i as int]@);
                        assert(frame@ =~= spec_chunk_frame(
                            payload@.frame,
                            self.conf.mtu,
                            repair,
                            i as int,
                        ));
                    }
                    let ghost os = out@;
                    let m = Message::Broadcast(
                        header.duplicate(),
                        BroadcastPayload { height: payload.height, gossip_frame: frame },
                    );
                    out.push(m);
                    proof {
                        assert forall|a: int| 0 <= a < i + 1
                            implies (#[trigger] out@[a])@ == MessageV::Broadcast(
                                header@,
                                BroadcastPayloadV {
                                    height: payload@.height,
                                    frame: spec_chunk_frame(
                                        payload@.frame,
                                        self.conf.mtu,
                                        repair,
                                        a,
                                    ),
                                },
                            ) by {
                            if a < i {
                                assert(out@[a] == os[a]);
                            }
                        }
                    }
                    i += 1;
                }
                proof {
                    assert(rq_packets_of(payload@.frame, self.conf.mtu, repair).len()
                        == packets.deep_view().len());
                    assert(packets.deep_view().len() == packets@.len());
                }
                out
            }
            other => {
                let mut out: Vec<Message> = Vec::new();
                out.push(other);
                out
            }
        }
    }

    /// `max(min_repair_packets_per_block, ceil(len * redundancy / mtu))`,
    /// capped at `RQ_MAX_REPAIR`.
    fn repair_count(&self, len: usize) -> (r: u32)
        requires
            wf_encoder_conf(self.conf),
            len <= RQ_MAX_DATA,
        ensures
            r == spec_repair_count(len as int, self.conf),
            r <= crate::fountain::RQ_MAX_REPAIR,
    {
        proof {
            assert((len as int) * (self.conf.fec_redundancy_percent as int)
                <= 2550000000int) by (nonlinear_arith)
                requires
                    len <= 10000000,
                    self.conf.fec_redundancy_percent <= 255,
            ;
        }
        let num: u64 = (len as u64) * (self.conf.fec_redundancy_percent as u64);
        let denom: u64 = 100u64 * (self.conf.mtu as u64);
        let ceil: u64 = (num + denom - 1) / denom;
        proof {
            assert(ceil <= num + denom - 1);
        }
        let min = self.conf.min_repair_packets_per_block;
        let wanted: u64 = if ceil < min as u64 {
            min as u64
        } else {
            ceil
        };
        if wanted > crate::fountain::RQ_MAX_REPAIR as u64 {
            crate::fountain::RQ_MAX_REPAIR
        } else {
            wanted as u32
        }
    }
}

} // verus!
