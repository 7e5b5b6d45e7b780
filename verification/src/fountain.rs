//! The fountain code this crate relies on: RaptorQ, through the `raptorq`
//! crate.
//!
//! Encoding is deterministic in the payload, the packet size and the repair
//! count, so its two results are given names (`rq_transmission_info_of`,
//! `rq_packets_of`). A decoder accumulates packets across calls; nothing is
//! assumed about when it completes, only that it keeps the transmission
//! parameters it was built with (`rq_decoder_info`).

use vstd::prelude::*;

verus! {

/// Largest payload handed to the encoder; keeps the `raptorq` crate's
/// internal block arithmetic within its own asserted limits.
pub const RQ_MAX_DATA: usize = 10000000;

/// Most repair packets a block may be asked for: encoding-symbol IDs are
/// 24-bit and repair IDs are numbered upward from the block's source-symbol
/// count, which stays at or below 56403.
pub const RQ_MAX_REPAIR: u32 = 16720812;

/// The serialized transmission parameters the `raptorq` encoder derives
/// from a payload and a packet size.
pub uninterp spec fn rq_transmission_info_of(data: Seq<u8>, mtu: u16) -> Seq<u8>;

/// The serialized encoded packets (source then repair) the `raptorq`
/// encoder produces for a payload, a packet size and a repair count.
pub uninterp spec fn rq_packets_of(data: Seq<u8>, mtu: u16, repair: u32) -> Seq<Seq<u8>>;

/// The transmission parameters a decoder was built with.
pub uninterp spec fn rq_decoder_info(d: raptorq::Decoder) -> Seq<u8>;

/// The serialized packets a decoder has been fed so far, in order. The
/// order is kept: with an inconsistent (corrupted) packet set, which
/// sufficient subset the solver meets first can depend on it.
pub uninterp spec fn rq_decoder_fed(d: raptorq::Decoder) -> Seq<Seq<u8>>;

/// Whether a decoder built from `info` has reassembled its payload after
/// being fed `fed`. Decoding holds no randomness and reads nothing but its
/// packets, so this is a function of the two.
pub uninterp spec fn rq_completes(info: Seq<u8>, fed: Seq<Seq<u8>>) -> bool;

/// The payload such a decoder hands back once it completes.
pub uninterp spec fn rq_payload_of(info: Seq<u8>, fed: Seq<Seq<u8>>) -> Seq<u8>;

#[verifier::external_type_specification]
#[verifier::external_body]
pub struct ExDecoder(raptorq::Decoder);

/// The 40-bit transfer length held in serialized transmission parameters.
pub open spec fn rq_info_transfer_len(s: Seq<u8>) -> int {
    s[0] * 0x100000000 + s[1] * 0x1000000 + s[2] * 0x10000 + s[3] * 0x100 + s[4]
}

/// The symbol size held in serialized transmission parameters.
pub open spec fn rq_info_symbol_size(s: Seq<u8>) -> int {
    s[6] * 0x100 + s[7]
}

/// The source-block count held in serialized transmission parameters.
pub open spec fn rq_info_blocks(s: Seq<u8>) -> int {
    s[8] as int
}

/// Transmission parameters a decoder can safely be built from: 12 bytes
/// whose symbol size, block count, sub-block count and alignment are
/// nonzero, whose reserved byte is zero (as the encoder serializes it, so
/// the decoder's parameters re-serialize to exactly these bytes), and
/// whose per-block symbol count stays within the RaptorQ limit of 56403
/// source symbols.
pub open spec fn wf_rq_info(s: Seq<u8>) -> bool {
    &&& s.len() == 12
    &&& s[5] == 0
    &&& rq_info_symbol_size(s) > 0
    &&& rq_info_blocks(s) > 0
    &&& s[9] * 0x100 + s[10] > 0
    &&& s[11] > 0
    &&& {
        let kt = (rq_info_transfer_len(s) + rq_info_symbol_size(s) - 1)
            / rq_info_symbol_size(s);
        (kt + rq_info_blocks(s) - 1) / rq_info_blocks(s) <= 56403
    }
}

/// How many packets the encoder emits for a payload of `len` bytes under
/// transmission parameters `info`: one packet per source symbol, plus
/// `repair` repair packets for each source block.
pub open spec fn rq_packet_count(len: int, info: Seq<u8>, repair: int) -> int {
    (len + rq_info_symbol_size(info) - 1) / rq_info_symbol_size(info)
        + rq_info_blocks(info) * repair
}

/// With at least one repair packet per block there are strictly more
/// packets than source symbols.
pub proof fn lemma_packet_count_exceeds_source(len: int, info: Seq<u8>, repair: int)
    requires
        wf_rq_info(info),
        repair >= 1,
    ensures
        rq_packet_count(len, info, repair)
            > (len + rq_info_symbol_size(info) - 1) / rq_info_symbol_size(info),
{
    assert(rq_info_blocks(info) * repair >= 1) by (nonlinear_arith)
        requires
            rq_info_blocks(info) >= 1,
            repair >= 1,
    ;
}

/// Relies on `raptorq::Encoder::with_defaults`, `Encoder::get_config`
/// (serialized to its documented 12 bytes) and
/// `Encoder::get_encoded_packets` (per source block, one packet per source
/// symbol and then `repair` repair packets): all are pure functions of the
/// payload, the packet size and the repair count. An empty payload is
/// excluded (the crate's block-parameter arithmetic divides by the block
/// count, zero for a zero-length transfer), and the repair count is capped
/// (the crate asserts every encoding-symbol ID below 2^24, and repair IDs
/// are numbered upward from the block's source-symbol count). The derived
/// parameters are well formed and carry the payload's length.
#[verifier::external_body]
pub fn rq_encode(data: &Vec<u8>, mtu: u16, repair: u32) -> (r: (Vec<u8>, Vec<Vec<u8>>))
    requires
        mtu >= 1,
        1 <= data@.len() <= RQ_MAX_DATA,
        repair <= RQ_MAX_REPAIR,
    ensures
        r.0@ == rq_transmission_info_of(data@, mtu),
        r.0@.len() == 12,
        wf_rq_info(r.0@),
        rq_info_transfer_len(r.0@) == data@.len(),
        r.1.deep_view() == rq_packets_of(data@, mtu, repair),
        r.1@.len() == rq_packet_count(data@.len() as int, r.0@, repair as int),
{
    let encoder = raptorq::Encoder::with_defaults(data.as_slice(), mtu);
    let info = encoder.get_config().serialize().to_vec();
    let packets = encoder
        .get_encoded_packets(repair)
        .iter()
        .map(|packet| packet.serialize())
        .collect();
    (info, packets)
}

/// Relies on `raptorq::Decoder::new` with
/// `ObjectTransmissionInformation::deserialize`: builds an empty decoder
/// for the given transmission parameters.
#[verifier::external_body]
pub fn rq_new_decoder(info: &Vec<u8>) -> (r: raptorq::Decoder)
    requires
        wf_rq_info(info@),
    ensures
        rq_decoder_info(r) == info@,
        rq_decoder_fed(r) == Seq::<Seq<u8>>::empty(),
{
    let mut arr = [0u8; 12];
    arr.copy_from_slice(info.as_slice());
    raptorq::Decoder::new(raptorq::ObjectTransmissionInformation::deserialize(&arr))
}

/// Relies on `raptorq::Decoder::decode` (fed through
/// `EncodingPacket::deserialize`): accumulates one packet, retries the
/// reassembly, and hands back the payload once every block has enough. The
/// requires keep to the packet shape the crate indexes by: a 4-byte ID
/// whose block number stays below the decoder's block count, and a symbol
/// of the exact symbol size. The decoder is deterministic in its
/// parameters and the packets fed so far, so completion and the completed
/// payload carry the names above; the payload is truncated by the crate to
/// exactly the transfer length of the parameters.
#[verifier::external_body]
pub fn rq_decode(dec: &mut raptorq::Decoder, chunk: &Vec<u8>) -> (r: Option<Vec<u8>>)
    requires
        wf_rq_info(rq_decoder_info(*old(dec))),
        chunk@.len() >= 4,
        (chunk@[0] as int) < rq_info_blocks(rq_decoder_info(*old(dec))),
        chunk@.len() - 4 == rq_info_symbol_size(rq_decoder_info(*old(dec))),
    ensures
        rq_decoder_info(*final(dec)) == rq_decoder_info(*old(dec)),
        rq_decoder_fed(*final(dec)) == rq_decoder_fed(*old(dec)).push(chunk@),
        r is Some <==> rq_completes(
            rq_decoder_info(*old(dec)),
            rq_decoder_fed(*old(dec)).push(chunk@),
        ),
        r matches Some(p) ==> p@ == rq_payload_of(
            rq_decoder_info(*old(dec)),
            rq_decoder_fed(*old(dec)).push(chunk@),
        ) && p@.len() == rq_info_transfer_len(rq_decoder_info(*old(dec))),
{
    dec.decode(raptorq::EncodingPacket::deserialize(chunk.as_slice()))
}

} // verus!
