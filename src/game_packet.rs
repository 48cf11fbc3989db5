//! The little of the game's own packet format that the proxies read: the
//! header byte, block requests and answers, and the map-ready record carried
//! in a server heartbeat. Every other packet is opaque.
use vstd::prelude::*;
use crate::framing::{push_u32_le, read_u32_le, slice_to_vec, u32_from_le, u32_le, lemma_u32_le_round_trip};

verus! {

/// Size of one block of the game's reliable transfer; the last block of a
/// region may be shorter.
pub const TRANSFER_BLOCK_SIZE: u32 = 503;

/// Packet type of a server heartbeat.
pub const SERVER_TO_CLIENT_HEARTBEAT: u8 = 7;

/// Packet type of a request for one transfer block.
pub const TRANSFER_BLOCK_REQUEST: u8 = 12;

/// Packet type of a transfer block.
pub const TRANSFER_BLOCK: u8 = 13;

/// Header flag of a fragmented packet, which the proxies never read.
pub const FRAGMENTED_FLAG: u8 = 0x20;

/// Heartbeat flag saying that a map-ready record follows the flags byte.
pub const MAP_READY_FLAG: u8 = 0x10;

/// Length of the fixed part of a map-ready record.
pub const MAP_READY_FIXED_LEN: usize = 12;

/// Type of the packet `p`, where its header can be read.
pub open spec fn packet_type(p: Seq<u8>) -> Option<u8> {
    if p.len() >= 1 && p[0] & FRAGMENTED_FLAG == 0 {
        Some(p[0] & 0x1f)
    } else {
        None
    }
}

/// The block id that the request packet `p` asks for.
pub open spec fn parse_block_request(p: Seq<u8>) -> Option<u32> {
    if packet_type(p) == Some(TRANSFER_BLOCK_REQUEST) && p.len() == 5 {
        Some(u32_from_le(p.subrange(1, 5)))
    } else {
        None
    }
}

/// The packet that requests block `id`.
pub open spec fn block_request_packet(id: u32) -> Seq<u8> {
    seq![TRANSFER_BLOCK_REQUEST] + u32_le(id)
}

/// The block id and data of the transfer-block packet `p`.
pub open spec fn parse_transfer_block(p: Seq<u8>) -> Option<(u32, Seq<u8>)> {
    if packet_type(p) == Some(TRANSFER_BLOCK) && p.len() >= 5 {
        Some((u32_from_le(p.subrange(1, 5)), p.subrange(5, p.len() as int)))
    } else {
        None
    }
}

/// The packet that carries block `id` with `data`.
pub open spec fn transfer_block_packet(id: u32, data: Seq<u8>) -> Seq<u8> {
    seq![TRANSFER_BLOCK] + u32_le(id) + data
}

/// Reads the header byte of a packet: its type, or `None` for an empty or a
/// fragmented packet.
pub fn decode_packet_type(p: &[u8]) -> (r: Option<u8>)
    ensures
        r == packet_type(p@),
{
    if p.len() >= 1 && p[0] & FRAGMENTED_FLAG == 0 {
        Some(p[0] & 0x1f)
    } else {
        None
    }
}

/// Reads a block request.
pub fn decode_block_request(p: &[u8]) -> (r: Option<u32>)
    ensures
        r == parse_block_request(p@),
{
    if decode_packet_type(p) == Some(TRANSFER_BLOCK_REQUEST) && p.len() == 5 {
        let id = read_u32_le(p, 1);
        Some(id)
    } else {
        None
    }
}

/// Encodes the request for block `id`.
pub fn encode_block_request(id: u32) -> (r: Vec<u8>)
    ensures
        r@ == block_request_packet(id),
{
    let mut r: Vec<u8> = Vec::new();
    r.push(TRANSFER_BLOCK_REQUEST);
    push_u32_le(id, &mut r);
    assert(r@ =~= block_request_packet(id));
    r
}

/// One block of the game's reliable transfer.
pub struct TransferBlockPacket {
    pub block_id: u32,
    pub data: Vec<u8>,
}

impl TransferBlockPacket {
    /// Reads a transfer-block packet.
    pub fn decode(p: &[u8]) -> (r: Option<TransferBlockPacket>)
        ensures
            r is None <==> parse_transfer_block(p@) is None,
            r matches Some(b) ==> parse_transfer_block(p@) == Some((b.block_id, b.data@)),
    {
        if decode_packet_type(p) == Some(TRANSFER_BLOCK) && p.len() >= 5 {
            let block_id = read_u32_le(p, 1);
            let data = slice_to_vec(p, 5, p.len());
            Some(TransferBlockPacket { block_id, data })
        } else {
            None
        }
    }

    /// The whole packet, header included.
    pub fn encode_full_packet(&self) -> (r: Vec<u8>)
        ensures
            r@ == transfer_block_packet(self.block_id, self.data@),
    {
        let mut r: Vec<u8> = Vec::new();
        r.push(TRANSFER_BLOCK);
        push_u32_le(self.block_id, &mut r);
        let ghost mid = r@;
        let mut i: usize = 0;
        while i < self.data.len()
            invariant
                i <= self.data@.len(),
                r@ == mid + self.data@.subrange(0, i as int),
            decreases self.data@.len() - i,
        {
            r.push(self.data[i]);
            i = i + 1;
            assert(r@ =~= mid + self.data@.subrange(0, i as int));
        }
        assert(self.data@.subrange(0, i as int) =~= self.data@);
        assert(r@ =~= transfer_block_packet(self.block_id, self.data@));
        r
    }
}

/// The game's announcement that a world is ready: its size, the size of the
/// auxiliary data that follows it, its CRC-32, and fields the proxies keep
/// verbatim.
pub struct MapReadyForDownloadData {
    pub world_size: u32,
    pub aux_size: u32,
    pub world_crc: u32,
    pub extra: Vec<u8>,
}

/// Encoding of a map-ready record.
pub open spec fn map_ready_bytes(world_size: u32, aux_size: u32, world_crc: u32, extra: Seq<u8>) -> Seq<
    u8,
> {
    u32_le(world_size) + u32_le(aux_size) + u32_le(world_crc) + extra
}

/// The map-ready record in the server heartbeat `p`: a heartbeat whose flags
/// byte has the map-ready flag holds the record from the next byte to its
/// end.
pub open spec fn parse_map_ready(p: Seq<u8>) -> Option<(u32, u32, u32, Seq<u8>)> {
    if packet_type(p) == Some(SERVER_TO_CLIENT_HEARTBEAT) && p.len() >= 2 + MAP_READY_FIXED_LEN
        && p[1] & MAP_READY_FLAG != 0 {
        Some(
            (
                u32_from_le(p.subrange(2, 6)),
                u32_from_le(p.subrange(6, 10)),
                u32_from_le(p.subrange(10, 14)),
                p.subrange(14, p.len() as int),
            ),
        )
    } else {
        None
    }
}

impl MapReadyForDownloadData {
    pub open spec fn view_bytes(&self) -> Seq<u8> {
        map_ready_bytes(self.world_size, self.aux_size, self.world_crc, self.extra@)
    }

    /// Looks for a map-ready record in a server heartbeat.
    pub fn try_decode_from_heartbeat(p: &[u8]) -> (r: Option<MapReadyForDownloadData>)
        ensures
            r is None <==> parse_map_ready(p@) is None,
            r matches Some(m) ==> parse_map_ready(p@) == Some(
                (m.world_size, m.aux_size, m.world_crc, m.extra@),
            ),
    {
        if decode_packet_type(p) == Some(SERVER_TO_CLIENT_HEARTBEAT) && p.len() >= 2
            + MAP_READY_FIXED_LEN && p[1] & MAP_READY_FLAG != 0 {
            let world_size = read_u32_le(p, 2);
            let aux_size = read_u32_le(p, 6);
            let world_crc = read_u32_le(p, 10);
            let extra = slice_to_vec(p, 14, p.len());
            Some(MapReadyForDownloadData { world_size, aux_size, world_crc, extra })
        } else {
            None
        }
    }

    /// Bytes of the record.
    pub fn encode(&self, out: &mut Vec<u8>)
        ensures
            final(out)@ == old(out)@ + self.view_bytes(),
    {
        push_u32_le(self.world_size, out);
        push_u32_le(self.aux_size, out);
        push_u32_le(self.world_crc, out);
        let ghost mid = out@;
        let mut i: usize = 0;
        while i < self.extra.len()
            invariant
                i <= self.extra@.len(),
                out@ == mid + self.extra@.subrange(0, i as int),
            decreases self.extra@.len() - i,
        {
            out.push(self.extra[i]);
            i = i + 1;
            assert(out@ =~= mid + self.extra@.subrange(0, i as int));
        }
        assert(self.extra@.subrange(0, i as int) =~= self.extra@);
        assert(out@ =~= old(out)@ + self.view_bytes());
    }
}

/// A block request reads back as the block id it asks for.
pub proof fn lemma_block_request_round_trip(id: u32)
    ensures
        parse_block_request(block_request_packet(id)) == Some(id),
{
    lemma_u32_le_round_trip(id);
    let p = block_request_packet(id);
    assert(TRANSFER_BLOCK_REQUEST & FRAGMENTED_FLAG == 0 && TRANSFER_BLOCK_REQUEST & 0x1f
        == TRANSFER_BLOCK_REQUEST) by (bit_vector);
    assert(p.subrange(1, 5) =~= u32_le(id));
}

/// A transfer block reads back as its id and data.
pub proof fn lemma_transfer_block_round_trip(id: u32, data: Seq<u8>)
    ensures
        parse_transfer_block(transfer_block_packet(id, data)) == Some((id, data)),
{
    lemma_u32_le_round_trip(id);
    let p = transfer_block_packet(id, data);
    assert(TRANSFER_BLOCK & FRAGMENTED_FLAG == 0 && TRANSFER_BLOCK & 0x1f == TRANSFER_BLOCK)
        by (bit_vector);
    assert(p.subrange(1, 5) =~= u32_le(id));
    assert(p.subrange(5, p.len() as int) =~= data);
}

} // verus!
