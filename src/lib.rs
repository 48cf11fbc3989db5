//! Deduplicating proxy pair for a game's world-transfer protocol: the game
//! packets it recognises, the tunnel framing and messages, the per-peer
//! state machines of both sides, content-defined chunking and
//! deduplication of the world, its reconstruction with a forced CRC-32, and
//! the size-bounded chunk cache, each stated and proved with Verus.
use vstd::prelude::*;

pub mod archive;
pub mod cache;
pub mod chunker;
pub mod client_state;
pub mod crc;
pub mod dedup;
pub mod framing;
pub mod game_packet;
pub mod messages;
pub mod receiver;
pub mod rev_crc;
pub mod server_state;

verus! {

/// Where a packet that a per-peer state machine emits is to be sent.
#[derive(Debug, PartialEq, Eq, Structural, Clone, Copy)]
pub enum PacketDirection {
    ToClient,
    ToServer,
}

/// Emitted packets as byte sequences with their direction.
pub open spec fn packets_view(s: Seq<(Vec<u8>, PacketDirection)>) -> Seq<(Seq<u8>, PacketDirection)> {
    s.map_values(|p: (Vec<u8>, PacketDirection)| (p.0@, p.1))
}

pub proof fn lemma_packets_view_push(s: Seq<(Vec<u8>, PacketDirection)>, p: (Vec<u8>, PacketDirection))
    ensures
        packets_view(s.push(p)) == packets_view(s).push((p.0@, p.1)),
{
    assert(packets_view(s.push(p)) =~= packets_view(s).push((p.0@, p.1)));
}

} // verus!
