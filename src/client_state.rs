//! The client-side per-peer state: serves the game client's block requests
//! from the world that is being rebuilt locally, and forwards every other
//! packet to the server side.
use vstd::prelude::*;
use crate::{PacketDirection, packets_view, lemma_packets_view_push};
use crate::game_packet::{
    TRANSFER_BLOCK_SIZE, TransferBlockPacket, decode_block_request, parse_block_request,
    transfer_block_packet,
};
use crate::framing::slice_to_vec;

verus! {

/// Milliseconds after the last block request, once the world is complete,
/// after which the local copy of the world is freed.
pub const WORLD_DATA_TIMEOUT_MS: u64 = 60_000;

/// The bytes of block `id` of `world`, where the world holds all of it.
pub open spec fn block_of(world: Seq<u8>, id: u32) -> Option<Seq<u8>> {
    let off = id as int * TRANSFER_BLOCK_SIZE as int;
    if off + TRANSFER_BLOCK_SIZE <= world.len() {
        Some(world.subrange(off, off + TRANSFER_BLOCK_SIZE))
    } else {
        None
    }
}

/// Answers to those of the `pending` requests that `world` can serve, in order.
pub open spec fn served_answers(pending: Seq<u32>, world: Seq<u8>) -> Seq<(Seq<u8>, PacketDirection)>
    decreases pending.len(),
{
    if pending.len() == 0 {
        seq![]
    } else {
        let prev = served_answers(pending.drop_last(), world);
        match block_of(world, pending.last()) {
            Some(b) => prev.push((transfer_block_packet(pending.last(), b), PacketDirection::ToClient)),
            None => prev,
        }
    }
}

/// Those of the `pending` requests that `world` cannot serve yet, in order.
pub open spec fn unserved(pending: Seq<u32>, world: Seq<u8>) -> Seq<u32>
    decreases pending.len(),
{
    if pending.len() == 0 {
        seq![]
    } else {
        let prev = unserved(pending.drop_last(), world);
        match block_of(world, pending.last()) {
            Some(_) => prev,
            None => prev.push(pending.last()),
        }
    }
}

/// The ids ascend strictly.
pub open spec fn ascending(s: Seq<u32>) -> bool {
    forall|i: int, j: int| 0 <= i < j < s.len() ==> s[i] < s[j]
}

/// `after` is `before` with `id` added: ascending, holding exactly the ids of
/// `before` and `id`.
pub open spec fn added_pending(before: Seq<u32>, after: Seq<u32>, id: u32) -> bool {
    &&& ascending(after)
    &&& forall|x: u32| after.contains(x) <==> (before.contains(x) || x == id)
}

pub struct ClientProxyState {
    pub world_data: Vec<u8>,
    pub last_block_request: u64,
    pub pending_requests: Vec<u32>,
    pub world_data_done: bool,
}

impl ClientProxyState {
    /// Well-formed: the pending block requests ascend, each once.
    pub open spec fn wf(&self) -> bool {
        ascending(self.pending_requests@)
    }

    pub fn new(now: u64) -> (r: ClientProxyState)
        ensures
            r.wf(),
            r.world_data@.len() == 0,
            r.last_block_request == now,
            r.pending_requests@.len() == 0,
            !r.world_data_done,
    {
        ClientProxyState {
            world_data: Vec::new(),
            last_block_request: now,
            pending_requests: Vec::new(),
            world_data_done: false,
        }
    }

    /// The block `requested_block_id`, where the local world already holds all
    /// of it.
    pub fn try_fulfill_block_request(&self, requested_block_id: u32) -> (r: Option<
        TransferBlockPacket,
    >)
        ensures
            r is None <==> block_of(self.world_data@, requested_block_id) is None,
            r matches Some(b) ==> b.block_id == requested_block_id && block_of(
                self.world_data@,
                requested_block_id,
            ) == Some(b.data@),
    {
        assert(requested_block_id as u64 * 503 <= 0xffff_ffffu64 * 503) by (nonlinear_arith);
        let offset: u64 = requested_block_id as u64 * TRANSFER_BLOCK_SIZE as u64;
        if offset + (TRANSFER_BLOCK_SIZE as u64) <= self.world_data.len() as u64 {
            let start = offset as usize;
            let data = slice_to_vec(
                self.world_data.as_slice(),
                start,
                start + TRANSFER_BLOCK_SIZE as usize,
            );
            Some(TransferBlockPacket { block_id: requested_block_id, data })
        } else {
            None
        }
    }

    /// Handles a packet from the game client at time `now` (milliseconds):
    /// a block request is answered from the local world or kept pending;
    /// anything else goes to the server side.
    pub fn on_packet_from_client(
        &mut self,
        packet_data: Vec<u8>,
        now: u64,
        out_packets: &mut Vec<(Vec<u8>, PacketDirection)>,
    )
        requires
            old(self).wf(),
        ensures
            final(self).wf(),
            final(self).world_data_done == old(self).world_data_done,
            match parse_block_request(packet_data@) {
                Some(id) => {
                    &&& final(self).world_data@ == old(self).world_data@
                    &&& final(self).last_block_request == now
                    &&& match block_of(old(self).world_data@, id) {
                        Some(b) => {
                            &&& packets_view(final(out_packets)@) == packets_view(old(out_packets)@).push(
                                (transfer_block_packet(id, b), PacketDirection::ToClient),
                            )
                            &&& final(self).pending_requests@ == old(self).pending_requests@
                        },
                        None => {
                            &&& final(out_packets)@ == old(out_packets)@
                            &&& added_pending(old(self).pending_requests@, final(self).pending_requests@, id)
                        },
                    }
                },
                None => {
                    &&& packets_view(final(out_packets)@) == packets_view(old(out_packets)@).push(
                        (packet_data@, PacketDirection::ToServer),
                    )
                    &&& final(self).pending_requests@ == old(self).pending_requests@
                    &&& final(self).last_block_request == old(self).last_block_request
                    &&& final(self).world_data@ == if old(self).world_data@.len() > 0
                        && old(self).world_data_done && now >= old(self).last_block_request && now
                        - old(self).last_block_request > WORLD_DATA_TIMEOUT_MS {
                        Seq::<u8>::empty()
                    } else {
                        old(self).world_data@
                    }
                },
            },
    {
        if let Some(block_id) = decode_block_request(packet_data.as_slice()) {
            match self.try_fulfill_block_request(block_id) {
                Some(response) => {
                    let p = response.encode_full_packet();
                    proof {
                        lemma_packets_view_push(out_packets@, (p, PacketDirection::ToClient));
                    }
                    out_packets.push((p, PacketDirection::ToClient));
                },
                None => {
                    insert_ascending(&mut self.pending_requests, block_id);
                },
            }
            self.last_block_request = now;
            return;
        }
        if self.world_data.len() > 0 && self.world_data_done && now >= self.last_block_request && now
            - self.last_block_request > WORLD_DATA_TIMEOUT_MS {
            self.world_data = Vec::new();
        }
        proof {
            lemma_packets_view_push(out_packets@, (packet_data, PacketDirection::ToServer));
        }
        out_packets.push((packet_data, PacketDirection::ToServer));
    }

    /// Takes the next piece of the rebuilt world (`None`: the world is
    /// complete) at time `now`, and answers the pending requests that it makes
    /// servable.
    pub fn on_new_world_data(
        &mut self,
        new_data: Option<Vec<u8>>,
        now: u64,
        out_packets: &mut Vec<(Vec<u8>, PacketDirection)>,
    )
        requires
            old(self).wf(),
            new_data matches Some(d) ==> old(self).world_data@.len() + d@.len() <= usize::MAX,
        ensures
            final(self).wf(),
            final(self).last_block_request == now,
            match new_data {
                None => {
                    &&& final(self).world_data_done
                    &&& final(self).world_data@ == old(self).world_data@
                    &&& final(self).pending_requests@ == old(self).pending_requests@
                    &&& final(out_packets)@ == old(out_packets)@
                },
                Some(d) => {
                    &&& final(self).world_data_done == old(self).world_data_done
                    &&& final(self).world_data@ == old(self).world_data@ + d@
                    &&& final(self).pending_requests@ == unserved(
                        old(self).pending_requests@,
                        final(self).world_data@,
                    )
                    &&& packets_view(final(out_packets)@) == packets_view(old(out_packets)@)
                        + served_answers(old(self).pending_requests@, final(self).world_data@)
                },
            },
    {
        match new_data {
            None => {
                self.world_data_done = true;
                self.last_block_request = now;
            },
            Some(d) => {
                let mut i: usize = 0;
                while i < d.len()
                    invariant
                        i <= d@.len(),
                        self.world_data@ == old(self).world_data@ + d@.subrange(0, i as int),
                        self.pending_requests == old(self).pending_requests,
                        self.world_data_done == old(self).world_data_done,
                        old(self).world_data@.len() + d@.len() <= usize::MAX,
                    decreases d@.len() - i,
                {
                    self.world_data.push(d[i]);
                    i = i + 1;
                    assert(self.world_data@ =~= old(self).world_data@ + d@.subrange(0, i as int));
                }
                assert(d@.subrange(0, i as int) =~= d@);
                let ghost world = self.world_data@;
                let ghost pending = self.pending_requests@;
                let ghost out0 = out_packets@;
                let mut still: Vec<u32> = Vec::new();
                let mut j: usize = 0;
                while j < self.pending_requests.len()
                    invariant
                        j <= pending.len(),
                        self.pending_requests@ == pending,
                        self.world_data@ == world,
                        ascending(pending),
                        still@ == unserved(pending.subrange(0, j as int), world),
                        packets_view(out_packets@) == packets_view(out0) + served_answers(
                            pending.subrange(0, j as int),
                            world,
                        ),
                    decreases pending.len() - j,
                {
                    let id = self.pending_requests[j];
                    assert(pending.subrange(0, j + 1).drop_last() =~= pending.subrange(0, j as int));
                    match self.try_fulfill_block_request(id) {
                        Some(response) => {
                            let p = response.encode_full_packet();
                            proof {
                                lemma_packets_view_push(out_packets@, (p, PacketDirection::ToClient));
                            }
                            out_packets.push((p, PacketDirection::ToClient));
                        },
                        None => {
                            still.push(id);
                        },
                    }
                    j = j + 1;
                }
                assert(pending.subrange(0, j as int) =~= pending);
                proof {
                    lemma_unserved_ascending(pending, world);
                }
                self.pending_requests = still;
                self.last_block_request = now;
            },
        }
    }
}

/// What stays pending is taken from what was pending, still ascending.
pub proof fn lemma_unserved_ascending(pending: Seq<u32>, world: Seq<u8>)
    requires
        ascending(pending),
    ensures
        ascending(unserved(pending, world)),
        forall|x: u32| unserved(pending, world).contains(x) ==> pending.contains(x),
    decreases pending.len(),
{
    if pending.len() > 0 {
        let prev = pending.drop_last();
        assert(ascending(prev));
        lemma_unserved_ascending(prev, world);
        assert forall|x: u32| unserved(pending, world).contains(x) implies pending.contains(x) by {
            if unserved(prev, world).contains(x) {
                assert(prev.contains(x));
                let k = choose|k: int| 0 <= k < prev.len() && prev[k] == x;
                assert(pending[k] == x);
            } else {
                let u = unserved(prev, world);
                assert(unserved(pending, world) == u.push(pending.last()));
                let k = choose|k: int| 0 <= k < u.len() + 1 && u.push(pending.last())[k] == x;
                assert(k == u.len());
                assert(pending[pending.len() - 1] == x);
            }
        }
        if block_of(world, pending.last()) is None {
            let u = unserved(prev, world);
            assert forall|a: int, b: int| 0 <= a < b < u.len() + 1 implies u.push(pending.last())[a] < u.push(pending.last())[b] by {
                if b == u.len() {
                    assert(u.contains(u[a]));
                    assert(prev.contains(u[a]));
                    let k = choose|k: int| 0 <= k < prev.len() && prev[k] == u[a];
                    assert(pending[k] < pending[pending.len() - 1]);
                }
            }
        }
    }
}

/// Adds `id` to the ascending `v`, unless it is there.
pub fn insert_ascending(v: &mut Vec<u32>, id: u32)
    requires
        ascending(old(v)@),
    ensures
        added_pending(old(v)@, final(v)@, id),
{
    let mut i: usize = 0;
    while i < v.len() && v[i] < id
        invariant
            i <= v@.len(),
            forall|k: int| 0 <= k < i ==> v@[k] < id,
        decreases v@.len() - i,
    {
        i = i + 1;
    }
    if i < v.len() && v[i] == id {
        return;
    }
    let ghost old_v = v@;
    v.insert(i, id);
    proof {
        assert forall|a: int, b: int| 0 <= a < b < v@.len() implies v@[a] < v@[b] by {
            let a0 = if a < i { a } else if a == i { -1 } else { a - 1 };
            let b0 = if b < i { b } else if b == i { -1 } else { b - 1 };
            if a != i as int && b != i as int {
                assert(v@[a] == old_v[a0] && v@[b] == old_v[b0]);
            } else if a == i as int {
                assert(old_v[b0] >= id || b0 >= i);
                if i < old_v.len() {
                    assert(old_v[i as int] > id);
                    if b0 > i {
                        assert(old_v[i as int] < old_v[b0]);
                    }
                }
            } else {
                assert(v@[a] == old_v[a]);
            }
        }
        assert forall|x: u32| v@.contains(x) <==> (old_v.contains(x) || x == id) by {
            if v@.contains(x) {
                let k = choose|k: int| 0 <= k < v@.len() && v@[k] == x;
                if k < i {
                    assert(old_v[k] == x);
                } else if k > i {
                    assert(old_v[k - 1] == x);
                }
            }
            if old_v.contains(x) {
                let k = choose|k: int| 0 <= k < old_v.len() && old_v[k] == x;
                if k < i {
                    assert(v@[k] == x);
                } else {
                    assert(v@[k + 1] == x);
                }
            }
            if x == id {
                assert(v@[i as int] == x);
            }
        }
    }
}

} // verus!
