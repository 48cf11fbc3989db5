//! The server-side per-peer state: waits for the game server to announce a
//! world, downloads it block by block through a bounded window of requests,
//! and hands the whole world over once every block is in.
use vstd::prelude::*;
use crate::{PacketDirection, packets_view, lemma_packets_view_push};
use crate::framing::{extend_bytes, push_u32_le, slice_to_vec};
use crate::game_packet::{
    TRANSFER_BLOCK, TRANSFER_BLOCK_SIZE, MapReadyForDownloadData, TransferBlockPacket,
    block_request_packet, decode_packet_type, encode_block_request, map_ready_bytes, packet_type,
    parse_map_ready, parse_transfer_block,
};

verus! {

/// Most block requests that may be in flight at once.
pub const INFLIGHT_BLOCK_REQUEST_LIMIT: usize = 16;

/// Milliseconds without a new block after which the requests in flight are
/// sent again.
pub const BLOCK_STALL_TIMEOUT_MS: u64 = 100;

/// Number of transfer blocks that `size` bytes take.
pub open spec fn blocks_for(size: u32) -> int {
    (size as int + TRANSFER_BLOCK_SIZE - 1) / TRANSFER_BLOCK_SIZE as int
}

/// Ids of the blocks from `from` on that have not been received, ascending.
pub open spec fn queued_from(received: Seq<Option<Vec<u8>>>, from: int) -> Seq<u32>
    decreases received.len() - from,
{
    if from < 0 || from >= received.len() {
        seq![]
    } else if received[from] is None {
        seq![from as u32] + queued_from(received, from + 1)
    } else {
        queued_from(received, from + 1)
    }
}

/// Number of blocks not received yet.
pub open spec fn count_missing(received: Seq<Option<Vec<u8>>>) -> nat
    decreases received.len(),
{
    if received.len() == 0 {
        0
    } else {
        count_missing(received.drop_last()) + if received.last() is None {
            1nat
        } else {
            0nat
        }
    }
}

/// Request packets, to the server, for `ids` in order.
pub open spec fn requests_for(ids: Seq<u32>) -> Seq<(Seq<u8>, PacketDirection)> {
    ids.map_values(|id: u32| (block_request_packet(id), PacketDirection::ToServer))
}

pub open spec fn min(a: int, b: int) -> int {
    if a <= b {
        a
    } else {
        b
    }
}

/// A world download in progress. Each block slot holds the block once it is
/// in; the queue is every block at or after `next_block` that is not in yet,
/// and every block before it that is not in yet is in flight.
pub struct DownloadingWorldState {
    pub world_info: MapReadyForDownloadData,
    pub world_block_count: u32,
    pub total_block_count: u32,
    pub download_start_time: u64,
    pub held_packets: Vec<Vec<u8>>,
    pub received_blocks: Vec<Option<Vec<u8>>>,
    pub missing_count: u32,
    pub next_block: u32,
    pub inflight_block_requests: Vec<u32>,
    pub last_block_time: u64,
}

impl DownloadingWorldState {
    /// As many requests are in flight as the window allows, or none is
    /// queued.
    pub open spec fn window_full(&self) -> bool {
        self.inflight_block_requests@.len() == INFLIGHT_BLOCK_REQUEST_LIMIT || self.queue().len() == 0
    }

    /// Blocks not yet requested (or requested and then received out of
    /// turn), in the order they will be requested.
    pub open spec fn queue(&self) -> Seq<u32> {
        queued_from(self.received_blocks@, self.next_block as int)
    }

    pub open spec fn wf(&self) -> bool {
        let r = self.received_blocks@;
        let f = self.inflight_block_requests@;
        &&& self.world_block_count == blocks_for(self.world_info.world_size)
        &&& self.total_block_count == blocks_for(self.world_info.world_size) + blocks_for(
            self.world_info.aux_size,
        )
        &&& r.len() == self.total_block_count
        &&& self.next_block <= self.total_block_count
        &&& f.len() <= INFLIGHT_BLOCK_REQUEST_LIMIT
        &&& f.no_duplicates()
        &&& forall|i: int| 0 <= i < f.len() ==> f[i] < self.next_block && (#[trigger] r[f[i] as int]) is None
        &&& forall|id: int| 0 <= id < self.next_block && (#[trigger] r[id]) is None ==> f.contains(id as u32)
        &&& self.missing_count == count_missing(r)
    }

    /// Sends requests for queued blocks until the window is full or the
    /// queue is empty.
    pub fn request_next_blocks(&mut self, out_packets: &mut Vec<(Vec<u8>, PacketDirection)>)
        requires
            old(self).wf(),
        ensures
            final(self).wf(),
            final(self).window_full(),
            ({
                let k = min(
                    INFLIGHT_BLOCK_REQUEST_LIMIT - old(self).inflight_block_requests@.len(),
                    old(self).queue().len() as int,
                );
                &&& final(self).inflight_block_requests@ == old(self).inflight_block_requests@ + old(
                    self,
                ).queue().take(k)
                &&& final(self).queue() == old(self).queue().skip(k)
                &&& packets_view(final(out_packets)@) == packets_view(old(out_packets)@) + requests_for(
                    old(self).queue().take(k),
                )
            }),
            final(self).received_blocks@ == old(self).received_blocks@,
            final(self).world_info == old(self).world_info,
            final(self).held_packets@ == old(self).held_packets@,
            final(self).last_block_time == old(self).last_block_time,
            final(self).download_start_time == old(self).download_start_time,
    {
        let ghost q0 = self.queue();
        let ghost f0 = self.inflight_block_requests@;
        let ghost out0 = out_packets@;
        let ghost mut t: int = 0;
        let mut exhausted = false;
        while !exhausted && self.inflight_block_requests.len() < INFLIGHT_BLOCK_REQUEST_LIMIT
            invariant
                exhausted ==> q0.skip(t).len() == 0,
                self.wf(),
                0 <= t <= q0.len(),
                t <= INFLIGHT_BLOCK_REQUEST_LIMIT - f0.len(),
                self.inflight_block_requests@ == f0 + q0.take(t),
                self.queue() == q0.skip(t),
                packets_view(out_packets@) == packets_view(out0) + requests_for(q0.take(t)),
                self.received_blocks@ == old(self).received_blocks@,
                self.world_info == old(self).world_info,
                self.held_packets@ == old(self).held_packets@,
                self.last_block_time == old(self).last_block_time,
                self.download_start_time == old(self).download_start_time,
            decreases INFLIGHT_BLOCK_REQUEST_LIMIT - self.inflight_block_requests@.len() + if exhausted {
                0int
            } else {
                1int
            },
        {
            while self.next_block < self.total_block_count && self.received_blocks[self.next_block
                as usize].is_some()
                invariant
                    self.wf(),
                    self.inflight_block_requests@ == f0 + q0.take(t),
                    self.queue() == q0.skip(t),
                    self.received_blocks@ == old(self).received_blocks@,
                    self.world_info == old(self).world_info,
                    self.held_packets@ == old(self).held_packets@,
                    self.last_block_time == old(self).last_block_time,
                    self.download_start_time == old(self).download_start_time,
                decreases self.total_block_count - self.next_block,
            {
                self.next_block = self.next_block + 1;
            }
            if self.next_block == self.total_block_count {
                assert(q0.skip(t).len() == 0);
                exhausted = true;
            } else {
            let id = self.next_block;
            let ghost r = self.received_blocks@;
            assert(self.queue() == seq![id] + queued_from(r, id + 1));
            assert(q0.skip(t)[0] == q0[t]);
            assert(q0.skip(t + 1) =~= q0.skip(t).skip(1));
            assert(queued_from(r, id + 1) =~= (seq![id] + queued_from(r, id + 1)).skip(1));
            assert(q0.take(t + 1) =~= q0.take(t).push(id));
            assert(!self.inflight_block_requests@.contains(id));
            let ghost fprev = self.inflight_block_requests@;
            self.inflight_block_requests.push(id);
            assert(self.inflight_block_requests@.drop_last() == fprev);
            self.next_block = id + 1;
            let p = encode_block_request(id);
            proof {
                lemma_packets_view_push(out_packets@, (p, PacketDirection::ToServer));
                assert(requests_for(q0.take(t + 1)) =~= requests_for(q0.take(t)).push(
                    (block_request_packet(id), PacketDirection::ToServer),
                ));
                t = t + 1;
            }
            out_packets.push((p, PacketDirection::ToServer));
            proof {
                let f = self.inflight_block_requests@;
                let r = self.received_blocks@;
                assert(f[f.len() - 1] == id);
                assert forall|x: int| 0 <= x < self.next_block && (#[trigger] r[x]) is None implies f.contains(
                    x as u32,
                ) by {
                    if x == id {
                        assert(f[f.len() - 1] == x as u32);
                    } else {
                        assert(fprev.contains(x as u32));
                        let j = choose|j: int| 0 <= j < fprev.len() && fprev[j] == x as u32;
                        assert(f[j] == x as u32);
                    }
                }
                assert forall|i: int| 0 <= i < f.len() implies f[i] < self.next_block && (
                #[trigger] r[f[i] as int]) is None by {
                    if i < f.len() - 1 {
                        assert(f[i] == f.drop_last()[i]);
                    }
                }
            }
            }
        }
        proof {
            let k = min(INFLIGHT_BLOCK_REQUEST_LIMIT - f0.len(), q0.len() as int);
            assert(t == k);
        }
    }

    /// The world and the auxiliary data cut from the blocks received.
    pub open spec fn split(&self) -> Option<(Seq<u8>, Seq<u8>)> {
        region_split(
            slots_view(self.received_blocks@),
            self.world_block_count as int,
            self.world_info.world_size as int,
            self.world_info.aux_size as int,
        )
    }

    /// Starts downloading the world that `world_info` announces, at time
    /// `now`; `packet` is the heartbeat that announced it, held back until
    /// the world is ready. Requests for the first blocks go out at once.
    pub fn start(
        world_info: MapReadyForDownloadData,
        packet: Vec<u8>,
        now: u64,
        out_packets: &mut Vec<(Vec<u8>, PacketDirection)>,
    ) -> (r: DownloadingWorldState)
        ensures
            r.wf(),
            r.window_full(),
            r.world_info == world_info,
            r.held_packets@ == seq![packet],
            r.last_block_time == now,
            r.download_start_time == now,
            r.missing_count == r.total_block_count,
            forall|i: int| 0 <= i < r.received_blocks@.len() ==> (#[trigger] r.received_blocks@[i]) is None,
            ({
                let k = min(INFLIGHT_BLOCK_REQUEST_LIMIT as int, r.total_block_count as int);
                &&& r.inflight_block_requests@ == Seq::new(k as nat, |i: int| i as u32)
                &&& r.queue() == Seq::new((r.total_block_count - k) as nat, |i: int| (k + i) as u32)
                &&& packets_view(final(out_packets)@) == packets_view(old(out_packets)@) + requests_for(
                    Seq::new(k as nat, |i: int| i as u32),
                )
            }),
    {
        let bs = TRANSFER_BLOCK_SIZE as u64;
        let world_block_count = ((world_info.world_size as u64 + bs - 1) / bs) as u32;
        let aux_block_count = ((world_info.aux_size as u64 + bs - 1) / bs) as u32;
        let total_block_count = world_block_count + aux_block_count;
        let mut received_blocks: Vec<Option<Vec<u8>>> = Vec::new();
        let mut i: u32 = 0;
        while i < total_block_count
            invariant
                i <= total_block_count,
                received_blocks@.len() == i,
                count_missing(received_blocks@) == i,
                forall|j: int| 0 <= j < i ==> (#[trigger] received_blocks@[j]) is None,
            decreases total_block_count - i,
        {
            let ghost prev = received_blocks@;
            received_blocks.push(None);
            assert(received_blocks@.drop_last() == prev);
            i = i + 1;
        }
        let mut held_packets: Vec<Vec<u8>> = Vec::new();
        held_packets.push(packet);
        let mut state = DownloadingWorldState {
            world_info,
            world_block_count,
            total_block_count,
            download_start_time: now,
            held_packets,
            received_blocks,
            missing_count: total_block_count,
            next_block: 0,
            inflight_block_requests: Vec::new(),
            last_block_time: now,
        };
        proof {
            lemma_queue_all_missing(state.received_blocks@, 0);
        }
        state.request_next_blocks(out_packets);
        proof {
            let k = min(INFLIGHT_BLOCK_REQUEST_LIMIT as int, total_block_count as int);
            let q0 = Seq::new(total_block_count as nat, |i: int| i as u32);
            assert(q0.take(k) =~= Seq::new(k as nat, |i: int| i as u32));
            assert(q0.skip(k) =~= Seq::new((total_block_count - k) as nat, |i: int| (k + i) as u32));
            assert(seq![] + q0.take(k) =~= q0.take(k));
        }
        state
    }

    /// Takes a block that arrived at time `now`. It is taken where it is one
    /// that is still awaited, in flight or queued; it then leaves both.
    pub fn on_transfer_block(&mut self, block: TransferBlockPacket, now: u64) -> (accepted: bool)
        requires
            old(self).wf(),
        ensures
            final(self).wf(),
            accepted == (block.block_id < old(self).total_block_count && old(
                self,
            ).received_blocks@[block.block_id as int] is None),
            accepted ==> ({
                let f0 = old(self).inflight_block_requests@;
                let f = final(self).inflight_block_requests@;
                &&& final(self).received_blocks@ == old(self).received_blocks@.update(
                    block.block_id as int,
                    Some(block.data),
                )
                &&& final(self).last_block_time == now
                &&& final(self).missing_count + 1 == old(self).missing_count
                &&& !f.contains(block.block_id)
                &&& final(self).next_block == old(self).next_block
                &&& (f0.contains(block.block_id) ==> exists|i: int|
                    0 <= i < f0.len() && #[trigger] f0[i] == block.block_id && f == f0.remove(i))
                &&& (!f0.contains(block.block_id) ==> f == f0)
            }),
            !accepted ==> *final(self) == *old(self),
            final(self).world_info == old(self).world_info,
            final(self).held_packets@ == old(self).held_packets@,
            final(self).total_block_count == old(self).total_block_count,
            final(self).world_block_count == old(self).world_block_count,
            final(self).download_start_time == old(self).download_start_time,
    {
        let id = block.block_id;
        if id >= self.total_block_count || self.received_blocks[id as usize].is_some() {
            return false;
        }
        let ghost f0 = self.inflight_block_requests@;
        let ghost r0 = self.received_blocks@;
        let mut i: usize = 0;
        let mut found = false;
        while !found && i < self.inflight_block_requests.len()
            invariant
                i <= self.inflight_block_requests@.len(),
                self.inflight_block_requests@ == f0,
                forall|k: int| 0 <= k < i ==> f0[k] != id,
                found ==> i < f0.len() && f0[i as int] == id,
            decreases self.inflight_block_requests@.len() - i + if found {
                0int
            } else {
                1int
            },
        {
            if self.inflight_block_requests[i] == id {
                found = true;
            } else {
                i = i + 1;
            }
        }
        if found {
            self.inflight_block_requests.remove(i);
            proof {
                let f = self.inflight_block_requests@;
                assert(f0[i as int] == id);
                assert forall|x: u32| f.contains(x) implies f0.contains(x) && x != id by {
                    let j = choose|j: int| 0 <= j < f.len() && f[j] == x;
                    if j < i {
                        assert(f0[j] == x);
                    } else {
                        assert(f0[j + 1] == x);
                    }
                }
                assert forall|x: u32| f0.contains(x) && x != id implies f.contains(x) by {
                    let j = choose|j: int| 0 <= j < f0.len() && f0[j] == x;
                    if j < i {
                        assert(f[j] == x);
                    } else {
                        assert(j != i);
                        assert(f[j - 1] == x);
                    }
                }
            }
        } else {
            assert(!f0.contains(id));
        }
        self.received_blocks.set(id as usize, Some(block.data));
        proof {
            lemma_count_missing_fill(r0, id as int, self.received_blocks@[id as int]);
        }
        self.missing_count = self.missing_count - 1;
        self.last_block_time = now;
        proof {
            let f = self.inflight_block_requests@;
            let r = self.received_blocks@;
            assert(f0.no_duplicates());
            assert(f.no_duplicates()) by {
                if f0.contains(id) {
                    assert forall|a: int, b: int| 0 <= a < b < f.len() implies f[a] != f[b] by {
                        let a0 = if a < i { a } else { a + 1 };
                        let b0 = if b < i { b } else { b + 1 };
                        assert(f[a] == f0[a0] && f[b] == f0[b0]);
                    }
                }
            }
            assert forall|j: int| 0 <= j < f.len() implies f[j] < self.next_block && (
            #[trigger] r[f[j] as int]) is None by {
                assert(f.contains(f[j]));
                assert(f0.contains(f[j]));
                let j0 = choose|j0: int| 0 <= j0 < f0.len() && f0[j0] == f[j];
                assert(f0[j0] < self.next_block);
                assert(r0[f0[j0] as int] is None);
            }
            assert forall|x: int| 0 <= x < self.next_block && (#[trigger] r[x]) is None implies f.contains(
                x as u32,
            ) by {
                assert(r0[x] is None);
                assert(f0.contains(x as u32));
            }
            assert(!f.contains(id));
        }
        true
    }

    /// Sends the requests in flight again, after a stall.
    pub fn resend_inflight(&self, out_packets: &mut Vec<(Vec<u8>, PacketDirection)>)
        ensures
            packets_view(final(out_packets)@) == packets_view(old(out_packets)@) + requests_for(
                self.inflight_block_requests@,
            ),
    {
        let ghost out0 = out_packets@;
        let ghost f = self.inflight_block_requests@;
        let mut i: usize = 0;
        while i < self.inflight_block_requests.len()
            invariant
                i <= f.len(),
                f == self.inflight_block_requests@,
                packets_view(out_packets@) == packets_view(out0) + requests_for(f.take(i as int)),
            decreases f.len() - i,
        {
            let p = encode_block_request(self.inflight_block_requests[i]);
            proof {
                lemma_packets_view_push(out_packets@, (p, PacketDirection::ToServer));
                assert(f.take(i + 1) =~= f.take(i as int).push(f[i as int]));
                assert(requests_for(f.take(i + 1)) =~= requests_for(f.take(i as int)).push(
                    (block_request_packet(f[i as int]), PacketDirection::ToServer),
                ));
            }
            out_packets.push((p, PacketDirection::ToServer));
            i = i + 1;
        }
        assert(f.take(i as int) =~= f);
    }


    /// Puts the received blocks together in block order and splits them into
    /// the world and the auxiliary data, or `None` where fewer bytes came in
    /// than the announcement needs.
    pub fn finalize_world(self) -> (r: Option<DownloadedWorld>)
        requires
            self.wf(),
        ensures
            r is None <==> self.split() is None,
            r matches Some(w) ==> self.split() == Some((w.world_data@, w.aux_data@))
                && w.world_info == self.world_info && w.held_packets@ == self.held_packets@,
    {
        let ghost slots = slots_view(self.received_blocks@);
        let wbc = self.world_block_count as usize;
        let mut data: Vec<u8> = Vec::new();
        let mut aux_offset: usize = 0;
        let mut i: usize = 0;
        while i < self.received_blocks.len()
            invariant
                i <= self.received_blocks@.len(),
                slots == slots_view(self.received_blocks@),
                wbc <= slots.len(),
                data@ == concat_slots(slots.subrange(0, i as int)),
                i > wbc ==> aux_offset == concat_slots(slots.take(wbc as int)).len(),
            decreases self.received_blocks@.len() - i,
        {
            if i == wbc {
                assert(slots.subrange(0, i as int) =~= slots.take(wbc as int));
                aux_offset = data.len();
            }
            assert(slots.subrange(0, i + 1).drop_last() =~= slots.subrange(0, i as int));
            match &self.received_blocks[i] {
                Some(d) => {
                    extend_bytes(&mut data, d.as_slice());
                },
                None => {},
            }
            i = i + 1;
        }
        if i == wbc {
            assert(slots.subrange(0, i as int) =~= slots.take(wbc as int));
            aux_offset = data.len();
        }
        assert(slots.subrange(0, i as int) =~= slots);
        let ws = self.world_info.world_size as usize;
        let aux_size = self.world_info.aux_size as usize;
        if aux_offset > data.len() || ws > aux_offset || aux_size > data.len() - aux_offset {
            return None;
        }
        let world_data = slice_to_vec(data.as_slice(), 0, ws);
        let aux_data = slice_to_vec(data.as_slice(), aux_offset, aux_offset + aux_size);
        assert(world_data@ =~= data@.take(ws as int));
        Some(
            DownloadedWorld {
                world_info: self.world_info,
                world_data,
                aux_data,
                held_packets: self.held_packets,
            },
        )
    }

}

/// With no block received from `from` on, the queue from there is every id
/// from `from` to the end.
pub proof fn lemma_queue_all_missing(r: Seq<Option<Vec<u8>>>, from: int)
    requires
        0 <= from <= r.len(),
        forall|i: int| 0 <= i < r.len() ==> (#[trigger] r[i]) is None,
        r.len() <= u32::MAX + 1,
    ensures
        queued_from(r, from) == Seq::new((r.len() - from) as nat, |i: int| (from + i) as u32),
    decreases r.len() - from,
{
    if from < r.len() {
        lemma_queue_all_missing(r, from + 1);
        assert(queued_from(r, from) =~= Seq::new((r.len() - from) as nat, |i: int| (from + i) as u32));
    } else {
        assert(queued_from(r, from) =~= Seq::new((r.len() - from) as nat, |i: int| (from + i) as u32));
    }
}

/// Filling a missing slot leaves one block fewer missing.
pub proof fn lemma_count_missing_fill(r: Seq<Option<Vec<u8>>>, i: int, v: Option<Vec<u8>>)
    requires
        0 <= i < r.len(),
        r[i] is None,
        v is Some,
    ensures
        count_missing(r.update(i, v)) + 1 == count_missing(r),
    decreases r.len(),
{
    let u = r.update(i, v);
    if i == r.len() - 1 {
        assert(u.drop_last() =~= r.drop_last());
    } else {
        assert(u.drop_last() =~= r.drop_last().update(i, v));
        lemma_count_missing_fill(r.drop_last(), i, v);
    }
}

/// A world whose every block has come in: its bytes, its auxiliary data, its
/// announcement, and the packets held back while it downloaded.
pub struct DownloadedWorld {
    pub world_info: MapReadyForDownloadData,
    pub world_data: Vec<u8>,
    pub aux_data: Vec<u8>,
    pub held_packets: Vec<Vec<u8>>,
}

/// The requests sent again after a stall: every request in flight, where
/// more than the stall timeout has passed since the last block came in.
pub open spec fn stall_resend(s: DownloadingWorldState, now: u64) -> Seq<(Seq<u8>, PacketDirection)> {
    if now >= s.last_block_time && now - s.last_block_time > BLOCK_STALL_TIMEOUT_MS {
        requests_for(s.inflight_block_requests@)
    } else {
        seq![]
    }
}

/// Cuts the blocks `slots`, one after another, into the first
/// `world_size` bytes and the `aux_size` bytes from where block
/// `world_blocks` starts; `None` where the world blocks hold fewer than
/// `world_size` bytes or the rest fewer than `aux_size`.
pub open spec fn region_split(slots: Seq<Option<Seq<u8>>>, world_blocks: int, world_size: int, aux_size: int) -> Option<(Seq<u8>, Seq<u8>)> {
    let data = concat_slots(slots);
    let aux_offset = concat_slots(slots.take(world_blocks)).len() as int;
    if world_size <= aux_offset && aux_offset + aux_size <= data.len() {
        Some((data.take(world_size), data.subrange(aux_offset, aux_offset + aux_size)))
    } else {
        None
    }
}

/// Block slots as byte sequences.
pub open spec fn slots_view(r: Seq<Option<Vec<u8>>>) -> Seq<Option<Seq<u8>>> {
    r.map_values(
        |o: Option<Vec<u8>>|
            match o {
                Some(d) => Some(d@),
                None => None,
            },
    )
}

/// Bytes of a block slot: the block, or nothing where it never came.
pub open spec fn slot_bytes(o: Option<Seq<u8>>) -> Seq<u8> {
    match o {
        Some(d) => d,
        None => seq![],
    }
}

/// The received blocks one after another, in block order.
pub open spec fn concat_slots(r: Seq<Option<Seq<u8>>>) -> Seq<u8>
    decreases r.len(),
{
    if r.len() == 0 {
        seq![]
    } else {
        concat_slots(r.drop_last()) + slot_bytes(r.last())
    }
}

/// `pat` stands in `p` at position `i`.
pub open spec fn is_match_at(p: Seq<u8>, pat: Seq<u8>, i: int) -> bool {
    0 <= i && i + pat.len() <= p.len() && p.subrange(i, i + pat.len()) == pat
}

/// `i` is where `pat` first stands in `p`.
pub open spec fn is_first_match(p: Seq<u8>, pat: Seq<u8>, i: int) -> bool {
    is_match_at(p, pat, i) && forall|j: int| 0 <= j < i ==> !is_match_at(p, pat, j)
}

/// `p` with the first occurrence of `from` replaced by `to`; `p` itself
/// where `from` does not occur.
pub open spec fn replace_first(p: Seq<u8>, from: Seq<u8>, to: Seq<u8>) -> Seq<u8> {
    if exists|i: int| is_first_match(p, from, i) {
        let i = choose|i: int| is_first_match(p, from, i);
        p.subrange(0, i) + to + p.subrange(i + from.len(), p.len() as int)
    } else {
        p
    }
}

/// Whether `pat` stands in `p` at position `i`.
pub fn matches_at(p: &[u8], pat: &[u8], i: usize) -> (r: bool)
    ensures
        r == is_match_at(p@, pat@, i as int),
{
    if i > p.len() || pat.len() > p.len() - i {
        return false;
    }
    let n = p.len();
    let mut k: usize = 0;
    while k < pat.len()
        invariant
            n == p@.len(),
            k <= pat@.len(),
            i + pat@.len() <= p@.len(),
            forall|j: int| 0 <= j < k ==> p@[i + j] == pat@[j],
        decreases pat@.len() - k,
    {
        assert(i + k < n);
        if p[i + k] != pat[k] {
            assert(p@.subrange(i as int, i + pat@.len())[k as int] != pat@[k as int]);
            return false;
        }
        k = k + 1;
    }
    assert(p@.subrange(i as int, i + pat@.len()) =~= pat@);
    true
}

/// Replaces the first occurrence of `from` in `p` by `to`.
pub fn replace_first_occurrence(p: &[u8], from: &[u8], to: &[u8]) -> (r: Vec<u8>)
    ensures
        r@ == replace_first(p@, from@, to@),
{
    if from.len() <= p.len() {
        let last = p.len() - from.len();
        assert(last + from@.len() == p.len());
        let mut i: usize = 0;
        let mut searching = true;
        while searching
            invariant
                i <= last,
                last == p@.len() - from@.len(),
                last + from@.len() <= usize::MAX,
                forall|j: int| 0 <= j < i ==> !is_match_at(p@, from@, j),
                !searching ==> i == last && !is_match_at(p@, from@, last as int),
            decreases last - i + if searching {
                1int
            } else {
                0int
            },
        {
            if matches_at(p, from, i) {
                proof {
                    assert(is_first_match(p@, from@, i as int));
                    let c = choose|c: int| is_first_match(p@, from@, c);
                    assert(c == i as int);
                }
                let mut r = slice_to_vec(p, 0, i);
                extend_bytes(&mut r, to);
                let tail = slice_to_vec(p, i + from.len(), p.len());
                extend_bytes(&mut r, tail.as_slice());
                return r;
            }
            if i == last {
                searching = false;
            } else {
                i = i + 1;
            }
        }
        proof {
            assert forall|c: int| !is_first_match(p@, from@, c) by {
                if c > last {
                    assert(!is_match_at(p@, from@, c));
                }
            }
        }
    } else {
        assert forall|c: int| !is_first_match(p@, from@, c) by {
            assert(!is_match_at(p@, from@, c));
        }
    }
    slice_to_vec(p, 0, p.len())
}

/// What the client is sent for a held packet: the packet with the old
/// map-ready record replaced by the new one.
pub open spec fn released_packets(held: Seq<Vec<u8>>, from: Seq<u8>, to: Seq<u8>) -> Seq<
    (Seq<u8>, PacketDirection),
> {
    held.map_values(|p: Vec<u8>| (replace_first(p@, from, to), PacketDirection::ToClient))
}

/// Sends the held packets on to the client, each with the announcement
/// `old_info` replaced by one that gives the rebuilt world's size and CRC.
pub fn release_held_packets(
    old_info: &MapReadyForDownloadData,
    new_world_size: u32,
    new_world_crc: u32,
    held_packets: &Vec<Vec<u8>>,
    out_packets: &mut Vec<(Vec<u8>, PacketDirection)>,
)
    ensures
        packets_view(final(out_packets)@) == packets_view(old(out_packets)@) + released_packets(
            held_packets@,
            old_info.view_bytes(),
            map_ready_bytes(new_world_size, old_info.aux_size, new_world_crc, old_info.extra@),
        ),
{
    let mut old_encoded: Vec<u8> = Vec::new();
    old_info.encode(&mut old_encoded);
    let mut new_encoded: Vec<u8> = Vec::new();
    push_u32_le(new_world_size, &mut new_encoded);
    push_u32_le(old_info.aux_size, &mut new_encoded);
    push_u32_le(new_world_crc, &mut new_encoded);
    extend_bytes(&mut new_encoded, old_info.extra.as_slice());
    assert(new_encoded@ =~= map_ready_bytes(new_world_size, old_info.aux_size, new_world_crc, old_info.extra@));
    assert(old_encoded@ =~= old_info.view_bytes());
    let ghost out0 = out_packets@;
    let ghost h = held_packets@;
    let mut i: usize = 0;
    while i < held_packets.len()
        invariant
            i <= h.len(),
            h == held_packets@,
            packets_view(out_packets@) == packets_view(out0) + released_packets(
                h.take(i as int),
                old_encoded@,
                new_encoded@,
            ),
        decreases h.len() - i,
    {
        let p = replace_first_occurrence(held_packets[i].as_slice(), old_encoded.as_slice(), new_encoded.as_slice());
        proof {
            lemma_packets_view_push(out_packets@, (p, PacketDirection::ToClient));
            assert(h.take(i + 1) =~= h.take(i as int).push(h[i as int]));
            assert(released_packets(h.take(i + 1), old_encoded@, new_encoded@) =~= released_packets(
                h.take(i as int),
                old_encoded@,
                new_encoded@,
            ).push((p@, PacketDirection::ToClient)));
        }
        out_packets.push((p, PacketDirection::ToClient));
        i = i + 1;
    }
    assert(h.take(i as int) =~= h);
}

/// Phase of the server-side state: waiting for the announcement of a world,
/// downloading it, or done with it.
pub enum ServerProxyPhase {
    WaitingForWorld,
    DownloadingWorld(DownloadingWorldState),
    Done,
}

pub struct ServerProxyState {
    pub phase: ServerProxyPhase,
}

impl ServerProxyState {
    /// While downloading, the state is well formed and the window of
    /// requests is full, or nothing is left to request.
    pub open spec fn wf(&self) -> bool {
        self.phase matches ServerProxyPhase::DownloadingWorld(s) ==> s.wf() && s.window_full()
    }

    pub fn new() -> (r: ServerProxyState)
        ensures
            r.wf(),
            r.phase is WaitingForWorld,
    {
        ServerProxyState { phase: ServerProxyPhase::WaitingForWorld }
    }

    /// Handles a packet from the game server at time `now` (milliseconds).
    /// While waiting, everything goes on to the client until a heartbeat
    /// announces a world; that starts the download (and ends it at once for
    /// a world of no blocks). While downloading, blocks fill the world,
    /// every other packet is held back, and a stall sends the requests in
    /// flight again; the last block ends the download and the assembled
    /// world is returned. Once done, everything goes on to the client.
    pub fn on_packet_from_server(
        &mut self,
        packet: Vec<u8>,
        now: u64,
        out_packets: &mut Vec<(Vec<u8>, PacketDirection)>,
    ) -> (r: Option<DownloadedWorld>)
        requires
            old(self).wf(),
        ensures
            final(self).wf(),
            r is Some ==> final(self).phase is Done,
            old(self).phase is Done ==> final(self).phase is Done,
            old(self).phase is DownloadingWorld ==> !(final(self).phase is WaitingForWorld),
            match old(self).phase {
                ServerProxyPhase::WaitingForWorld => match parse_map_ready(packet@) {
                    Some((ws, aux, crc, extra)) => {
                        let total = blocks_for(ws) + blocks_for(aux);
                        let k = min(INFLIGHT_BLOCK_REQUEST_LIMIT as int, total);
                        &&& packets_view(final(out_packets)@) == packets_view(old(out_packets)@) + requests_for(
                            Seq::new(k as nat, |i: int| i as u32),
                        )
                        &&& (total == 0 ==> final(self).phase is Done && (r is Some <==> ws == 0 && aux == 0))
                        &&& (total == 0 ==> (r matches Some(w) ==> w.world_data@.len() == 0 && w.aux_data@.len() == 0
                            && w.held_packets@ == seq![packet]))
                        &&& (total > 0 ==> r is None && final(self).phase is DownloadingWorld)
                        &&& (final(self).phase matches ServerProxyPhase::DownloadingWorld(s) ==> s.world_info.world_size == ws
                            && s.world_info.aux_size == aux && s.world_info.world_crc == crc && s.world_info.extra@ == extra
                            && s.held_packets@ == seq![packet] && s.missing_count == s.total_block_count
                            && s.total_block_count == total && s.last_block_time == now
                            && s.inflight_block_requests@ == Seq::new(k as nat, |i: int| i as u32))
                    },
                    None => r is None && final(self).phase is WaitingForWorld && packets_view(
                        final(out_packets)@,
                    ) == packets_view(old(out_packets)@).push((packet@, PacketDirection::ToClient)),
                },
                ServerProxyPhase::Done => {
                    &&& r is None
                    &&& packets_view(final(out_packets)@) == packets_view(old(out_packets)@).push(
                        (packet@, PacketDirection::ToClient),
                    )
                },
                ServerProxyPhase::DownloadingWorld(s) => match parse_transfer_block(packet@) {
                    Some((id, data)) => {
                        let accepted = id < s.total_block_count && s.received_blocks@[id as int] is None;
                        let slots = if accepted {
                            slots_view(s.received_blocks@).update(id as int, Some(data))
                        } else {
                            slots_view(s.received_blocks@)
                        };
                        let last = if accepted {
                            s.missing_count == 1
                        } else {
                            s.missing_count == 0
                        };
                        let split = region_split(
                            slots,
                            s.world_block_count as int,
                            s.world_info.world_size as int,
                            s.world_info.aux_size as int,
                        );
                        &&& (final(self).phase is Done) == last
                        &&& last ==> (r is Some <==> split is Some) && final(out_packets)@ == old(out_packets)@
                        &&& (r matches Some(w) ==> {
                            &&& split == Some((w.world_data@, w.aux_data@))
                            &&& w.world_info == s.world_info
                            &&& w.held_packets@ == s.held_packets@
                        })
                        &&& !last ==> r is None && final(self).phase is DownloadingWorld
                        &&& (final(self).phase matches ServerProxyPhase::DownloadingWorld(s2) ==> {
                            &&& slots_view(s2.received_blocks@) == slots
                            &&& s2.held_packets@ == s.held_packets@
                            &&& s2.last_block_time == if accepted { now } else { s.last_block_time }
                            &&& exists|new: Seq<u32>| #![trigger requests_for(new)]
                                new.len() <= s2.inflight_block_requests@.len()
                                && new == s2.inflight_block_requests@.skip(s2.inflight_block_requests@.len() - new.len())
                                && packets_view(final(out_packets)@) == packets_view(old(out_packets)@)
                                    + requests_for(new) + stall_resend(s2, now)
                        })
                    },
                    None => {
                        &&& r is None
                        &&& final(self).phase is DownloadingWorld
                        &&& (final(self).phase matches ServerProxyPhase::DownloadingWorld(s2) ==> {
                            &&& s2.received_blocks@ == s.received_blocks@
                            &&& s2.held_packets@ == s.held_packets@.push(packet)
                            &&& s2.inflight_block_requests@ == s.inflight_block_requests@
                            &&& s2.last_block_time == s.last_block_time
                            &&& packets_view(final(out_packets)@) == packets_view(old(out_packets)@)
                                + stall_resend(s2, now)
                        })
                    },
                },
            },
    {
        let mut phase = ServerProxyPhase::Done;
        core::mem::swap(&mut self.phase, &mut phase);
        match phase {
            ServerProxyPhase::WaitingForWorld => {
                if let Some(world_info) = MapReadyForDownloadData::try_decode_from_heartbeat(
                    packet.as_slice(),
                ) {
                    let state = DownloadingWorldState::start(world_info, packet, now, out_packets);
                    if state.total_block_count == 0 {
                        proof {
                            assert(state.received_blocks@ =~= Seq::<Option<Vec<u8>>>::empty());
                            assert(slots_view(state.received_blocks@) =~= Seq::<Option<Seq<u8>>>::empty());
                            assert(slots_view(state.received_blocks@).take(0) =~= Seq::<Option<Seq<u8>>>::empty());
                        }
                        return state.finalize_world();
                    }
                    self.phase = ServerProxyPhase::DownloadingWorld(state);
                    return None;
                }
                self.phase = ServerProxyPhase::WaitingForWorld;
            },
            ServerProxyPhase::DownloadingWorld(mut state) => {
                let ghost out0 = out_packets@;
                let ghost mut ids: Seq<u32> = seq![];
                match TransferBlockPacket::decode(packet.as_slice()) {
                    None => {
                        state.held_packets.push(packet);
                    },
                    Some(block) => {
                        let ghost s0 = state;
                        state.on_transfer_block(block, now);
                        assert(slots_view(state.received_blocks@) =~= if block.block_id
                            < s0.total_block_count && s0.received_blocks@[block.block_id as int] is None {
                            slots_view(s0.received_blocks@).update(block.block_id as int, Some(block.data@))
                        } else {
                            slots_view(s0.received_blocks@)
                        });
                        if state.missing_count == 0 {
                            return state.finalize_world();
                        }
                        let ghost s1 = state;
                        state.request_next_blocks(out_packets);
                        proof {
                            ids = s1.queue().take(min(
                                INFLIGHT_BLOCK_REQUEST_LIMIT - s1.inflight_block_requests@.len(),
                                s1.queue().len() as int,
                            ));
                            assert(state.inflight_block_requests@.skip(state.inflight_block_requests@.len() - ids.len()) =~= ids);
                        }
                    },
                }
                proof {
                    assert(packets_view(out_packets@) =~= packets_view(out0) + requests_for(ids));
                }
                if now >= state.last_block_time && now - state.last_block_time
                    > BLOCK_STALL_TIMEOUT_MS {
                    let ghost s2 = state;
                    state.resend_inflight(out_packets);
                    state.request_next_blocks(out_packets);
                    proof {
                        assert(s2.window_full());
                        assert(state.inflight_block_requests@ =~= s2.inflight_block_requests@);
                        assert(s2.queue().take(0) =~= Seq::<u32>::empty());
                        assert(requests_for(Seq::<u32>::empty()) =~= Seq::<(Seq<u8>, PacketDirection)>::empty());
                    }
                }
                proof {
                    assert(packets_view(out_packets@) =~= packets_view(out0) + requests_for(ids) + stall_resend(state, now));
                    assert(state.inflight_block_requests@.skip(state.inflight_block_requests@.len() - ids.len()) =~= ids);
                }
                self.phase = ServerProxyPhase::DownloadingWorld(state);
                return None;
            },
            ServerProxyPhase::Done => {},
        }
        proof {
            lemma_packets_view_push(out_packets@, (packet, PacketDirection::ToClient));
        }
        out_packets.push((packet, PacketDirection::ToClient));
        None
    }
}

} // verus!
