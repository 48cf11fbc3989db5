//! The client side of a world transfer: takes what it can from the chunk
//! cache, asks the server side for the rest in batches, checks every chunk
//! against its key, and rebuilds the world once nothing is missing.
use vstd::prelude::*;
use crate::cache::{CacheEntry, ChunkCache, cached, entry_keys, evicted_fairly, is_reserved};
use crate::dedup::{
    ChunkBatchError, ChunkEntry, WorldDescription, assembled, blake3_of, check_chunk_batch,
    find_key, insert_chunk, keys_view, missing_keys, reconstruct_world, store_keys, store_wf,
};
use crate::crc::{crc32, crc32_of};

verus! {

/// A world being received: its manifest and the chunks gathered so far.
pub struct WorldReceiver {
    pub world: WorldDescription,
    pub local: Vec<ChunkEntry>,
}

impl WorldReceiver {
    pub open spec fn wf(&self) -> bool {
        store_wf(self.local@)
    }

    pub fn new(world: WorldDescription) -> (r: WorldReceiver)
        ensures
            r.wf(),
            r.world == world,
            r.local@.len() == 0,
    {
        let r = WorldReceiver { world, local: Vec::new() };
        assert(store_keys(r.local@) =~= seq![]);
        r
    }

    /// Keys of the manifest that are not gathered yet, in order.
    pub open spec fn missing(&self) -> Seq<[u8; 32]> {
        missing_keys(self.world.content_chunks@, self.local@)
    }

    /// Takes the missing chunks that the cache holds, then picks the next
    /// batch to ask for: the first `max_batch` keys still missing that no
    /// other batch has reserved, each once. Empty when nothing is missing,
    /// or when every missing key is reserved elsewhere (then the caller
    /// waits for those batches and asks again).
    pub fn next_batch(&mut self, cache: &mut ChunkCache, max_batch: usize) -> (r: Vec<[u8; 32]>)
        requires
            old(self).wf(),
            old(cache).wf(),
            old(cache).within_limit(),
            old(cache).next_recency + old(self).world.content_chunks@.len() < u64::MAX,
            max_batch > 0,
        ensures
            final(self).wf(),
            final(cache).wf(),
            final(cache).within_limit(),
            final(cache).reserved@ == old(cache).reserved@ + r@,
            final(self).world == old(self).world,
            r@.len() <= max_batch,
            final(self).missing().len() == 0 ==> r@.len() == 0,
            r@.len() == 0 ==> forall|i: int| 0 <= i < final(self).missing().len() ==> is_reserved(
                old(cache).reserved@,
                (#[trigger] final(self).missing()[i])@,
            ),
            forall|i: int| 0 <= i < r@.len() ==> final(self).missing().contains(#[trigger] r@[i]),
            forall|i: int| 0 <= i < r@.len() ==> !is_reserved(old(cache).reserved@, (#[trigger] r@[i])@),
            forall|i: int| 0 <= i < r@.len() ==> !entry_keys(old(cache).entries@).contains((#[trigger] r@[i])@),
            r@.no_duplicates(),
    {
        let mut batch: Vec<[u8; 32]> = Vec::new();
        let ghost cache0 = *cache;
        let mut i: usize = 0;
        while i < self.world.content_chunks.len()
            invariant
                i <= self.world.content_chunks@.len(),
                self.world == old(self).world,
                store_wf(self.local@),
                cache.wf(),
                cache.entries@.len() == cache0.entries@.len(),
                forall|j: int| 0 <= j < cache.entries@.len() ==> (#[trigger] cache.entries@[j]).key == cache0.entries@[j].key,
                cache.next_recency <= cache0.next_recency + i,
                cache0.next_recency + self.world.content_chunks@.len() < u64::MAX,
                batch@.len() <= max_batch,
                batch@.no_duplicates(),
                forall|j: int| 0 <= j < batch@.len() ==> !store_keys(self.local@).contains((#[trigger] batch@[j])@),
                forall|j: int| 0 <= j < batch@.len() ==> self.world.content_chunks@.contains(#[trigger] batch@[j]),
                forall|j: int| 0 <= j < batch@.len() ==> !entry_keys(cache0.entries@).contains((#[trigger] batch@[j])@),
                forall|j: int| 0 <= j < i && batch@.len() < max_batch ==> store_keys(self.local@).contains(
                    (#[trigger] self.world.content_chunks@[j])@) || batch@.contains(self.world.content_chunks@[j])
                    || is_reserved(cache0.reserved@, self.world.content_chunks@[j]@),
                cache.reserved@ == cache0.reserved@ + batch@,
                cache.within_limit(),
                forall|j: int| 0 <= j < batch@.len() ==> !is_reserved(cache0.reserved@, (#[trigger] batch@[j])@),
                batch@.len() == max_batch ==> batch@.len() > 0,
            decreases self.world.content_chunks@.len() - i,
        {
            let key = self.world.content_chunks[i];
            let ghost local0 = self.local@;
            let ghost batch0 = batch@;
            let found = find_key(&self.local, &key);
            if found.is_none() {
                let ghost c1 = *cache;
                match cache.get(&key) {
                    Some(data) => {
                        assert(!batch@.contains(key)) by {
                            if batch@.contains(key) {
                                let b = choose|b: int| 0 <= b < batch@.len() && batch@[b] == key;
                                assert(!entry_keys(cache0.entries@).contains((batch@[b])@));
                                assert(entry_keys(c1.entries@).contains(key@));
                                let u = choose|u: int| 0 <= u < c1.entries@.len() && entry_keys(c1.entries@)[u] == key@;
                                assert(c1.entries@[u].key == cache0.entries@[u].key);
                                assert(entry_keys(cache0.entries@)[u] == key@);
                            }
                        }
                        insert_chunk(&mut self.local, key, data);
                    },
                    None => {
                        assert(!entry_keys(cache0.entries@).contains(key@)) by {
                            if entry_keys(cache0.entries@).contains(key@) {
                                let t = choose|t: int| 0 <= t < cache0.entries@.len() && entry_keys(cache0.entries@)[t] == key@;
                                assert(entry_keys(c1.entries@)[t] == key@);
                            }
                        }
                        if batch.len() < max_batch && !contains_key(&batch, &key) && !cache.is_key_reserved(&key) {
                            proof {
                                if is_reserved(cache0.reserved@, key@) {
                                    let t = choose|t: int| 0 <= t < cache0.reserved@.len() && cache0.reserved@[t]@ == key@;
                                    assert(cache.reserved@[t] == cache0.reserved@[t]);
                                }
                            }
                            batch.push(key);
                            cache.reserve(key);
                            assert(cache.reserved@ =~= cache0.reserved@ + batch@);
                        }
                    },
                }
            }
            proof {
                assert forall|k: Seq<u8>| store_keys(local0).contains(k) implies store_keys(self.local@).contains(k) by {
                    let t = choose|t: int| 0 <= t < store_keys(local0).len() && store_keys(local0)[t] == k;
                    if self.local@ != local0 {
                        assert(self.local@[t] == local0[t]);
                        assert(store_keys(self.local@)[t] == k);
                    }
                }
                assert forall|j: int| 0 <= j < batch@.len() implies !store_keys(self.local@).contains((#[trigger] batch@[j])@) by {
                    if self.local@ != local0 {
                        assert(batch@ == batch0);
                        if store_keys(self.local@).contains(batch@[j]@) {
                            let t = choose|t: int| 0 <= t < store_keys(self.local@).len() && store_keys(self.local@)[t] == batch@[j]@;
                            if t < local0.len() {
                                assert(self.local@[t] == local0[t]);
                                assert(store_keys(local0)[t] == batch@[j]@);
                            } else {
                                assert(self.local@[t].key == key);
                                assert(batch0[j] =~= key);
                                assert(batch0.contains(key));
                            }
                        }
                    } else if j < batch0.len() {
                        assert(batch@[j] == batch0[j]);
                    } else {
                        assert(batch@[j] == key);
                        assert(found is None);
                    }
                }
                assert forall|j: int| 0 <= j < batch@.len() implies !is_reserved(cache0.reserved@, (#[trigger] batch@[j])@) by {
                    if j < batch0.len() {
                        assert(batch@[j] == batch0[j]);
                    }
                }
                assert forall|j: int| 0 <= j < i + 1 && batch@.len() < max_batch implies store_keys(self.local@).contains(
                    (#[trigger] self.world.content_chunks@[j])@) || batch@.contains(self.world.content_chunks@[j])
                    || is_reserved(cache0.reserved@, self.world.content_chunks@[j]@) by {
                    let kj = self.world.content_chunks@[j];
                    if j < i {
                        if batch0.contains(kj) {
                            let t = choose|t: int| 0 <= t < batch0.len() && batch0[t] == kj;
                            assert(batch@[t] == kj);
                        }
                    } else {
                        if self.local@ != local0 {
                            assert(store_keys(self.local@)[local0.len() as int] == key@);
                        } else if !store_keys(local0).contains(key@) && batch@ != batch0 {
                            assert(batch@[batch@.len() - 1] == key);
                        } else if !store_keys(local0).contains(key@) && batch@.len() < max_batch && !batch0.contains(key)
                            && !is_reserved(cache0.reserved@, key@) {
                            let cur = cache0.reserved@ + batch0;
                            assert(is_reserved(cur, key@));
                            let t = choose|t: int| 0 <= t < cur.len() && cur[t]@ == key@;
                            assert(t >= cache0.reserved@.len());
                            assert(batch0[t - cache0.reserved@.len()] =~= key);
                            assert(batch0.contains(key));
                        }
                    }
                }
            }
            i = i + 1;
        }
        proof {
            assert forall|x: [u8; 32]| #[trigger] missing_keys(self.world.content_chunks@, self.local@).contains(x) <==> (
                self.world.content_chunks@.contains(x) && !store_keys(self.local@).contains(x@)) by {
                lemma_missing_keys(self.world.content_chunks@, self.local@, x);
            }
            if batch@.len() == 0 {
                let m = missing_keys(self.world.content_chunks@, self.local@);
                assert forall|q: int| 0 <= q < m.len() implies is_reserved(cache0.reserved@, (#[trigger] m[q])@) by {
                    let x = m[q];
                    assert(m.contains(x));
                    let t = choose|t: int| 0 <= t < self.world.content_chunks@.len() && self.world.content_chunks@[t] == x;
                    assert(store_keys(self.local@).contains(self.world.content_chunks@[t]@) || batch@.contains(self.world.content_chunks@[t])
                        || is_reserved(cache0.reserved@, self.world.content_chunks@[t]@));
                }
            } else {
                assert(missing_keys(self.world.content_chunks@, self.local@).contains(batch@[0]));
            }
        }
        batch
    }
}

/// Why a world could not be finished.
pub enum FinishError {
    /// These keys of the manifest are still missing, in order.
    NeedChunks(Vec<[u8; 32]>),
    /// The rebuilt world is not as long as the manifest says.
    SizeMismatch,
    /// The rebuilt world does not have the CRC-32 the manifest says.
    CrcMismatch,
}

impl WorldReceiver {
    /// Takes a batch that the server side sent for `keys`, which
    /// `next_batch` reserved: where every chunk is the one its key names,
    /// they are all gathered, and all put in the cache, where they stay.
    pub fn on_chunks(&mut self, cache: &mut ChunkCache, keys: &Vec<[u8; 32]>, chunks: Vec<Vec<u8>>) -> (r: Result<(), ChunkBatchError>)
        requires
            old(self).wf(),
            old(cache).wf(),
            old(cache).within_limit(),
            forall|i: int| 0 <= i < keys@.len() ==> is_reserved(old(cache).reserved@, (#[trigger] keys@[i])@),
            old(cache).next_recency + keys@.len() < u64::MAX,
            old(cache).total_size + sum_lens(chunks@) <= u64::MAX,
        ensures
            final(self).wf(),
            final(cache).wf(),
            final(cache).within_limit(),
            final(cache).reserved@ == old(cache).reserved@,
            final(self).world == old(self).world,
            r is Ok <==> keys@.len() == chunks@.len() && forall|i: int|
                0 <= i < keys@.len() ==> (#[trigger] keys@[i])@ == blake3_of(chunks@[i]@),
            r is Ok ==> forall|i: int| 0 <= i < keys@.len() ==> store_keys(final(self).local@).contains((#[trigger] keys@[i])@),
            r is Ok ==> forall|i: int| 0 <= i < keys@.len() ==> entry_keys(final(cache).entries@).contains((#[trigger] keys@[i])@),
            r is Err ==> final(self).local@ == old(self).local@ && *final(cache) == *old(cache),
    {
        let checked = check_chunk_batch(keys, &chunks);
        if checked.is_err() {
            return checked;
        }
        let mut i: usize = 0;
        while i < keys.len()
            invariant
                i <= keys@.len(),
                keys@.len() == chunks@.len(),
                forall|j: int| 0 <= j < keys@.len() ==> (#[trigger] keys@[j])@ == blake3_of(chunks@[j]@),
                forall|j: int| 0 <= j < i ==> store_keys(self.local@).contains((#[trigger] keys@[j])@),
                forall|j: int| 0 <= j < i ==> entry_keys(cache.entries@).contains((#[trigger] keys@[j])@),
                forall|j: int| 0 <= j < keys@.len() ==> is_reserved(cache.reserved@, (#[trigger] keys@[j])@),
                store_wf(self.local@),
                cache.wf(),
                cache.within_limit(),
                cache.reserved@ == old(cache).reserved@,
                cache.next_recency == old(cache).next_recency + i,
                old(cache).next_recency + keys@.len() < u64::MAX,
                cache.total_size <= old(cache).total_size + sum_lens(chunks@.take(i as int)),
                old(cache).total_size + sum_lens(chunks@) <= u64::MAX,
                self.world == old(self).world,
            decreases keys@.len() - i,
        {
            let key = keys[i];
            let data = crate::dedup::clone_bytes(&chunks[i]);
            let ghost local0 = self.local@;
            let ghost c0 = *cache;
            proof {
                lemma_sum_lens_prefix(chunks@, i as int);
            }
            let copy = crate::dedup::clone_bytes(&data);
            cache.insert(key, copy);
            insert_chunk(&mut self.local, key, data);
            proof {
                assert forall|k: Seq<u8>| store_keys(local0).contains(k) implies store_keys(self.local@).contains(k) by {
                    let t = choose|t: int| 0 <= t < store_keys(local0).len() && store_keys(local0)[t] == k;
                    if self.local@ != local0 {
                        assert(self.local@[t] == local0[t]);
                        assert(store_keys(self.local@)[t] == k);
                    }
                }
                if self.local@ != local0 {
                    assert(store_keys(self.local@)[local0.len() as int] == key@);
                }
                let fin = cache.entries@;
                assert forall|j: int| 0 <= j < i + 1 implies entry_keys(fin).contains((#[trigger] keys@[j])@) by {
                    let k = keys@[j]@;
                    assert(is_reserved(c0.reserved@, k));
                    if entry_keys(c0.entries@).contains(key@) {
                        if j < i {
                            let t = choose|t: int| 0 <= t < entry_keys(c0.entries@).len() && entry_keys(c0.entries@)[t] == k;
                            assert(fin[t].key == c0.entries@[t].key);
                            assert(entry_keys(fin)[t] == k);
                        } else {
                            let t = choose|t: int| 0 <= t < entry_keys(c0.entries@).len() && entry_keys(c0.entries@)[t] == key@;
                            assert(fin[t].key == c0.entries@[t].key);
                            assert(entry_keys(fin)[t] == k);
                        }
                    } else {
                        let added = c0.entries@.push(CacheEntry { key, data: copy, recency: c0.next_recency });
                        let t = if j < i {
                            choose|t: int| 0 <= t < entry_keys(c0.entries@).len() && entry_keys(c0.entries@)[t] == k
                        } else {
                            c0.entries@.len() as int
                        };
                        assert(added[t].key@ == k);
                        if !fin.contains(added[t]) {
                            assert(evicted_fairly(added[t], fin, c0.reserved@));
                        }
                        let u = choose|u: int| 0 <= u < fin.len() && fin[u] == added[t];
                        assert(entry_keys(fin)[u] == k);
                    }
                }
                assert(chunks@.take(i + 1).drop_last() =~= chunks@.take(i as int));
            }
            i = i + 1;
        }
        Ok(())
    }

    /// Rebuilds the world from the gathered chunks, checking its size and
    /// CRC-32 against the manifest.
    pub fn finish(&self) -> (r: Result<Vec<u8>, FinishError>)
        requires
            self.wf(),
        ensures
            (r matches Err(FinishError::NeedChunks(m))) <==> self.missing().len() > 0,
            r matches Err(FinishError::NeedChunks(m)) ==> m@ == self.missing(),
            r matches Ok(b) ==> assembled(keys_view(self.world.content_chunks@), self.local@) == Some(b@)
                && b@.len() == self.world.world_size && crc32(b@) == self.world.reconstructed_crc,
            r matches Err(FinishError::SizeMismatch) ==> self.missing().len() == 0 && ({
                let b = assembled(keys_view(self.world.content_chunks@), self.local@).unwrap();
                b.len() != self.world.world_size
            }),
            r matches Err(FinishError::CrcMismatch) ==> self.missing().len() == 0 && ({
                let b = assembled(keys_view(self.world.content_chunks@), self.local@).unwrap();
                b.len() == self.world.world_size && crc32(b) != self.world.reconstructed_crc
            }),
    {
        match reconstruct_world(&self.world.content_chunks, &self.local) {
            Err(m) => Err(FinishError::NeedChunks(m)),
            Ok(b) => {
                if b.len() as u64 != self.world.world_size as u64 {
                    return Err(FinishError::SizeMismatch);
                }
                if crc32_of(b.as_slice()) != self.world.reconstructed_crc {
                    return Err(FinishError::CrcMismatch);
                }
                Ok(b)
            },
        }
    }
}

/// A key is missing where the manifest names it and the store does not
/// hold it.
pub proof fn lemma_missing_keys(keys: Seq<[u8; 32]>, store: Seq<ChunkEntry>, k: [u8; 32])
    ensures
        missing_keys(keys, store).contains(k) <==> (keys.contains(k) && !store_keys(store).contains(k@)),
    decreases keys.len(),
{
    if keys.len() > 0 {
        let prev = keys.drop_last();
        lemma_missing_keys(prev, store, k);
        let mp = missing_keys(prev, store);
        let m = missing_keys(keys, store);
        if m.contains(k) {
            let t = choose|t: int| 0 <= t < m.len() && m[t] == k;
            if t < mp.len() {
                assert(mp[t] == k);
                let u = choose|u: int| 0 <= u < prev.len() && prev[u] == k;
                assert(keys[u] == k);
            } else {
                assert(keys[keys.len() - 1] == k);
            }
        }
        if keys.contains(k) && !store_keys(store).contains(k@) {
            let u = choose|u: int| 0 <= u < keys.len() && keys[u] == k;
            if u < keys.len() - 1 {
                assert(prev[u] == k);
                let t = choose|t: int| 0 <= t < mp.len() && mp[t] == k;
                assert(m[t] == k);
            } else {
                assert(m[m.len() - 1] == k);
            }
        }
    }
}

/// Total length of the chunks.
pub open spec fn sum_lens(cs: Seq<Vec<u8>>) -> nat
    decreases cs.len(),
{
    if cs.len() == 0 {
        0
    } else {
        sum_lens(cs.drop_last()) + cs.last()@.len()
    }
}

pub proof fn lemma_sum_lens_prefix(cs: Seq<Vec<u8>>, i: int)
    requires
        0 <= i < cs.len(),
    ensures
        sum_lens(cs.take(i + 1)) == sum_lens(cs.take(i)) + cs[i]@.len(),
        sum_lens(cs.take(i + 1)) <= sum_lens(cs),
    decreases cs.len() - i,
{
    assert(cs.take(i + 1).drop_last() =~= cs.take(i));
    if i + 1 < cs.len() {
        lemma_sum_lens_prefix(cs, i + 1);
    } else {
        assert(cs.take(i + 1) =~= cs);
    }
}

/// Whether `keys` holds `key`.
pub fn contains_key(keys: &Vec<[u8; 32]>, key: &[u8; 32]) -> (r: bool)
    ensures
        r == keys@.contains(*key),
{
    let mut i: usize = 0;
    while i < keys.len()
        invariant
            i <= keys@.len(),
            forall|j: int| 0 <= j < i ==> keys@[j] != *key,
        decreases keys@.len() - i,
    {
        if crate::dedup::keys_equal(&keys[i], key) {
            assert(keys@[i as int]@ == key@);
            assert(keys@[i as int] =~= *key);
            return true;
        }
        assert(keys@[i as int] != *key);
        i = i + 1;
    }
    false
}

} // verus!
