//! The client's chunk cache: chunks kept under their keys, bounded in total
//! size by evicting the least recently used chunk first, never one that an
//! open batch has reserved.
use vstd::prelude::*;
use crate::crc::{crc32, crc32_of};
use crate::dedup::{blake3_of, chunk_matches_key, keys_equal};
use crate::framing::{
    VARINT_MAX, decode_varint_at, encode_varint, extend_bytes, push_u32_le, read_u32_le,
    slice_to_vec, u32_from_le, u32_le, varint_bytes, varint_decode,
};
use crate::messages::read_key;

verus! {

/// A cached chunk with the time it was last used.
pub struct CacheEntry {
    pub key: [u8; 32],
    pub data: Vec<u8>,
    pub recency: u64,
}

/// Total size in bytes of the chunks in `es`.
pub open spec fn total_bytes(es: Seq<CacheEntry>) -> nat
    decreases es.len(),
{
    if es.len() == 0 {
        0
    } else {
        total_bytes(es.drop_last()) + es.last().data@.len()
    }
}

/// Keys of `es` in order.
pub open spec fn entry_keys(es: Seq<CacheEntry>) -> Seq<Seq<u8>> {
    es.map_values(|e: CacheEntry| e.key@)
}

/// The chunk held under `key`.
pub open spec fn cached(es: Seq<CacheEntry>, key: Seq<u8>) -> Option<Seq<u8>> {
    if entry_keys(es).contains(key) {
        let j = choose|j: int| 0 <= j < es.len() && es[j].key@ == key;
        Some(es[j].data@)
    } else {
        None
    }
}

/// `key` is among `keys`.
pub open spec fn is_reserved(keys: Seq<[u8; 32]>, key: Seq<u8>) -> bool {
    exists|i: int| 0 <= i < keys.len() && keys[i]@ == key
}

pub struct ChunkCache {
    pub entries: Vec<CacheEntry>,
    pub total_size: u64,
    pub cache_limit: u64,
    pub next_recency: u64,
    pub reserved: Vec<[u8; 32]>,
    pub dirty: bool,
}

impl ChunkCache {
    pub open spec fn wf(&self) -> bool {
        let es = self.entries@;
        &&& entry_keys(es).no_duplicates()
        &&& self.total_size == total_bytes(es)
        &&& forall|j: int| 0 <= j < es.len() ==> (#[trigger] es[j]).key@ == blake3_of(es[j].data@)
        &&& forall|j: int| 0 <= j < es.len() ==> (#[trigger] es[j]).recency < self.next_recency
    }

    /// Within its limit, unless every chunk left is reserved.
    pub open spec fn within_limit(&self) -> bool {
        self.total_size <= self.cache_limit || forall|j: int|
            0 <= j < self.entries@.len() ==> is_reserved(self.reserved@, (#[trigger] self.entries@[j]).key@)
    }

    pub fn new(cache_limit: u64) -> (r: ChunkCache)
        ensures
            r.wf(),
            r.within_limit(),
            r.entries@.len() == 0,
            r.cache_limit == cache_limit,
            r.reserved@.len() == 0,
            !r.dirty,
            r.total_size == 0,
            r.next_recency == 0,
    {
        ChunkCache {
            entries: Vec::new(),
            total_size: 0,
            cache_limit,
            next_recency: 0,
            reserved: Vec::new(),
            dirty: false,
        }
    }

    pub fn len(&self) -> (r: usize)
        ensures
            r == self.entries@.len(),
    {
        self.entries.len()
    }

    pub fn total_size(&self) -> (r: u64)
        ensures
            r == self.total_size,
    {
        self.total_size
    }

    /// Notes that the cache holds content that has not been saved.
    pub fn mark_dirty(&mut self)
        ensures
            final(self).dirty,
            final(self).entries@ == old(self).entries@,
            final(self).total_size == old(self).total_size,
            final(self).cache_limit == old(self).cache_limit,
            final(self).next_recency == old(self).next_recency,
            final(self).reserved@ == old(self).reserved@,
    {
        self.dirty = true;
    }

    /// Where the cache holds `key`.
    pub fn position(&self, key: &[u8; 32]) -> (r: Option<usize>)
        requires
            self.wf(),
        ensures
            r is None <==> !entry_keys(self.entries@).contains(key@),
            r matches Some(j) ==> j < self.entries@.len() && self.entries@[j as int].key@ == key@
                && cached(self.entries@, key@) == Some(self.entries@[j as int].data@),
    {
        let mut j: usize = 0;
        while j < self.entries.len()
            invariant
                self.wf(),
                j <= self.entries@.len(),
                forall|k: int| 0 <= k < j ==> self.entries@[k].key@ != key@,
            decreases self.entries@.len() - j,
        {
            if keys_equal(&self.entries[j].key, key) {
                proof {
                    let ks = entry_keys(self.entries@);
                    assert(ks[j as int] == key@);
                    assert(ks.contains(key@));
                    let i = choose|i: int| 0 <= i < self.entries@.len() && self.entries@[i].key@ == key@;
                    assert(ks[i] == ks[j as int]);
                    if i != j as int {
                        assert(ks[i] != ks[j as int]);
                    }
                }
                return Some(j);
            }
            j = j + 1;
        }
        proof {
            let ks = entry_keys(self.entries@);
            if ks.contains(key@) {
                let i = choose|i: int| 0 <= i < ks.len() && ks[i] == key@;
                assert(self.entries@[i].key@ == key@);
            }
        }
        None
    }
}

/// `es` holds `key` with `data`.
pub open spec fn holds(es: Seq<CacheEntry>, key: Seq<u8>, data: Seq<u8>) -> bool {
    exists|j: int| 0 <= j < es.len() && (#[trigger] es[j]).key@ == key && es[j].data@ == data
}

/// Every chunk of `b` is held in `a`.
pub open spec fn held_in(b: Seq<CacheEntry>, a: Seq<CacheEntry>) -> bool {
    forall|j: int| 0 <= j < b.len() ==> holds(a, (#[trigger] b[j]).key@, b[j].data@)
}

/// `e` was evicted fairly with `rest` left: no batch had reserved it, and it
/// was no more recently used than any unreserved chunk that stays.
pub open spec fn evicted_fairly(e: CacheEntry, rest: Seq<CacheEntry>, reserved: Seq<[u8; 32]>) -> bool {
    &&& !is_reserved(reserved, e.key@)
    &&& forall|j: int| 0 <= j < rest.len() && !is_reserved(reserved, (#[trigger] rest[j]).key@) ==> e.recency <= rest[j].recency
}

/// `b` is `a` with other recencies.
pub open spec fn same_chunks(a: Seq<CacheEntry>, b: Seq<CacheEntry>) -> bool {
    &&& a.len() == b.len()
    &&& forall|j: int| 0 <= j < a.len() ==> (#[trigger] b[j]).key == a[j].key && b[j].data == a[j].data
}

impl ChunkCache {
    /// Whether an open batch has reserved `key`.
    pub fn is_key_reserved(&self, key: &[u8; 32]) -> (r: bool)
        ensures
            r == is_reserved(self.reserved@, key@),
    {
        let mut i: usize = 0;
        while i < self.reserved.len()
            invariant
                i <= self.reserved@.len(),
                forall|k: int| 0 <= k < i ==> self.reserved@[k]@ != key@,
            decreases self.reserved@.len() - i,
        {
            if keys_equal(&self.reserved[i], key) {
                return true;
            }
            i = i + 1;
        }
        false
    }

    /// Reserves `key` for an open batch: it is not evicted until released.
    pub fn reserve(&mut self, key: [u8; 32])
        ensures
            final(self).reserved@ == old(self).reserved@.push(key),
            final(self).entries@ == old(self).entries@,
            final(self).total_size == old(self).total_size,
            final(self).cache_limit == old(self).cache_limit,
            final(self).next_recency == old(self).next_recency,
            final(self).dirty == old(self).dirty,
            old(self).within_limit() ==> final(self).within_limit(),
            forall|k: Seq<u8>| is_reserved(old(self).reserved@, k) ==> is_reserved(final(self).reserved@, k),
    {
        let ghost r0 = self.reserved@;
        self.reserved.push(key);
        proof {
            assert forall|k: Seq<u8>| is_reserved(r0, k) implies is_reserved(self.reserved@, k) by {
                let i = choose|i: int| 0 <= i < r0.len() && r0[i]@ == k;
                assert(self.reserved@[i] == r0[i]);
            }
        }
    }

    /// Releases every reservation of `key`, then evicts as `insert` does
    /// while the total is over the limit.
    pub fn release(&mut self, key: &[u8; 32])
        requires
            old(self).wf(),
        ensures
            final(self).wf(),
            final(self).within_limit(),
            forall|k: Seq<u8>| is_reserved(final(self).reserved@, k) <==> (is_reserved(old(self).reserved@, k) && k != key@),
            forall|j: int| 0 <= j < final(self).entries@.len() ==> old(self).entries@.contains(#[trigger] final(self).entries@[j]),
            forall|i: int| 0 <= i < old(self).entries@.len() && !final(self).entries@.contains(#[trigger] old(self).entries@[i])
                ==> evicted_fairly(old(self).entries@[i], final(self).entries@, final(self).reserved@),
            old(self).total_size <= old(self).cache_limit ==> final(self).entries@ == old(self).entries@,
            final(self).total_size <= old(self).total_size,
            final(self).cache_limit == old(self).cache_limit,
            final(self).next_recency == old(self).next_recency,
            final(self).dirty == old(self).dirty,
    {
        let ghost r0 = self.reserved@;
        let mut kept: Vec<[u8; 32]> = Vec::new();
        let mut i: usize = 0;
        while i < self.reserved.len()
            invariant
                i <= r0.len(),
                self.reserved@ == r0,
                forall|k: Seq<u8>| is_reserved(kept@, k) <==> (is_reserved(r0.take(i as int), k) && k != key@),
            decreases r0.len() - i,
        {
            let k = self.reserved[i];
            let ghost before = kept@;
            if !keys_equal(&k, key) {
                kept.push(k);
            }
            proof {
                assert forall|x: Seq<u8>| is_reserved(kept@, x) <==> (is_reserved(r0.take(i + 1), x) && x != key@) by {
                    if is_reserved(kept@, x) {
                        let a = choose|a: int| 0 <= a < kept@.len() && (#[trigger] kept@[a])@ == x;
                        if a < before.len() {
                            assert(kept@[a] == before[a]);
                            assert(is_reserved(before, x));
                            let b = choose|b: int| 0 <= b < i && (#[trigger] r0.take(i as int)[b])@ == x;
                            assert(r0.take(i + 1)[b] == r0.take(i as int)[b]);
                        } else {
                            assert(r0.take(i + 1)[i as int] == k);
                        }
                    }
                    if is_reserved(r0.take(i + 1), x) && x != key@ {
                        let b = choose|b: int| 0 <= b < i + 1 && (#[trigger] r0.take(i + 1)[b])@ == x;
                        if b < i {
                            assert(r0.take(i as int)[b] == r0.take(i + 1)[b]);
                            assert(is_reserved(r0.take(i as int), x));
                            assert(is_reserved(before, x));
                            let a = choose|a: int| 0 <= a < before.len() && (#[trigger] before[a])@ == x;
                            assert(kept@[a] == before[a]);
                        } else {
                            assert(kept@[kept@.len() - 1] == k);
                        }
                    }
                }
            }
            i = i + 1;
        }
        assert(r0.take(i as int) =~= r0);
        self.reserved = kept;
        self.evict_to_limit();
    }

    /// The chunk under `key`, which becomes the most recently used.
    pub fn get(&mut self, key: &[u8; 32]) -> (r: Option<Vec<u8>>)
        requires
            old(self).wf(),
            old(self).next_recency < u64::MAX,
        ensures
            final(self).wf(),
            r is None <==> !entry_keys(old(self).entries@).contains(key@),
            r matches Some(d) ==> cached(old(self).entries@, key@) == Some(d@),
            r is Some ==> exists|j: int| 0 <= j < old(self).entries@.len() && (#[trigger] old(self).entries@[j]).key@ == key@
                && final(self).entries@ == old(self).entries@.update(j, CacheEntry {
                    key: old(self).entries@[j].key,
                    data: old(self).entries@[j].data,
                    recency: old(self).next_recency,
                }),
            r is Some ==> final(self).next_recency == old(self).next_recency + 1,
            r is None ==> *final(self) == *old(self),
            old(self).within_limit() ==> final(self).within_limit(),
            same_chunks(old(self).entries@, final(self).entries@),
            final(self).next_recency <= old(self).next_recency + 1,
            final(self).total_size == old(self).total_size,
            final(self).cache_limit == old(self).cache_limit,
            final(self).reserved@ == old(self).reserved@,
            final(self).dirty == old(self).dirty,
    {
        match self.position(key) {
            None => None,
            Some(j) => {
                let ghost es = self.entries@;
                let mut e = self.entries.remove(j);
                e.recency = self.next_recency;
                let d = slice_to_vec(e.data.as_slice(), 0, e.data.len());
                self.entries.insert(j, e);
                self.next_recency = self.next_recency + 1;
                proof {
                    assert(self.entries@ =~= es.update(j as int, e));
                    lemma_total_bytes_update(es, j as int, e);
                    assert(entry_keys(self.entries@) =~= entry_keys(es));
                    assert forall|k: int| 0 <= k < self.entries@.len() implies (#[trigger] self.entries@[k]).recency
                        < self.next_recency by {
                        if k != j as int {
                            assert(self.entries@[k] == es[k]);
                        }
                    }
                    assert forall|k: int| 0 <= k < self.entries@.len() implies (#[trigger] self.entries@[k]).key@
                        == blake3_of(self.entries@[k].data@) by {
                        if k != j as int {
                            assert(self.entries@[k] == es[k]);
                        }
                    }
                }
                Some(d)
            },
        }
    }

    /// Index of the least recently used chunk that no batch has reserved.
    pub fn least_recent_unreserved(&self) -> (r: Option<usize>)
        ensures
            r is None ==> forall|j: int| 0 <= j < self.entries@.len() ==> is_reserved(self.reserved@, (#[trigger] self.entries@[j]).key@),
            r matches Some(i) ==> i < self.entries@.len() && !is_reserved(self.reserved@, self.entries@[i as int].key@)
                && forall|j: int| 0 <= j < self.entries@.len() && !is_reserved(self.reserved@, (#[trigger] self.entries@[j]).key@)
                    ==> self.entries@[i as int].recency <= self.entries@[j].recency,
    {
        let mut best: Option<usize> = None;
        let mut j: usize = 0;
        while j < self.entries.len()
            invariant
                j <= self.entries@.len(),
                best is None ==> forall|k: int| 0 <= k < j ==> is_reserved(self.reserved@, (#[trigger] self.entries@[k]).key@),
                best matches Some(i) ==> i < j && !is_reserved(self.reserved@, self.entries@[i as int].key@)
                    && forall|k: int| 0 <= k < j && !is_reserved(self.reserved@, (#[trigger] self.entries@[k]).key@)
                        ==> self.entries@[i as int].recency <= self.entries@[k].recency,
            decreases self.entries@.len() - j,
        {
            if !self.is_key_reserved(&self.entries[j].key) {
                match best {
                    None => {
                        best = Some(j);
                    },
                    Some(i) => {
                        if self.entries[j].recency < self.entries[i].recency {
                            best = Some(j);
                        }
                    },
                }
            }
            j = j + 1;
        }
        best
    }

    /// Evicts least recently used chunks that no batch has reserved, one at
    /// a time, while the total is over the limit.
    pub fn evict_to_limit(&mut self)
        requires
            old(self).wf(),
        ensures
            final(self).wf(),
            final(self).within_limit(),
            forall|j: int| 0 <= j < final(self).entries@.len() ==> old(self).entries@.contains(#[trigger] final(self).entries@[j]),
            forall|i: int| 0 <= i < old(self).entries@.len() && !final(self).entries@.contains(#[trigger] old(self).entries@[i])
                ==> evicted_fairly(old(self).entries@[i], final(self).entries@, old(self).reserved@),
            old(self).total_size <= old(self).cache_limit ==> final(self).entries@ == old(self).entries@,
            final(self).entries@.len() < old(self).entries@.len() ==> exists|i: int| 0 <= i < old(self).entries@.len()
                && !final(self).entries@.contains(#[trigger] old(self).entries@[i])
                && final(self).total_size + old(self).entries@[i].data@.len() > final(self).cache_limit,
            final(self).cache_limit == old(self).cache_limit,
            final(self).next_recency == old(self).next_recency,
            final(self).reserved@ == old(self).reserved@,
            final(self).dirty == old(self).dirty,
            final(self).total_size <= old(self).total_size,
    {
        let ghost es0 = self.entries@;
        let ghost mut removed: Seq<CacheEntry> = seq![];
        let ghost mut last: int = 0;
        let mut evicting = true;
        while evicting && self.total_size > self.cache_limit
            invariant
                self.wf(),
                self.cache_limit == old(self).cache_limit,
                self.next_recency == old(self).next_recency,
                self.reserved@ == old(self).reserved@,
                self.dirty == old(self).dirty,
                es0 == old(self).entries@,
                old(self).total_size <= old(self).cache_limit ==> self.entries@ == es0 && self.total_size
                    == old(self).total_size,
                !evicting ==> forall|j: int| 0 <= j < self.entries@.len() ==> is_reserved(self.reserved@, (#[trigger] self.entries@[j]).key@),
                forall|j: int| 0 <= j < self.entries@.len() ==> es0.contains(#[trigger] self.entries@[j]),
                forall|i: int| 0 <= i < es0.len() ==> self.entries@.contains(#[trigger] es0[i]) || removed.contains(es0[i]),
                forall|r: int| 0 <= r < removed.len() ==> evicted_fairly(#[trigger] removed[r], self.entries@, self.reserved@),
                self.entries@.len() < es0.len() ==> 0 <= last < es0.len() && !self.entries@.contains(es0[last])
                    && self.total_size + es0[last].data@.len() > self.cache_limit,
                self.entries@.len() <= es0.len(),
                self.total_size <= old(self).total_size,
                entry_keys(self.entries@).no_duplicates(),
            decreases self.entries@.len() + if evicting { 1int } else { 0int },
        {
            match self.least_recent_unreserved() {
                None => {
                    evicting = false;
                },
                Some(i) => {
                    let ghost es = self.entries@;
                    let victim = self.entries.remove(i);
                    proof {
                        lemma_total_bytes_remove(es, i as int);
                        let cur = self.entries@;
                        assert(cur =~= es.remove(i as int));
                        assert(entry_keys(cur) =~= entry_keys(es).remove(i as int));
                        let ks = entry_keys(es);
                        assert forall|a: int, b: int| 0 <= a < b < cur.len() implies entry_keys(cur)[a] != entry_keys(cur)[b] by {
                            let a0 = if a < i { a } else { a + 1 };
                            let b0 = if b < i { b } else { b + 1 };
                            assert(ks[a0] != ks[b0]);
                        }
                        assert forall|j: int| 0 <= j < cur.len() implies ((#[trigger] cur[j]).recency < self.next_recency
                            && cur[j].key@ == blake3_of(cur[j].data@) && es0.contains(cur[j])) by {
                            let j0 = if j < i { j } else { j + 1 };
                            assert(cur[j] == es[j0]);
                        }
                        assert(!cur.contains(es[i as int])) by {
                            if cur.contains(es[i as int]) {
                                let t = choose|t: int| 0 <= t < cur.len() && cur[t] == es[i as int];
                                let t0 = if t < i { t } else { t + 1 };
                                assert(es[t0] == es[i as int]);
                                assert(ks[t0] == ks[i as int]);
                            }
                        }
                        let removed2 = removed.push(es[i as int]);
                        assert forall|a: int| 0 <= a < es0.len() implies cur.contains(#[trigger] es0[a]) || removed2.contains(es0[a]) by {
                            if es.contains(es0[a]) {
                                let t = choose|t: int| 0 <= t < es.len() && es[t] == es0[a];
                                if t == i as int {
                                    assert(removed2[removed.len() as int] == es0[a]);
                                } else {
                                    let t1 = if t < i { t } else { t - 1 };
                                    assert(cur[t1] == es0[a]);
                                }
                            } else {
                                let t = choose|t: int| 0 <= t < removed.len() && removed[t] == es0[a];
                                assert(removed2[t] == es0[a]);
                            }
                        }
                        assert forall|r: int| 0 <= r < removed2.len() implies evicted_fairly(#[trigger] removed2[r], cur, self.reserved@) by {
                            let e = removed2[r];
                            assert forall|j: int| 0 <= j < cur.len() && !is_reserved(self.reserved@, (#[trigger] cur[j]).key@)
                                implies e.recency <= cur[j].recency by {
                                let j0 = if j < i { j } else { j + 1 };
                                assert(cur[j] == es[j0]);
                                if r < removed.len() {
                                    assert(removed2[r] == removed[r]);
                                    assert(evicted_fairly(removed[r], es, self.reserved@));
                                }
                            }
                        }
                        let vi = choose|vi: int| 0 <= vi < es0.len() && es0[vi] == es[i as int];
                        assert(es0[vi] == es[i as int]);
                        removed = removed2;
                        last = vi;
                    }
                    self.total_size = self.total_size - victim.data.len() as u64;
                    proof {
                        assert(!self.entries@.contains(es0[last]));
                    }
                },
            }
        }
        proof {
            assert forall|i: int| 0 <= i < es0.len() && !self.entries@.contains(#[trigger] es0[i])
                implies evicted_fairly(es0[i], self.entries@, self.reserved@) by {
                assert(removed.contains(es0[i]));
                let r = choose|r: int| 0 <= r < removed.len() && removed[r] == es0[i];
                assert(evicted_fairly(removed[r], self.entries@, self.reserved@));
            }
        }
    }

    /// Adds a chunk under its key (or marks the one already there as used),
    /// then evicts least recently used chunks that no batch has reserved
    /// while the total is over the limit. The new chunk stays unless every
    /// chunk left is reserved.
    pub fn insert(&mut self, key: [u8; 32], data: Vec<u8>)
        requires
            old(self).wf(),
            old(self).within_limit(),
            key@ == blake3_of(data@),
            old(self).total_size + data@.len() <= u64::MAX,
            old(self).next_recency < u64::MAX,
        ensures
            final(self).wf(),
            final(self).within_limit(),
            final(self).cache_limit == old(self).cache_limit,
            final(self).reserved@ == old(self).reserved@,
            final(self).dirty == old(self).dirty,
            final(self).next_recency == old(self).next_recency + 1,
            final(self).total_size <= old(self).total_size + data@.len(),
            entry_keys(old(self).entries@).contains(key@) ==> same_chunks(old(self).entries@, final(self).entries@)
                && final(self).total_size == old(self).total_size,
            !entry_keys(old(self).entries@).contains(key@) ==> ({
                let added = old(self).entries@.push(CacheEntry { key, data, recency: old(self).next_recency });
                &&& forall|j: int| 0 <= j < final(self).entries@.len() ==> added.contains(#[trigger] final(self).entries@[j])
                &&& forall|i: int| 0 <= i < added.len() && !final(self).entries@.contains(#[trigger] added[i])
                    ==> evicted_fairly(added[i], final(self).entries@, old(self).reserved@)
                &&& (holds(final(self).entries@, key@, data@) || forall|j: int| 0 <= j < final(self).entries@.len()
                    ==> is_reserved(old(self).reserved@, (#[trigger] final(self).entries@[j]).key@))
                &&& (old(self).total_size + data@.len() <= old(self).cache_limit ==> final(self).entries@ == added)
                &&& (final(self).entries@.len() < added.len() ==> exists|i: int| 0 <= i < added.len()
                    && !final(self).entries@.contains(#[trigger] added[i])
                    && final(self).total_size + added[i].data@.len() > final(self).cache_limit)
            }),
    {
        match self.position(&key) {
            Some(_) => {
                let _ = self.get(&key);
            },
            None => {
                let ghost es0 = self.entries@;
                let n = data.len() as u64;
                let e = CacheEntry { key, data, recency: self.next_recency };
                let ghost ev = e;
                self.entries.push(e);
                self.total_size = self.total_size + n;
                self.next_recency = self.next_recency + 1;
                proof {
                    assert(self.entries@.drop_last() =~= es0);
                    assert(entry_keys(self.entries@) =~= entry_keys(es0).push(key@));
                    assert forall|j: int| 0 <= j < self.entries@.len() implies (#[trigger] self.entries@[j]).recency
                        < self.next_recency && self.entries@[j].key@ == blake3_of(self.entries@[j].data@) by {
                        if j < es0.len() {
                            assert(self.entries@[j] == es0[j]);
                        }
                    }
                }
                let ghost added = self.entries@;
                self.evict_to_limit();
                proof {
                    let fin = self.entries@;
                    assert(added[es0.len() as int] == ev);
                    if !fin.contains(ev) {
                        assert(evicted_fairly(added[es0.len() as int], fin, self.reserved@));
                        assert forall|j: int| 0 <= j < fin.len() implies is_reserved(self.reserved@, (#[trigger] fin[j]).key@) by {
                            assert(added.contains(fin[j]));
                            let t = choose|t: int| 0 <= t < added.len() && added[t] == fin[j];
                            if t == es0.len() {
                                assert(fin.contains(ev));
                            } else {
                                assert(added[t] == es0[t]);
                            }
                        }
                    } else {
                        let t = choose|t: int| 0 <= t < fin.len() && fin[t] == ev;
                        assert(fin[t].key@ == key@ && fin[t].data@ == ev.data@);
                    }
                }
            },
        }
    }
}

/// Removing entry `i` takes its bytes off the total.
pub proof fn lemma_total_bytes_remove(es: Seq<CacheEntry>, i: int)
    requires
        0 <= i < es.len(),
    ensures
        total_bytes(es.remove(i)) + es[i].data@.len() == total_bytes(es),
    decreases es.len(),
{
    if i == es.len() - 1 {
        assert(es.remove(i) =~= es.drop_last());
    } else {
        lemma_total_bytes_remove(es.drop_last(), i);
        assert(es.remove(i).drop_last() =~= es.drop_last().remove(i));
        assert(es.remove(i).last() == es.last());
    }
}

/// Changing an entry's recency keeps the total.
pub proof fn lemma_total_bytes_update(es: Seq<CacheEntry>, i: int, e: CacheEntry)
    requires
        0 <= i < es.len(),
        e.data@.len() == es[i].data@.len(),
    ensures
        total_bytes(es.update(i, e)) == total_bytes(es),
    decreases es.len(),
{
    if i == es.len() - 1 {
        assert(es.update(i, e).drop_last() =~= es.drop_last());
    } else {
        lemma_total_bytes_update(es.drop_last(), i, e);
        assert(es.update(i, e).drop_last() =~= es.drop_last().update(i, e));
    }
}

/// First bytes of a saved cache: its name and format version.
pub open spec fn cache_magic() -> Seq<u8> {
    seq![
        0x66u8, 0x61, 0x63, 0x74, 0x6f, 0x72, 0x69, 0x6f, 0x2d, 0x63, 0x61, 0x63, 0x68, 0x65, 0x00,
        0x01,
    ]
}

/// A saved chunk: its key, its length, its bytes.
pub open spec fn entry_record(e: CacheEntry) -> Seq<u8> {
    e.key@ + varint_bytes(e.data@.len() as u64) + e.data@
}

/// The saved chunks one after another.
pub open spec fn records(es: Seq<CacheEntry>) -> Seq<u8>
    decreases es.len(),
{
    if es.len() == 0 {
        seq![]
    } else {
        records(es.drop_last()) + entry_record(es.last())
    }
}

/// A saved cache: the magic, the chunks, and the CRC-32 of all that.
pub open spec fn cache_file(es: Seq<CacheEntry>) -> Seq<u8> {
    let body = cache_magic() + records(es);
    body + u32_le(crc32(body))
}

fn push_magic(out: &mut Vec<u8>)
    ensures
        final(out)@ == old(out)@ + cache_magic(),
{
    out.push(0x66);
    out.push(0x61);
    out.push(0x63);
    out.push(0x74);
    out.push(0x6f);
    out.push(0x72);
    out.push(0x69);
    out.push(0x6f);
    out.push(0x2d);
    out.push(0x63);
    out.push(0x61);
    out.push(0x63);
    out.push(0x68);
    out.push(0x65);
    out.push(0x00);
    out.push(0x01);
    assert(final(out)@ =~= old(out)@ + cache_magic());
}

/// `a` holds the same chunks as `b`, in the same order.
pub open spec fn same_content(a: Seq<CacheEntry>, b: Seq<CacheEntry>) -> bool {
    &&& a.len() == b.len()
    &&& forall|j: int| 0 <= j < a.len() ==> (#[trigger] a[j]).key == b[j].key && a[j].data@ == b[j].data@
}

/// `bytes` are a saved cache of the chunks `es`, which a cache with limit
/// `limit` can hold.
pub open spec fn saved_from(bytes: Seq<u8>, es: Seq<CacheEntry>, limit: u64) -> bool {
    &&& bytes == cache_file(es)
    &&& entry_keys(es).no_duplicates()
    &&& forall|j: int| 0 <= j < es.len() ==> (#[trigger] es[j]).key@ == blake3_of(es[j].data@)
    &&& forall|j: int| 0 <= j < es.len() ==> (#[trigger] es[j]).data@.len() <= VARINT_MAX
    &&& total_bytes(es) <= limit
    &&& es.len() < u64::MAX
}

/// Loading `bytes`, saved from `es`, has reached `pos` with the first
/// chunks of `es` in `cache`.
pub open spec fn loading(bytes: Seq<u8>, es: Seq<CacheEntry>, pos: int, cache: ChunkCache) -> bool {
    let k = cache.entries@.len() as int;
    &&& k <= es.len()
    &&& same_content(cache.entries@, es.take(k))
    &&& pos == 16 + records(es.take(k)).len()
    &&& cache.total_size == total_bytes(es.take(k))
    &&& cache.next_recency == k
}

pub proof fn lemma_records_split(es: Seq<CacheEntry>, k: int)
    requires
        0 <= k <= es.len(),
    ensures
        records(es) == records(es.take(k)) + records(es.skip(k)),
    decreases es.len(),
{
    if k == es.len() {
        assert(es.take(k) =~= es);
        assert(es.skip(k) =~= Seq::<CacheEntry>::empty());
        assert(records(es) + records(Seq::<CacheEntry>::empty()) =~= records(es));
    } else {
        let dl = es.drop_last();
        lemma_records_split(dl, k);
        assert(dl.take(k) =~= es.take(k));
        assert(es.skip(k).drop_last() =~= dl.skip(k));
        assert(es.skip(k).last() == es.last());
        assert(records(es) =~= records(es.take(k)) + records(es.skip(k)));
    }
}

pub proof fn lemma_total_prefix(es: Seq<CacheEntry>, k: int)
    requires
        0 <= k <= es.len(),
    ensures
        total_bytes(es.take(k)) <= total_bytes(es),
    decreases es.len() - k,
{
    if k < es.len() {
        lemma_total_prefix(es, k + 1);
        assert(es.take(k + 1).drop_last() =~= es.take(k));
    } else {
        assert(es.take(k) =~= es);
    }
}

/// The bytes at `pos` are the saved form of chunk `k` of `es`, and what
/// follows it lies before the trailer at `end`.
pub open spec fn record_at(bytes: Seq<u8>, es: Seq<CacheEntry>, pos: int, k: int) -> bool {
    let e = es[k];
    let vb = varint_bytes(e.data@.len() as u64);
    &&& 0 <= k < es.len()
    &&& pos + 32 + vb.len() + e.data@.len() <= bytes.len() - 4
    &&& bytes.subrange(pos, pos + 32) == e.key@
    &&& varint_decode(bytes.subrange(pos + 32, bytes.len() as int)) == Some((e.data@.len() as u64, vb.len()))
    &&& bytes.subrange(pos + 32 + vb.len(), pos + 32 + vb.len() + e.data@.len()) == e.data@
    &&& pos + 32 + vb.len() + e.data@.len() == 16 + records(es.take(k + 1)).len()
}

#[verifier::rlimit(100)]
pub proof fn lemma_record_at(bytes: Seq<u8>, es: Seq<CacheEntry>, pos: int, k: int, end: int)
    requires
        bytes == cache_file(es),
        forall|j: int| 0 <= j < es.len() ==> (#[trigger] es[j]).data@.len() <= VARINT_MAX,
        0 <= k <= es.len(),
        pos == 16 + records(es.take(k)).len(),
        end == bytes.len() - 4,
        pos < end,
    ensures
        record_at(bytes, es, pos, k),
{
    lemma_records_split(es, k);
    if k == es.len() {
        assert(es.skip(k) =~= Seq::<CacheEntry>::empty());
        assert(es.take(k) =~= es);
    }
    let rest = es.skip(k);
    lemma_records_split(rest, 1);
    assert(rest.take(1).drop_last() =~= Seq::<CacheEntry>::empty());
    assert(rest.take(1).last() == es[k]);
    let e = es[k];
    assert(records(rest.take(1)) == records(rest.take(1).drop_last()) + entry_record(rest.take(1).last()));
    assert(records(rest.take(1)) =~= e.key@ + varint_bytes(e.data@.len() as u64) + e.data@);
    assert(e.key@.len() == 32);
    let vb = varint_bytes(e.data@.len() as u64);
    let body = cache_magic() + records(es);
    let r0 = records(es.take(k));
    let r2 = records(rest.skip(1));
    let tr = u32_le(crc32(body));
    let after = r2 + tr;
    assert(records(rest) == records(rest.take(1)) + r2);
    assert(records(es) == r0 + (e.key@ + vb + e.data@) + r2);
    assert(bytes == cache_magic() + (r0 + (e.key@ + vb + e.data@) + r2) + tr);
    assert(bytes =~= cache_magic() + r0 + e.key@ + vb + e.data@ + after);
    assert(bytes.subrange(pos, pos + 32) =~= e.key@);
    assert(bytes.subrange(pos + 32, bytes.len() as int) =~= vb + (e.data@ + after));
    crate::framing::lemma_varint_round_trip(e.data@.len() as u64, e.data@ + after);
    assert(bytes.subrange(pos + 32 + vb.len(), pos + 32 + vb.len() + e.data@.len()) =~= e.data@);
    lemma_records_split(es.take(k + 1), k);
    assert(es.take(k + 1).take(k) =~= es.take(k));
    assert(es.take(k + 1).skip(k) =~= seq![e]);
    assert(seq![e].drop_last() =~= Seq::<CacheEntry>::empty());
    assert(records(seq![e]) == records(Seq::<CacheEntry>::empty()) + entry_record(e));
    assert(records(Seq::<CacheEntry>::empty()) + entry_record(e) =~= entry_record(e));
}

/// Chunk `k` of `es` is not among the chunks before it.
pub proof fn lemma_fresh_key(es: Seq<CacheEntry>, k: int, loaded: Seq<CacheEntry>)
    requires
        0 <= k < es.len(),
        entry_keys(es).no_duplicates(),
        same_content(loaded, es.take(k)),
    ensures
        !entry_keys(loaded).contains(es[k].key@),
{
    if entry_keys(loaded).contains(es[k].key@) {
        let t = choose|t: int| 0 <= t < entry_keys(loaded).len() && entry_keys(loaded)[t] == es[k].key@;
        assert(loaded[t].key == es[t].key);
        assert(entry_keys(es)[t] == entry_keys(es)[k]);
    }
}

impl ChunkCache {
    /// The cache as bytes, to be written to its file.
    pub fn save(&self) -> (r: Vec<u8>)
        requires
            forall|j: int| 0 <= j < self.entries@.len() ==> (#[trigger] self.entries@[j]).data@.len() <= VARINT_MAX,
        ensures
            r@ == cache_file(self.entries@),
    {
        let mut out: Vec<u8> = Vec::new();
        push_magic(&mut out);
        let mut i: usize = 0;
        while i < self.entries.len()
            invariant
                i <= self.entries@.len(),
                forall|j: int| 0 <= j < self.entries@.len() ==> (#[trigger] self.entries@[j]).data@.len() <= VARINT_MAX,
                out@ == cache_magic() + records(self.entries@.take(i as int)),
            decreases self.entries@.len() - i,
        {
            let e = &self.entries[i];
            assert(self.entries@.take(i + 1).drop_last() =~= self.entries@.take(i as int));
            assert(e.data@.len() <= VARINT_MAX);
            extend_bytes(&mut out, e.key.as_slice());
            encode_varint(e.data.len() as u64, &mut out);
            extend_bytes(&mut out, e.data.as_slice());
            i = i + 1;
            assert(out@ =~= cache_magic() + records(self.entries@.take(i as int)));
        }
        assert(self.entries@.take(i as int) =~= self.entries@);
        let crc = crc32_of(out.as_slice());
        push_u32_le(crc, &mut out);
        out
    }

    /// Rebuilds a cache with limit `cache_limit` from a saved one; `None`
    /// where the bytes are cut short, damaged, or hold a chunk that is not
    /// the one its key names.
    pub fn load(bytes: &[u8], cache_limit: u64) -> (r: Option<ChunkCache>)
        ensures
            r matches Some(c) ==> c.wf() && c.within_limit() && c.cache_limit == cache_limit
                && c.reserved@.len() == 0 && !c.dirty,
            forall|es: Seq<CacheEntry>|
                saved_from(bytes@, es, cache_limit) ==> (r matches Some(c) && same_content(c.entries@, es)),
            bytes@.len() < 20 ==> r is None,
            bytes@.len() >= 20 && bytes@.take(16) != cache_magic() ==> r is None,
            bytes@.len() >= 20 && crc32(bytes@.take(bytes@.len() - 4)) != u32_from_le(
                bytes@.subrange(bytes@.len() - 4, bytes@.len() as int),
            ) ==> r is None,
    {
        let n = bytes.len();
        if n < 20 {
            proof {
                assert forall|es: Seq<CacheEntry>| saved_from(bytes@, es, cache_limit) implies false by {
                    assert(cache_file(es).len() >= 20);
                }
            }
            return None;
        }
        let mut magic: Vec<u8> = Vec::new();
        push_magic(&mut magic);
        assert(magic@ =~= cache_magic());
        let mut k: usize = 0;
        while k < 16
            invariant
                k <= 16,
                n == bytes@.len(),
                n >= 20,
                magic@ == cache_magic(),
                forall|j: int| 0 <= j < k ==> bytes@[j] == cache_magic()[j],
            decreases 16 - k,
        {
            if bytes[k] != magic[k] {
                proof {
                    assert forall|es: Seq<CacheEntry>| saved_from(bytes@, es, cache_limit) implies false by {
                        assert(bytes@[k as int] == cache_file(es)[k as int]);
                    }
                }
                return None;
            }
            k = k + 1;
        }
        assert(bytes@.take(16) =~= cache_magic());
        let end = n - 4;
        let body = slice_to_vec(bytes, 0, end);
        assert(body@ =~= bytes@.take(end as int));
        if crc32_of(body.as_slice()) != read_u32_le(bytes, end) {
            proof {
                assert forall|es: Seq<CacheEntry>| saved_from(bytes@, es, cache_limit) implies false by {
                    let bd = cache_magic() + records(es);
                    assert(body@ =~= bd);
                    assert(bytes@.subrange(end as int, end + 4) =~= u32_le(crc32(bd)));
                    crate::framing::lemma_u32_le_round_trip(crc32(bd));
                }
            }
            return None;
        }
        let mut cache = ChunkCache::new(cache_limit);
        let mut pos: usize = 16;
        proof {
            assert forall|es: Seq<CacheEntry>| saved_from(bytes@, es, cache_limit) implies loading(bytes@, es, pos as int, cache) by {
                assert(es.take(0) =~= Seq::<CacheEntry>::empty());
                assert(cache.entries@ =~= Seq::<CacheEntry>::empty());
            }
        }
        while pos < end
            invariant
                forall|es: Seq<CacheEntry>| saved_from(bytes@, es, cache_limit) ==> loading(bytes@, es, pos as int, cache),
                n == bytes@.len(),
                end == n - 4,
                16 <= pos <= end,
                cache.wf(),
                cache.within_limit(),
                cache.cache_limit == cache_limit,
                cache.reserved@.len() == 0,
                !cache.dirty,
            decreases end - pos,
        {
            let ghost k = cache.entries@.len() as int;
            let ghost record_start = pos;
            proof {
                assert forall|es: Seq<CacheEntry>| saved_from(bytes@, es, cache_limit) implies record_at(bytes@, es, pos as int, k) by {
                    lemma_record_at(bytes@, es, pos as int, k, end as int);
                }
            }
            if end - pos < 32 {
                proof {
                    assert forall|es: Seq<CacheEntry>| saved_from(bytes@, es, cache_limit) implies false by {
                        assert(record_at(bytes@, es, pos as int, k));
                    }
                }
                return None;
            }
            let key = read_key(bytes, pos);
            let (len, m) = match decode_varint_at(bytes, pos + 32) {
                Some(x) => x,
                None => {
                    proof {
                        assert forall|es: Seq<CacheEntry>| saved_from(bytes@, es, cache_limit) implies false by {
                            assert(record_at(bytes@, es, pos as int, k));
                        }
                    }
                    return None;
                },
            };
            let start = pos + 32 + m;
            if start > end || len > (end - start) as u64 {
                proof {
                    assert forall|es: Seq<CacheEntry>| saved_from(bytes@, es, cache_limit) implies false by {
                        assert(record_at(bytes@, es, pos as int, k));
                    }
                }
                return None;
            }
            let data = slice_to_vec(bytes, start, start + len as usize);
            if !chunk_matches_key(&key, data.as_slice()) {
                proof {
                    assert forall|es: Seq<CacheEntry>| saved_from(bytes@, es, cache_limit) implies false by {
                        assert(record_at(bytes@, es, pos as int, k));
                        assert(key@ =~= es[k].key@);
                        assert(data@ =~= es[k].data@);
                    }
                }
                return None;
            }
            if cache.position(&key).is_some() {
                proof {
                    assert forall|es: Seq<CacheEntry>| saved_from(bytes@, es, cache_limit) implies false by {
                        assert(record_at(bytes@, es, pos as int, k));
                        assert(key@ =~= es[k].key@);
                        lemma_fresh_key(es, k, cache.entries@);
                    }
                }
                return None;
            }
            if cache.total_size > u64::MAX - len || cache.next_recency == u64::MAX {
                proof {
                    assert forall|es: Seq<CacheEntry>| saved_from(bytes@, es, cache_limit) implies false by {
                        assert(record_at(bytes@, es, pos as int, k));
                        assert(data@ =~= es[k].data@);
                        lemma_total_prefix(es, k + 1);
                        assert(es.take(k + 1).drop_last() =~= es.take(k));
                    }
                }
                return None;
            }
            let ghost c0 = cache;
            cache.insert(key, data);
            pos = start + len as usize;
            proof {
                assert forall|es: Seq<CacheEntry>| saved_from(bytes@, es, cache_limit) implies loading(bytes@, es, pos as int, cache) by {
                    assert(record_at(bytes@, es, record_start as int, k));
                    assert(key@ =~= es[k].key@);
                    assert(data@ =~= es[k].data@);
                    lemma_fresh_key(es, k, c0.entries@);
                    lemma_total_prefix(es, k + 1);
                    assert(es.take(k + 1).drop_last() =~= es.take(k));
                    assert(es.take(k + 1).last() == es[k]);
                    assert(c0.total_size + data@.len() <= c0.cache_limit);
                    assert(cache.entries@.drop_last() =~= c0.entries@);
                    assert(cache.entries@.len() == k + 1);
                    assert forall|j: int| 0 <= j < k + 1 implies (#[trigger] cache.entries@[j]).key == es.take(k + 1)[j].key
                        && cache.entries@[j].data@ == es.take(k + 1)[j].data@ by {
                        if j < k {
                            assert(cache.entries@[j] == c0.entries@[j]);
                        } else {
                            assert(es[k].key@ == key@);
                            assert(es[k].key =~= key);
                        }
                    }
                }
            }
        }
        proof {
            assert forall|es: Seq<CacheEntry>| saved_from(bytes@, es, cache_limit) implies (same_content(cache.entries@, es)) by {
                let k = cache.entries@.len() as int;
                if k < es.len() {
                    lemma_records_split(es, k);
                    let sk = es.skip(k);
                    assert(records(sk) == records(sk.drop_last()) + entry_record(sk.last()));
                    assert(sk.last().key@.len() == 32);
                    assert(false);
                }
                assert(es.take(k) =~= es);
            }
        }
        Some(cache)
    }
}

/// What a cache within its limit saves is what loading with that limit
/// gives back chunk for chunk (see `ChunkCache::load`).
pub proof fn lemma_save_then_load(c: ChunkCache)
    requires
        c.wf(),
        c.total_size <= c.cache_limit,
        forall|j: int| 0 <= j < c.entries@.len() ==> (#[trigger] c.entries@[j]).data@.len() <= VARINT_MAX,
        c.entries@.len() < u64::MAX,
    ensures
        saved_from(cache_file(c.entries@), c.entries@, c.cache_limit),
{
}

} // verus!
