//! Deduplication of a world into content-addressed chunks, and the way back:
//! the world rebuilt from its manifest and a store of chunks. Each record of
//! the world's archive is chunked on its own.
use vstd::prelude::*;
use crate::archive::{
    archive_entries, lemma_world_chunks_cover, next_record, record_name_end, world_chunks, world_spans,
};
use crate::chunker::{chunk_spans_in, chunks_of};
use crate::chunker::concat;
use crate::crc::{crc32, crc32_of};
use crate::framing::{extend_bytes, slice_to_vec};

verus! {

/// The BLAKE3 digest of `data`.
pub uninterp spec fn blake3_of(data: Seq<u8>) -> Seq<u8>;

/// Relies on `blake3::hash`: the 32-byte BLAKE3 digest, which depends on
/// the input bytes alone.
#[verifier::external_body]
fn blake3_digest(data: &[u8]) -> (r: [u8; 32])
    ensures
        r@ == blake3_of(data@),
{
    *blake3::hash(data).as_bytes()
}

/// A chunk with its key, the BLAKE3 digest of its bytes.
pub struct ChunkEntry {
    pub key: [u8; 32],
    pub data: Vec<u8>,
}

/// The key of a chunk.
pub fn chunk_key(data: &[u8]) -> (r: [u8; 32])
    ensures
        r@ == blake3_of(data@),
{
    blake3_digest(data)
}

/// Whether `data` is the chunk that `key` names.
pub fn chunk_matches_key(key: &[u8; 32], data: &[u8]) -> (r: bool)
    ensures
        r == (key@ == blake3_of(data@)),
{
    let k = blake3_digest(data);
    keys_equal(key, &k)
}

/// Whether two keys are equal.
pub fn keys_equal(a: &[u8; 32], b: &[u8; 32]) -> (r: bool)
    ensures
        r == (a@ == b@),
{
    let mut i: usize = 0;
    while i < 32
        invariant
            i <= 32,
            a@.len() == 32,
            b@.len() == 32,
            forall|j: int| 0 <= j < i ==> a@[j] == b@[j],
        decreases 32 - i,
    {
        if a[i] != b[i] {
            return false;
        }
        i = i + 1;
    }
    assert(a@ =~= b@);
    true
}

/// Keys of `store` in order.
pub open spec fn store_keys(store: Seq<ChunkEntry>) -> Seq<Seq<u8>> {
    store.map_values(|e: ChunkEntry| e.key@)
}

/// A store of chunks holds each key once, each with the chunk it names.
pub open spec fn store_wf(store: Seq<ChunkEntry>) -> bool {
    &&& store_keys(store).no_duplicates()
    &&& forall|j: int| 0 <= j < store.len() ==> (#[trigger] store[j]).key@ == blake3_of(store[j].data@)
}

/// The bytes that `store` holds under `key`.
pub open spec fn lookup(store: Seq<ChunkEntry>, key: Seq<u8>) -> Option<Seq<u8>> {
    if store_keys(store).contains(key) {
        let j = choose|j: int| 0 <= j < store.len() && store[j].key@ == key;
        Some(store[j].data@)
    } else {
        None
    }
}

/// Where `store` holds `key`.
pub fn find_key(store: &Vec<ChunkEntry>, key: &[u8; 32]) -> (r: Option<usize>)
    requires
        store_keys(store@).no_duplicates(),
    ensures
        r is None <==> !store_keys(store@).contains(key@),
        r matches Some(j) ==> j < store@.len() && store@[j as int].key@ == key@ && lookup(store@, key@)
            == Some(store@[j as int].data@),
{
    let mut j: usize = 0;
    while j < store.len()
        invariant
            j <= store@.len(),
            store_keys(store@).no_duplicates(),
            forall|k: int| 0 <= k < j ==> store@[k].key@ != key@,
        decreases store@.len() - j,
    {
        if keys_equal(&store[j].key, key) {
            proof {
                let ks = store_keys(store@);
                assert(ks[j as int] == key@);
                assert(ks.contains(key@));
                let i = choose|i: int| 0 <= i < store@.len() && store@[i].key@ == key@;
                assert(ks[i] == key@);
                assert(ks[i] == ks[j as int]);
                assert(ks.no_duplicates());
                if i != j as int {
                    assert(ks[i] != ks[j as int]);
                }
            }
            return Some(j);
        }
        j = j + 1;
    }
    proof {
        let ks = store_keys(store@);
        if ks.contains(key@) {
            let i = choose|i: int| 0 <= i < ks.len() && ks[i] == key@;
            assert(store@[i].key@ == key@);
        }
    }
    None
}

/// One file of the world's archive: its name, the length of its payload,
/// and the keys of the chunks of its payload, in order.
pub struct FileDescriptor {
    pub file_name: Vec<u8>,
    pub size: u32,
    pub content_chunks: Vec<[u8; 32]>,
}

/// `f` describes the file named `name` whose payload is `payload`.
pub open spec fn describes(f: FileDescriptor, name: Seq<u8>, payload: Seq<u8>) -> bool {
    &&& f.file_name@ == name
    &&& f.size == payload.len()
    &&& keys_view(f.content_chunks@) == chunks_of(payload).map_values(|c: Seq<u8>| blake3_of(c))
}

/// Manifest of a deduplicated world: its files, the keys of all its chunks
/// in the order that rebuilds it (record headers included), its size, and
/// the CRC-32 the rebuilt world has.
pub struct WorldDescription {
    pub files: Vec<FileDescriptor>,
    pub content_chunks: Vec<[u8; 32]>,
    pub original_world_size: u32,
    pub world_size: u32,
    pub reconstructed_crc: u32,
}

/// Keys of a manifest as byte sequences.
pub open spec fn keys_view(keys: Seq<[u8; 32]>) -> Seq<Seq<u8>> {
    keys.map_values(|k: [u8; 32]| k@)
}

/// `d` is one of `cs`.
pub open spec fn is_one_of(cs: Seq<Seq<u8>>, d: Seq<u8>) -> bool {
    exists|k: int| 0 <= k < cs.len() && cs[k] == d
}

/// What deduplicating `world` gives: a manifest of the keys of its chunks,
/// and a store that holds exactly those chunks, each once.
pub open spec fn is_deconstruction(world: Seq<u8>, desc: WorldDescription, store: Seq<ChunkEntry>) -> bool {
    let cs = world_chunks(world);
    &&& keys_view(desc.content_chunks@) == cs.map_values(|c: Seq<u8>| blake3_of(c))
    &&& store_wf(store)
    &&& forall|i: int| 0 <= i < cs.len() ==> store_keys(store).contains(blake3_of(#[trigger] cs[i]))
    &&& forall|j: int| 0 <= j < store.len() ==> is_one_of(cs, (#[trigger] store[j]).data@)
    &&& desc.files@.len() == archive_entries(world, 0).len()
    &&& forall|i: int| 0 <= i < desc.files@.len() ==> describes(
        #[trigger] desc.files@[i],
        archive_entries(world, 0)[i].0,
        archive_entries(world, 0)[i].1,
    )
    &&& desc.world_size == world.len()
    &&& desc.original_world_size == world.len()
    &&& desc.reconstructed_crc == crc32(world)
}

/// Splits `world` into chunks, record by record of its archive, keyed by
/// their digest, each chunk stored once.
pub fn deconstruct_world(world: &[u8]) -> (r: (WorldDescription, Vec<ChunkEntry>))
    requires
        world@.len() <= u32::MAX,
    ensures
        is_deconstruction(world@, r.0, r.1@),
{
    let spans = world_spans(world);
    let ghost cs = world_chunks(world@);
    let mut keys: Vec<[u8; 32]> = Vec::new();
    let mut store: Vec<ChunkEntry> = Vec::new();
    let mut i: usize = 0;
    let wl = world.len();
    assert(keys_view(keys@) =~= cs.take(0).map_values(|c: Seq<u8>| blake3_of(c)));
    assert(store_keys(store@) =~= seq![]);
    while i < spans.len()
        invariant
            wl == world@.len(),
            cs == world_chunks(world@),
            i <= spans@.len(),
            spans@.len() == cs.len(),
            forall|k: int|
                0 <= k < spans@.len() ==> (#[trigger] spans@[k]).0 + spans@[k].1 <= world@.len() && world@.subrange(
                    spans@[k].0 as int,
                    spans@[k].0 + spans@[k].1,
                ) == world_chunks(world@)[k],
            keys_view(keys@) == cs.take(i as int).map_values(|c: Seq<u8>| blake3_of(c)),
            store_wf(store@),
            forall|k: int| 0 <= k < i ==> store_keys(store@).contains(blake3_of(#[trigger] cs[k])),
            forall|j: int| 0 <= j < store@.len() ==> is_one_of(cs, (#[trigger] store@[j]).data@),
        decreases spans@.len() - i,
    {
        let (off, len) = spans[i];
        let data = slice_to_vec(world, off, off + len);
        let key = blake3_digest(data.as_slice());
        assert(data@ == cs[i as int]);
        let ghost old_keys = keys@;
        keys.push(key);
        assert(keys_view(keys@) =~= keys_view(old_keys).push(key@));
        assert(cs.take(i + 1) =~= cs.take(i as int).push(cs[i as int]));
        assert(keys_view(keys@) =~= cs.take(i + 1).map_values(|c: Seq<u8>| blake3_of(c)));
        let ghost old_store = store@;
        let ghost data_view = data@;
        insert_chunk(&mut store, key, data);
        proof {
            if store_keys(old_store).contains(key@) {
                assert(store@ == old_store);
            } else {
                let e = store@[old_store.len() as int];
                assert(e.key == key && e.data@ == data_view);
                assert(store@.drop_last() =~= old_store);
                assert(store_keys(store@) =~= store_keys(old_store).push(key@));
                assert forall|j: int| 0 <= j < store@.len() implies is_one_of(cs, (#[trigger] store@[j]).data@) by {
                    if j < old_store.len() {
                        assert(store@[j] == old_store[j]);
                    } else {
                        assert(cs[i as int] == store@[j].data@);
                    }
                }
                assert forall|k: int| 0 <= k < i implies store_keys(store@).contains(blake3_of(#[trigger] cs[k])) by {
                    let ks = store_keys(old_store);
                    let t = choose|t: int| 0 <= t < ks.len() && ks[t] == blake3_of(cs[k]);
                    assert(store_keys(store@)[t] == blake3_of(cs[k]));
                }
                assert(store_keys(store@)[old_store.len() as int] == blake3_of(cs[i as int]));
            }
        }
        i = i + 1;
    }
    assert(cs.take(i as int) =~= cs);
    assert(keys_view(keys@) == cs.map_values(|c: Seq<u8>| blake3_of(c)));
    assert(store_wf(store@));
    assert(forall|k: int| 0 <= k < cs.len() ==> store_keys(store@).contains(blake3_of(#[trigger] cs[k])));
    let crc = crc32_of(world);
    let n = world.len() as u32;
    let files = describe_files(world);
    let desc = WorldDescription {
        files,
        content_chunks: keys,
        original_world_size: n,
        world_size: n,
        reconstructed_crc: crc,
    };
    assert(desc.world_size == world@.len());
    assert(desc.reconstructed_crc == crc32(world@));
    assert(keys_view(desc.content_chunks@) == cs.map_values(|c: Seq<u8>| blake3_of(c)));
    (desc, store)
}

/// The keys of the chunks of `data[from..to]`, in order.
fn chunk_keys_in(data: &[u8], from: usize, to: usize) -> (r: Vec<[u8; 32]>)
    requires
        from <= to <= data@.len(),
    ensures
        keys_view(r@) == chunks_of(data@.subrange(from as int, to as int)).map_values(|c: Seq<u8>| blake3_of(c)),
{
    let spans = chunk_spans_in(data, from, to);
    let ghost cs = chunks_of(data@.subrange(from as int, to as int));
    let mut keys: Vec<[u8; 32]> = Vec::new();
    let mut j: usize = 0;
    while j < spans.len()
        invariant
            j <= spans@.len(),
            spans@.len() == cs.len(),
            to <= data@.len(),
            forall|i: int|
                0 <= i < spans@.len() ==> from <= (#[trigger] spans@[i]).0 && spans@[i].0 + spans@[i].1 <= to
                    && data@.subrange(spans@[i].0 as int, spans@[i].0 + spans@[i].1) == cs[i],
            keys_view(keys@) == cs.take(j as int).map_values(|c: Seq<u8>| blake3_of(c)),
        decreases spans@.len() - j,
    {
        let (off, len) = spans[j];
        let chunk = slice_to_vec(data, off, off + len);
        let k = chunk_key(chunk.as_slice());
        let ghost before = keys@;
        keys.push(k);
        assert(keys_view(keys@) =~= keys_view(before).push(k@));
        assert(cs.take(j + 1) =~= cs.take(j as int).push(cs[j as int]));
        j = j + 1;
        assert(keys_view(keys@) =~= cs.take(j as int).map_values(|c: Seq<u8>| blake3_of(c)));
    }
    assert(cs.take(j as int) =~= cs);
    keys
}

/// The files of the archive `world`: name, payload length and payload chunk
/// keys of each whole local file record, in order.
pub fn describe_files(world: &[u8]) -> (r: Vec<FileDescriptor>)
    requires
        world@.len() <= u32::MAX,
    ensures
        r@.len() == archive_entries(world@, 0).len(),
        forall|i: int| 0 <= i < r@.len() ==> describes(
            #[trigger] r@[i],
            archive_entries(world@, 0)[i].0,
            archive_entries(world@, 0)[i].1,
        ),
{
    let n = world.len();
    let ghost es = archive_entries(world@, 0);
    let mut files: Vec<FileDescriptor> = Vec::new();
    let mut at: usize = 0;
    let mut more = true;
    while more && at < n
        invariant
            n == world@.len(),
            n <= u32::MAX,
            at <= n,
            es == archive_entries(world@, 0),
            es == Seq::new(files@.len(), |i: int| es[i]) + (if more { archive_entries(world@, at as int) } else { seq![] }),
            files@.len() <= es.len(),
            forall|i: int| 0 <= i < files@.len() ==> describes(#[trigger] files@[i], es[i].0, es[i].1),
        decreases n - at + if more { 1int } else { 0int },
    {
        match next_record(world, at) {
            Some((h, e)) => {
                let name_end = record_name_end(world, at);
                let file_name = slice_to_vec(world, at + 30, name_end);
                let content_chunks = chunk_keys_in(world, h, e);
                let ghost before = files@;
                let ghost rest = archive_entries(world@, at as int);
                assert(rest == seq![(world@.subrange(at + 30, name_end as int), world@.subrange(h as int, e as int))]
                    + archive_entries(world@, e as int));
                files.push(FileDescriptor { file_name, size: (e - h) as u32, content_chunks });
                proof {
                    assert forall|i: int| 0 <= i < files@.len() implies describes(#[trigger] files@[i], es[i].0, es[i].1) by {
                        if i < before.len() {
                            assert(files@[i] == before[i]);
                        } else {
                            assert(es[i] == rest[0]);
                        }
                    }
                    assert(es =~= Seq::new(files@.len(), |i: int| es[i]) + archive_entries(world@, e as int));
                }
                at = e;
            },
            None => {
                more = false;
                assert(es =~= Seq::new(files@.len(), |i: int| es[i]) + Seq::<(Seq<u8>, Seq<u8>)>::empty());
            },
        }
    }
    proof {
        if more {
            assert(archive_entries(world@, at as int) =~= Seq::<(Seq<u8>, Seq<u8>)>::empty());
        }
        assert(es.len() == files@.len());
    }
    files
}

/// The keys of `keys` that `store` does not hold, in order.
pub open spec fn missing_keys(keys: Seq<[u8; 32]>, store: Seq<ChunkEntry>) -> Seq<[u8; 32]>
    decreases keys.len(),
{
    if keys.len() == 0 {
        seq![]
    } else {
        let prev = missing_keys(keys.drop_last(), store);
        if store_keys(store).contains(keys.last()@) {
            prev
        } else {
            prev.push(keys.last())
        }
    }
}

/// The chunks that `keys` name, one after another, where `store` holds them all.
pub open spec fn assembled(keys: Seq<Seq<u8>>, store: Seq<ChunkEntry>) -> Option<Seq<u8>>
    decreases keys.len(),
{
    if keys.len() == 0 {
        Some(seq![])
    } else {
        match (assembled(keys.drop_last(), store), lookup(store, keys.last())) {
            (Some(a), Some(c)) => Some(a + c),
            _ => None,
        }
    }
}

/// Rebuilds the bytes that `keys` name from `store`; where some are not in
/// the store, the keys that are missing, in order.
pub fn reconstruct_world(keys: &Vec<[u8; 32]>, store: &Vec<ChunkEntry>) -> (r: Result<Vec<u8>, Vec<[u8; 32]>>)
    requires
        store_wf(store@),
    ensures
        r is Ok <==> missing_keys(keys@, store@).len() == 0,
        r matches Ok(b) ==> assembled(keys_view(keys@), store@) == Some(b@),
        r matches Err(m) ==> m@ == missing_keys(keys@, store@),
{
    let mut out: Vec<u8> = Vec::new();
    let mut missing: Vec<[u8; 32]> = Vec::new();
    let mut i: usize = 0;
    while i < keys.len()
        invariant
            i <= keys@.len(),
            store_wf(store@),
            missing@ == missing_keys(keys@.take(i as int), store@),
            missing@.len() == 0 ==> assembled(keys_view(keys@.take(i as int)), store@) == Some(out@),
            missing@.len() > 0 ==> assembled(keys_view(keys@.take(i as int)), store@) is None,
        decreases keys@.len() - i,
    {
        assert(keys@.take(i + 1).drop_last() =~= keys@.take(i as int));
        assert(keys_view(keys@.take(i + 1)).drop_last() =~= keys_view(keys@.take(i as int)));
        assert(keys_view(keys@.take(i + 1)).last() == keys@[i as int]@);
        match find_key(store, &keys[i]) {
            Some(j) => {
                if missing.len() == 0 {
                    extend_bytes(&mut out, store[j].data.as_slice());
                }
            },
            None => {
                missing.push(keys[i]);
            },
        }
        i = i + 1;
    }
    assert(keys@.take(i as int) =~= keys@);
    if missing.len() == 0 {
        Ok(out)
    } else {
        Err(missing)
    }
}

/// No two different chunks of `world` have the same digest.
pub open spec fn digests_distinct(world: Seq<u8>) -> bool {
    let cs = world_chunks(world);
    forall|i: int, j: int|
        0 <= i < cs.len() && 0 <= j < cs.len() && blake3_of(#[trigger] cs[i]) == blake3_of(
            #[trigger] cs[j],
        ) ==> cs[i] == cs[j]
}

/// Deduplicating a world and rebuilding it from what that gave yields the
/// world again, of the recorded size and CRC-32, where no two different
/// chunks of it share a digest.
pub proof fn lemma_dedup_round_trip(world: Seq<u8>, desc: WorldDescription, store: Seq<ChunkEntry>)
    requires
        is_deconstruction(world, desc, store),
        digests_distinct(world),
    ensures
        assembled(keys_view(desc.content_chunks@), store) == Some(world),
        world.len() == desc.world_size,
        crc32(world) == desc.reconstructed_crc,
{
    let cs = world_chunks(world);
    lemma_world_chunks_cover(world, 0);
    assert(world.subrange(0, world.len() as int) =~= world);
    assert forall|i: int| 0 <= i < cs.len() implies lookup(store, blake3_of(#[trigger] cs[i])) == Some(cs[i]) by {
        let ks = store_keys(store);
        let key = blake3_of(cs[i]);
        assert(ks.contains(key));
        let t = choose|t: int| 0 <= t < ks.len() && ks[t] == key;
        assert(store[t].key@ == key);
        let j = choose|j: int| 0 <= j < store.len() && store[j].key@ == key;
        let k = choose|k: int| 0 <= k < cs.len() && cs[k] == store[j].data@;
        assert(blake3_of(cs[k]) == blake3_of(cs[i]));
    }
    lemma_assembled_chunks(cs, store, cs.len() as int);
    lemma_concat_prefix_all(cs);
    assert(cs.take(cs.len() as int) =~= cs);
    assert(keys_view(desc.content_chunks@) =~= cs.map_values(|c: Seq<u8>| blake3_of(c)));
}

proof fn lemma_assembled_chunks(cs: Seq<Seq<u8>>, store: Seq<ChunkEntry>, n: int)
    requires
        0 <= n <= cs.len(),
        forall|i: int| 0 <= i < cs.len() ==> lookup(store, blake3_of(#[trigger] cs[i])) == Some(cs[i]),
    ensures
        assembled(cs.take(n).map_values(|c: Seq<u8>| blake3_of(c)), store) == Some(
            concat_prefix(cs, n),
        ),
    decreases n,
{
    if n > 0 {
        lemma_assembled_chunks(cs, store, n - 1);
        let ks = cs.take(n).map_values(|c: Seq<u8>| blake3_of(c));
        assert(ks.drop_last() =~= cs.take(n - 1).map_values(|c: Seq<u8>| blake3_of(c)));
        assert(ks.last() == blake3_of(cs[n - 1]));
    } else {
        assert(cs.take(0).map_values(|c: Seq<u8>| blake3_of(c)) =~= seq![]);
    }
}

/// The first `n` chunks one after another.
pub open spec fn concat_prefix(cs: Seq<Seq<u8>>, n: int) -> Seq<u8>
    decreases n,
{
    if n <= 0 {
        seq![]
    } else {
        concat_prefix(cs, n - 1) + cs[n - 1]
    }
}

proof fn lemma_concat_prefix_front(cs: Seq<Seq<u8>>, n: int)
    requires
        1 <= n <= cs.len(),
    ensures
        concat_prefix(cs, n) == cs[0] + concat_prefix(cs.skip(1), n - 1),
    decreases n,
{
    if n == 1 {
        assert(concat_prefix(cs, 0) == Seq::<u8>::empty());
        assert(concat_prefix(cs.skip(1), 0) == Seq::<u8>::empty());
        assert(concat_prefix(cs, 1) =~= cs[0] + concat_prefix(cs.skip(1), 0));
    } else {
        lemma_concat_prefix_front(cs, n - 1);
        assert(cs.skip(1)[n - 2] == cs[n - 1]);
        assert(concat_prefix(cs, n) =~= cs[0] + concat_prefix(cs.skip(1), n - 1));
    }
}

proof fn lemma_concat_prefix_all(cs: Seq<Seq<u8>>)
    ensures
        concat_prefix(cs, cs.len() as int) == concat(cs),
    decreases cs.len(),
{
    if cs.len() > 0 {
        lemma_concat_prefix_front(cs, cs.len() as int);
        lemma_concat_prefix_all(cs.skip(1));
    }
}

/// Why a batch of chunks from the server side was refused.
#[derive(Debug, PartialEq, Eq, Structural, Clone, Copy)]
pub enum ChunkBatchError {
    /// The batch holds another number of chunks than were asked for.
    CountMismatch,
    /// The chunk at this position is not the one its key names.
    HashMismatch(usize),
}

/// Checks that `chunks` are exactly the chunks that `keys` name, in order.
pub fn check_chunk_batch(keys: &Vec<[u8; 32]>, chunks: &Vec<Vec<u8>>) -> (r: Result<(), ChunkBatchError>)
    ensures
        r is Ok <==> keys@.len() == chunks@.len() && forall|i: int|
            0 <= i < keys@.len() ==> (#[trigger] keys@[i])@ == blake3_of(chunks@[i]@),
        r == Err::<(), ChunkBatchError>(ChunkBatchError::CountMismatch) <==> keys@.len() != chunks@.len(),
        r matches Err(ChunkBatchError::HashMismatch(i)) ==> i < keys@.len() && keys@[i as int]@
            != blake3_of(chunks@[i as int]@) && forall|j: int|
            0 <= j < i ==> (#[trigger] keys@[j])@ == blake3_of(chunks@[j]@),
{
    if keys.len() != chunks.len() {
        return Err(ChunkBatchError::CountMismatch);
    }
    let mut i: usize = 0;
    while i < keys.len()
        invariant
            i <= keys@.len(),
            keys@.len() == chunks@.len(),
            forall|j: int| 0 <= j < i ==> (#[trigger] keys@[j])@ == blake3_of(chunks@[j]@),
        decreases keys@.len() - i,
    {
        if !chunk_matches_key(&keys[i], chunks[i].as_slice()) {
            return Err(ChunkBatchError::HashMismatch(i));
        }
        i = i + 1;
    }
    Ok(())
}

/// Adds a chunk to a store under its key, unless the key is there already.
pub fn insert_chunk(store: &mut Vec<ChunkEntry>, key: [u8; 32], data: Vec<u8>)
    requires
        store_wf(old(store)@),
        key@ == blake3_of(data@),
    ensures
        store_wf(final(store)@),
        store_keys(old(store)@).contains(key@) ==> final(store)@ == old(store)@,
        !store_keys(old(store)@).contains(key@) ==> final(store)@ == old(store)@.push(
            ChunkEntry { key, data },
        ),
{
    match find_key(store, &key) {
        Some(_) => {},
        None => {
            let ghost old_store = store@;
            store.push(ChunkEntry { key, data });
            proof {
                assert(store_keys(store@) =~= store_keys(old_store).push(key@));
                assert forall|j: int| 0 <= j < store@.len() implies (#[trigger] store@[j]).key@
                    == blake3_of(store@[j].data@) by {
                    if j < old_store.len() {
                        assert(store@[j] == old_store[j]);
                    }
                }
            }
        },
    }
}

/// The chunks that `keys` name, looked up in `store`, in order.
pub open spec fn lookup_all(keys: Seq<[u8; 32]>, store: Seq<ChunkEntry>) -> Seq<Option<Seq<u8>>> {
    keys.map_values(|k: [u8; 32]| lookup(store, k@))
}

/// Answers a request for chunks from `store`: the chunks in the order asked,
/// or `None` where one of them is not in the store.
pub fn answer_chunk_request(keys: &Vec<[u8; 32]>, store: &Vec<ChunkEntry>) -> (r: Option<Vec<Vec<u8>>>)
    requires
        store_wf(store@),
    ensures
        r is Some <==> forall|i: int| 0 <= i < keys@.len() ==> (#[trigger] lookup_all(keys@, store@)[i]) is Some,
        r matches Some(cs) ==> cs@.len() == keys@.len() && forall|i: int|
            0 <= i < keys@.len() ==> lookup_all(keys@, store@)[i] == Some(#[trigger] cs@[i]@),
{
    let mut out: Vec<Vec<u8>> = Vec::new();
    let mut i: usize = 0;
    while i < keys.len()
        invariant
            i <= keys@.len(),
            store_wf(store@),
            out@.len() == i,
            forall|j: int| 0 <= j < i ==> lookup_all(keys@, store@)[j] == Some(#[trigger] out@[j]@),
        decreases keys@.len() - i,
    {
        match find_key(store, &keys[i]) {
            Some(j) => {
                let d = clone_bytes(&store[j].data);
                out.push(d);
            },
            None => {
                assert(lookup_all(keys@, store@)[i as int] is None);
                return None;
            },
        }
        i = i + 1;
    }
    assert forall|j: int| 0 <= j < keys@.len() implies (#[trigger] lookup_all(keys@, store@)[j]) is Some by {
        assert(lookup_all(keys@, store@)[j] == Some(out@[j]@));
    }
    Some(out)
}

/// A copy of `v`.
pub fn clone_bytes(v: &Vec<u8>) -> (r: Vec<u8>)
    ensures
        r@ == v@,
{
    slice_to_vec(v.as_slice(), 0, v.len())
}

/// An empty world deduplicates to an empty manifest and an empty store,
/// and rebuilds to no bytes.
pub proof fn lemma_empty_world(desc: WorldDescription, store: Seq<ChunkEntry>)
    requires
        is_deconstruction(Seq::<u8>::empty(), desc, store),
    ensures
        desc.content_chunks@.len() == 0,
        store.len() == 0,
        desc.world_size == 0,
        assembled(keys_view(desc.content_chunks@), store) == Some(Seq::<u8>::empty()),
{
    let cs = world_chunks(Seq::<u8>::empty());
    assert(cs.len() == 0);
    assert(keys_view(desc.content_chunks@).len() == 0);
    if store.len() > 0 {
        assert(is_one_of(cs, store[0].data@));
    }
    assert(keys_view(desc.content_chunks@) =~= Seq::<Seq<u8>>::empty());
}

} // verus!
