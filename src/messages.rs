//! Control messages on a tunnel stream: the manifest of a world, a request
//! for chunks, and the chunks that answer it.
use vstd::prelude::*;
use crate::dedup::{FileDescriptor, WorldDescription};
use crate::framing::{lemma_u32_le_from, extend_bytes, push_u32_le, read_u32_le, slice_to_vec, u32_from_le, u32_le};

verus! {

/// The keys one after another.
pub open spec fn keys_bytes(keys: Seq<[u8; 32]>) -> Seq<u8>
    decreases keys.len(),
{
    if keys.len() == 0 {
        seq![]
    } else {
        keys_bytes(keys.drop_last()) + keys.last()@
    }
}

/// A list of keys: their count, then the keys.
pub open spec fn key_list_bytes(keys: Seq<[u8; 32]>) -> Seq<u8> {
    u32_le(keys.len() as u32) + keys_bytes(keys)
}

/// The chunks, each with its length before it.
pub open spec fn chunks_bytes(chunks: Seq<Vec<u8>>) -> Seq<u8>
    decreases chunks.len(),
{
    if chunks.len() == 0 {
        seq![]
    } else {
        chunks_bytes(chunks.drop_last()) + u32_le(chunks.last()@.len() as u32) + chunks.last()@
    }
}

/// A batch of chunks: their count, then each chunk with its length.
pub open spec fn chunk_list_bytes(chunks: Seq<Vec<u8>>) -> Seq<u8> {
    u32_le(chunks.len() as u32) + chunks_bytes(chunks)
}

/// A world manifest: its original size, size and CRC-32, then its keys.
pub open spec fn world_bytes(w: WorldDescription) -> Seq<u8> {
    u32_le(w.original_world_size) + u32_le(w.world_size) + u32_le(w.reconstructed_crc)
        + key_list_bytes(w.content_chunks@) + u32_le(w.files@.len() as u32) + files_bytes(w.files@)
}

/// A file of a manifest: its name with its length before it, its size, and
/// its keys.
pub open spec fn file_bytes(f: FileDescriptor) -> Seq<u8> {
    u32_le(f.file_name@.len() as u32) + f.file_name@ + u32_le(f.size) + key_list_bytes(f.content_chunks@)
}

/// The files one after another.
pub open spec fn files_bytes(fs: Seq<FileDescriptor>) -> Seq<u8>
    decreases fs.len(),
{
    if fs.len() == 0 {
        seq![]
    } else {
        files_bytes(fs.drop_last()) + file_bytes(fs.last())
    }
}

/// A file can be encoded: its name and key list fit their length fields.
pub open spec fn file_fits(f: FileDescriptor) -> bool {
    f.file_name@.len() <= u32::MAX && f.content_chunks@.len() <= u32::MAX
}

/// Appends the keys to `out`.
pub fn encode_key_list(keys: &Vec<[u8; 32]>, out: &mut Vec<u8>)
    requires
        keys@.len() <= u32::MAX,
    ensures
        final(out)@ == old(out)@ + key_list_bytes(keys@),
{
    push_u32_le(keys.len() as u32, out);
    let ghost mid = out@;
    let mut i: usize = 0;
    while i < keys.len()
        invariant
            i <= keys@.len(),
            out@ == mid + keys_bytes(keys@.take(i as int)),
        decreases keys@.len() - i,
    {
        assert(keys@.take(i + 1).drop_last() =~= keys@.take(i as int));
        extend_bytes(out, keys[i].as_slice());
        i = i + 1;
        assert(out@ =~= mid + keys_bytes(keys@.take(i as int)));
    }
    assert(keys@.take(i as int) =~= keys@);
    assert(out@ =~= old(out)@ + key_list_bytes(keys@));
}

/// The key at `s[at..at + 32]`.
pub fn read_key(s: &[u8], at: usize) -> (r: [u8; 32])
    requires
        at + 32 <= s@.len(),
    ensures
        r@ == s@.subrange(at as int, at + 32),
{
    let r = [
        s[at],
        s[at + 1],
        s[at + 2],
        s[at + 3],
        s[at + 4],
        s[at + 5],
        s[at + 6],
        s[at + 7],
        s[at + 8],
        s[at + 9],
        s[at + 10],
        s[at + 11],
        s[at + 12],
        s[at + 13],
        s[at + 14],
        s[at + 15],
        s[at + 16],
        s[at + 17],
        s[at + 18],
        s[at + 19],
        s[at + 20],
        s[at + 21],
        s[at + 22],
        s[at + 23],
        s[at + 24],
        s[at + 25],
        s[at + 26],
        s[at + 27],
        s[at + 28],
        s[at + 29],
        s[at + 30],
        s[at + 31]
    ];
    assert(r@ =~= s@.subrange(at as int, at + 32));
    r
}

/// Reads a list of keys that takes up all of `s[at..]`.
pub fn decode_key_list(s: &[u8], at: usize) -> (r: Option<Vec<[u8; 32]>>)
    requires
        at <= s@.len(),
    ensures
        r matches Some(ks) ==> s@.subrange(at as int, s@.len() as int) == key_list_bytes(ks@),
        r is Some <==> (s@.len() - at >= 4 && s@.len() - at == 4 + 32 * u32_from_le(
            s@.subrange(at as int, at + 4),
        )),
{
    let n = s.len();
    if n - at < 4 {
        return None;
    }
    let count = read_u32_le(s, at);
    if (n - at - 4) as u64 != 32 * (count as u64) {
        return None;
    }
    let mut keys: Vec<[u8; 32]> = Vec::new();
    let mut i: usize = 0;
    let mut pos: usize = at + 4;
    while i < count as usize
        invariant
            n == s@.len(),
            at + 4 <= n,
            n - at - 4 == 32 * count,
            i <= count,
            pos == at + 4 + 32 * i,
            keys@.len() == i,
            s@.subrange(at + 4, pos as int) == keys_bytes(keys@),
        decreases count - i,
    {
        let k = read_key(s, pos);
        let ghost before = keys@;
        keys.push(k);
        assert(keys@.drop_last() =~= before);
        assert(s@.subrange(at + 4, pos + 32) =~= s@.subrange(at + 4, pos as int) + k@);
        pos = pos + 32;
        i = i + 1;
    }
    proof {
        assert(s@.subrange(at as int, n as int) =~= s@.subrange(at as int, at + 4) + s@.subrange(
            at + 4,
            n as int,
        ));
        crate::framing::lemma_u32_le_round_trip(count);
        let h = s@.subrange(at as int, at + 4);
        assert(h =~= u32_le(count)) by {
            let b0 = h[0];
            let b1 = h[1];
            let b2 = h[2];
            let b3 = h[3];
            assert(b0 == (count & 0xff) as u8 && b1 == ((count >> 8u32) & 0xff) as u8 && b2 == ((count
                >> 16u32) & 0xff) as u8 && b3 == ((count >> 24u32) & 0xff) as u8) by (bit_vector)
                requires
                    count == (b0 as u32) | (b1 as u32) << 8u32 | (b2 as u32) << 16u32 | (b3 as u32)
                        << 24u32,
            ;
        }
    }
    Some(keys)
}

/// Encodes a request for the chunks that `keys` name.
pub fn encode_request_chunks(keys: &Vec<[u8; 32]>) -> (r: Vec<u8>)
    requires
        keys@.len() <= u32::MAX,
    ensures
        r@ == key_list_bytes(keys@),
{
    let mut out: Vec<u8> = Vec::new();
    encode_key_list(keys, &mut out);
    assert(out@ =~= key_list_bytes(keys@));
    out
}

/// Reads a request for chunks.
pub fn decode_request_chunks(s: &[u8]) -> (r: Option<Vec<[u8; 32]>>)
    ensures
        r matches Some(ks) ==> s@ == key_list_bytes(ks@),
        r is Some <==> (s@.len() >= 4 && s@.len() == 4 + 32 * u32_from_le(s@.subrange(0, 4))),
{
    let r = decode_key_list(s, 0);
    assert(s@.subrange(0, s@.len() as int) =~= s@);
    r
}

/// Encodes a batch of chunks.
pub fn encode_send_chunks(chunks: &Vec<Vec<u8>>) -> (r: Vec<u8>)
    requires
        chunks@.len() <= u32::MAX,
        forall|i: int| 0 <= i < chunks@.len() ==> (#[trigger] chunks@[i])@.len() <= u32::MAX,
    ensures
        r@ == chunk_list_bytes(chunks@),
{
    let mut out: Vec<u8> = Vec::new();
    push_u32_le(chunks.len() as u32, &mut out);
    let ghost mid = out@;
    let mut i: usize = 0;
    while i < chunks.len()
        invariant
            i <= chunks@.len(),
            forall|j: int| 0 <= j < chunks@.len() ==> (#[trigger] chunks@[j])@.len() <= u32::MAX,
            out@ == mid + chunks_bytes(chunks@.take(i as int)),
        decreases chunks@.len() - i,
    {
        assert(chunks@.take(i + 1).drop_last() =~= chunks@.take(i as int));
        assert(chunks@[i as int]@.len() <= u32::MAX);
        push_u32_le(chunks[i].len() as u32, &mut out);
        extend_bytes(&mut out, chunks[i].as_slice());
        i = i + 1;
        assert(out@ =~= mid + chunks_bytes(chunks@.take(i as int)));
    }
    assert(chunks@.take(i as int) =~= chunks@);
    assert(out@ =~= chunk_list_bytes(chunks@));
    out
}

/// `s` is the encoding of the batch `cs`.
pub open spec fn sent_as(s: Seq<u8>, cs: Seq<Vec<u8>>) -> bool {
    &&& s == chunk_list_bytes(cs)
    &&& cs.len() <= u32::MAX
    &&& forall|j: int| 0 <= j < cs.len() ==> (#[trigger] cs[j])@.len() <= u32::MAX
}

/// The chunks of `a` and `b` have the same bytes, in the same order.
pub open spec fn same_bytes(a: Seq<Vec<u8>>, b: Seq<Vec<u8>>) -> bool {
    a.len() == b.len() && forall|j: int| 0 <= j < a.len() ==> (#[trigger] a[j])@ == b[j]@
}

pub proof fn lemma_chunks_bytes_split(cs: Seq<Vec<u8>>, k: int)
    requires
        0 <= k <= cs.len(),
    ensures
        chunks_bytes(cs) == chunks_bytes(cs.take(k)) + chunks_bytes(cs.skip(k)),
    decreases cs.len(),
{
    if k == cs.len() {
        assert(cs.take(k) =~= cs);
        assert(cs.skip(k) =~= Seq::<Vec<u8>>::empty());
        assert(chunks_bytes(cs) + chunks_bytes(Seq::<Vec<u8>>::empty()) =~= chunks_bytes(cs));
    } else {
        let dl = cs.drop_last();
        lemma_chunks_bytes_split(dl, k);
        assert(dl.take(k) =~= cs.take(k));
        assert(cs.skip(k).drop_last() =~= dl.skip(k));
        assert(cs.skip(k).last() == cs.last());
        assert(chunks_bytes(cs) =~= chunks_bytes(cs.take(k)) + chunks_bytes(cs.skip(k)));
    }
}

/// In the encoding of `cs`, chunk `i` stands at `pos` with its length
/// before it.
pub proof fn lemma_chunk_at(s: Seq<u8>, cs: Seq<Vec<u8>>, pos: int, i: int)
    requires
        sent_as(s, cs),
        0 <= i < cs.len(),
        pos == 4 + chunks_bytes(cs.take(i)).len(),
    ensures
        pos + 4 + cs[i]@.len() <= s.len(),
        s.subrange(pos, pos + 4) == u32_le(cs[i]@.len() as u32),
        s.subrange(pos + 4, pos + 4 + cs[i]@.len()) == cs[i]@,
        pos + 4 + cs[i]@.len() == 4 + chunks_bytes(cs.take(i + 1)).len(),
{
    lemma_chunks_bytes_split(cs, i);
    let rest = cs.skip(i);
    lemma_chunks_bytes_split(rest, 1);
    let c = cs[i];
    assert(rest.take(1).drop_last() =~= Seq::<Vec<u8>>::empty());
    assert(rest.take(1).last() == c);
    assert(chunks_bytes(rest.take(1)) == chunks_bytes(rest.take(1).drop_last()) + u32_le(
        rest.take(1).last()@.len() as u32,
    ) + rest.take(1).last()@);
    assert(chunks_bytes(rest.take(1)) =~= u32_le(c@.len() as u32) + c@);
    let r0 = chunks_bytes(cs.take(i));
    let r2 = chunks_bytes(rest.skip(1));
    assert(s =~= u32_le(cs.len() as u32) + r0 + u32_le(c@.len() as u32) + c@ + r2);
    assert(s.subrange(pos, pos + 4) =~= u32_le(c@.len() as u32));
    assert(s.subrange(pos + 4, pos + 4 + c@.len()) =~= c@);
    lemma_chunks_bytes_split(cs.take(i + 1), i);
    assert(cs.take(i + 1).take(i) =~= cs.take(i));
    assert(cs.take(i + 1).skip(i) =~= rest.take(1));
}

/// Reads a batch of chunks; `None` where the bytes are not one. Every
/// batch encoded by `encode_send_chunks` reads back as its chunks.
pub fn decode_send_chunks(s: &[u8]) -> (r: Option<Vec<Vec<u8>>>)
    ensures
        r matches Some(cs) ==> s@ == chunk_list_bytes(cs@),
        forall|cs: Seq<Vec<u8>>| sent_as(s@, cs) ==> (r matches Some(d) && same_bytes(d@, cs)),
{
    let n = s.len();
    if n < 4 {
        return None;
    }
    let count = read_u32_le(s, 0);
    proof {
        assert forall|cs: Seq<Vec<u8>>| sent_as(s@, cs) implies count == cs.len() by {
            assert(s@.subrange(0, 4) =~= u32_le(cs.len() as u32));
            crate::framing::lemma_u32_le_round_trip(cs.len() as u32);
        }
    }
    let mut chunks: Vec<Vec<u8>> = Vec::new();
    let mut pos: usize = 4;
    let mut i: u32 = 0;
    proof {
        assert forall|cs: Seq<Vec<u8>>| sent_as(s@, cs) implies chunks_bytes(cs.take(0)).len() == 0 by {
            assert(cs.take(0) =~= Seq::<Vec<u8>>::empty());
        }
    }
    while i < count
        invariant
            n == s@.len(),
            4 <= pos <= n,
            i <= count,
            chunks@.len() == i,
            s@.subrange(4, pos as int) == chunks_bytes(chunks@),
            forall|cs: Seq<Vec<u8>>| sent_as(s@, cs) ==> count == cs.len() && same_bytes(chunks@, cs.take(i as int))
                && pos == 4 + chunks_bytes(cs.take(i as int)).len(),
        decreases count - i,
    {
        proof {
            assert forall|cs: Seq<Vec<u8>>| sent_as(s@, cs) implies (pos + 4 + cs[i as int]@.len() <= n
                && s@.subrange(pos as int, pos + 4) == u32_le(cs[i as int]@.len() as u32)) by {
                lemma_chunk_at(s@, cs, pos as int, i as int);
            }
        }
        if n - pos < 4 {
            proof {
                assert forall|cs: Seq<Vec<u8>>| sent_as(s@, cs) implies false by {
                    assert(pos + 4 + cs[i as int]@.len() <= n);
                }
            }
            return None;
        }
        let len = read_u32_le(s, pos);
        proof {
            assert forall|cs: Seq<Vec<u8>>| sent_as(s@, cs) implies len == cs[i as int]@.len() by {
                crate::framing::lemma_u32_le_round_trip(cs[i as int]@.len() as u32);
                assert(s@.subrange(pos as int, pos + 4) == u32_le(cs[i as int]@.len() as u32));
            }
        }
        if (n - pos - 4) < len as usize {
            proof {
                assert forall|cs: Seq<Vec<u8>>| sent_as(s@, cs) implies false by {
                    assert(pos + 4 + cs[i as int]@.len() <= n);
                }
            }
            return None;
        }
        let c = slice_to_vec(s, pos + 4, pos + 4 + len as usize);
        let ghost before = chunks@;
        let ghost old_pos = pos;
        chunks.push(c);
        proof {
            assert(chunks@.drop_last() =~= before);
            let h = s@.subrange(pos as int, pos + 4);
            lemma_u32_le_from(h);
            assert(s@.subrange(4, pos + 4 + len) =~= s@.subrange(4, pos as int) + h + c@);
        }
        pos = pos + 4 + len as usize;
        i = i + 1;
        proof {
            assert forall|cs: Seq<Vec<u8>>| sent_as(s@, cs) implies same_bytes(chunks@, cs.take(i as int))
                && pos == 4 + chunks_bytes(cs.take(i as int)).len() by {
                lemma_chunk_at(s@, cs, old_pos as int, i - 1);
                assert forall|j: int| 0 <= j < i implies (#[trigger] chunks@[j])@ == cs.take(i as int)[j]@ by {
                    if j < i - 1 {
                        assert(chunks@[j] == before[j]);
                        assert(cs.take(i - 1)[j] == cs.take(i as int)[j]);
                    } else {
                        assert(c@ =~= cs[i - 1]@);
                    }
                }
            }
        }
    }
    if pos != n {
        proof {
            assert forall|cs: Seq<Vec<u8>>| sent_as(s@, cs) implies false by {
                assert(cs.take(i as int) =~= cs);
            }
        }
        return None;
    }
    proof {
        let h = s@.subrange(0, 4);
        lemma_u32_le_from(h);
        assert(s@ =~= h + s@.subrange(4, n as int));
        assert forall|cs: Seq<Vec<u8>>| sent_as(s@, cs) implies same_bytes(chunks@, cs) by {
            assert(cs.take(i as int) =~= cs);
        }
    }
    Some(chunks)
}

/// Encodes the manifest of a world.
pub fn encode_world_ready(w: &WorldDescription) -> (r: Vec<u8>)
    requires
        w.content_chunks@.len() <= u32::MAX,
        w.files@.len() <= u32::MAX,
        forall|i: int| 0 <= i < w.files@.len() ==> file_fits(#[trigger] w.files@[i]),
    ensures
        r@ == world_bytes(*w),
{
    let mut out: Vec<u8> = Vec::new();
    push_u32_le(w.original_world_size, &mut out);
    push_u32_le(w.world_size, &mut out);
    push_u32_le(w.reconstructed_crc, &mut out);
    encode_key_list(&w.content_chunks, &mut out);
    push_u32_le(w.files.len() as u32, &mut out);
    let ghost mid = out@;
    let mut i: usize = 0;
    while i < w.files.len()
        invariant
            i <= w.files@.len(),
            forall|j: int| 0 <= j < w.files@.len() ==> file_fits(#[trigger] w.files@[j]),
            out@ == mid + files_bytes(w.files@.take(i as int)),
        decreases w.files@.len() - i,
    {
        let f = &w.files[i];
        assert(file_fits(w.files@[i as int]));
        assert(w.files@.take(i + 1).drop_last() =~= w.files@.take(i as int));
        push_u32_le(f.file_name.len() as u32, &mut out);
        extend_bytes(&mut out, f.file_name.as_slice());
        push_u32_le(f.size, &mut out);
        encode_key_list(&f.content_chunks, &mut out);
        i = i + 1;
        assert(out@ =~= mid + files_bytes(w.files@.take(i as int)));
    }
    assert(w.files@.take(i as int) =~= w.files@);
    assert(out@ =~= world_bytes(*w));
    out
}

/// Reads a list of keys at `s[at..]`, and where it ends.
pub fn decode_key_list_at(s: &[u8], at: usize) -> (r: Option<(Vec<[u8; 32]>, usize)>)
    requires
        at <= s@.len(),
    ensures
        r matches Some((ks, end)) ==> at <= end <= s@.len() && s@.subrange(at as int, end as int) == key_list_bytes(ks@),
{
    let n = s.len();
    if n - at < 4 {
        return None;
    }
    let count = read_u32_le(s, at);
    if (n - at - 4) as u64 / 32 < count as u64 {
        return None;
    }
    let end = at + 4 + 32 * (count as usize);
    let mut keys: Vec<[u8; 32]> = Vec::new();
    let mut i: usize = 0;
    let mut pos: usize = at + 4;
    while i < count as usize
        invariant
            n == s@.len(),
            end <= n,
            end == at + 4 + 32 * count,
            i <= count,
            pos == at + 4 + 32 * i,
            keys@.len() == i,
            s@.subrange(at + 4, pos as int) == keys_bytes(keys@),
        decreases count - i,
    {
        let k = read_key(s, pos);
        let ghost before = keys@;
        keys.push(k);
        assert(keys@.drop_last() =~= before);
        assert(s@.subrange(at + 4, pos + 32) =~= s@.subrange(at + 4, pos as int) + k@);
        pos = pos + 32;
        i = i + 1;
    }
    proof {
        lemma_u32_le_from(s@.subrange(at as int, at + 4));
        assert(s@.subrange(at as int, end as int) =~= s@.subrange(at as int, at + 4) + s@.subrange(at + 4, end as int));
    }
    Some((keys, end))
}

/// Reads the manifest of a world; `None` where the bytes are not one.
pub fn decode_world_ready(s: &[u8]) -> (r: Option<WorldDescription>)
    ensures
        r matches Some(w) ==> s@ == world_bytes(w),
        s@.len() < 16 ==> r is None,
{
    let n = s.len();
    if n < 16 {
        return None;
    }
    let original_world_size = read_u32_le(s, 0);
    let world_size = read_u32_le(s, 4);
    let reconstructed_crc = read_u32_le(s, 8);
    let (content_chunks, mut pos) = match decode_key_list_at(s, 12) {
        None => {
            return None;
        },
        Some(x) => x,
    };
    if n - pos < 4 {
        return None;
    }
    let count = read_u32_le(s, pos);
    let files_start = pos + 4;
    pos = files_start;
    let mut files: Vec<FileDescriptor> = Vec::new();
    let mut i: u32 = 0;
    while i < count
        invariant
            n == s@.len(),
            files_start <= pos <= n,
            i <= count,
            files@.len() == i,
            s@.subrange(files_start as int, pos as int) == files_bytes(files@),
        decreases count - i,
    {
        if n - pos < 4 {
            return None;
        }
        let name_len = read_u32_le(s, pos);
        if (n - pos - 4) < name_len as usize {
            return None;
        }
        let name_end = pos + 4 + name_len as usize;
        let file_name = slice_to_vec(s, pos + 4, name_end);
        if n - name_end < 4 {
            return None;
        }
        let size = read_u32_le(s, name_end);
        let (content_chunks, end) = match decode_key_list_at(s, name_end + 4) {
            None => {
                return None;
            },
            Some(x) => x,
        };
        let f = FileDescriptor { file_name, size, content_chunks };
        let ghost before = files@;
        proof {
            lemma_u32_le_from(s@.subrange(pos as int, pos + 4));
            lemma_u32_le_from(s@.subrange(name_end as int, name_end + 4));
            assert(s@.subrange(pos as int, end as int) =~= s@.subrange(pos as int, pos + 4) + file_name@
                + s@.subrange(name_end as int, name_end + 4) + s@.subrange(name_end + 4, end as int));
            assert(s@.subrange(pos as int, end as int) == file_bytes(f));
            assert(s@.subrange(files_start as int, end as int) =~= s@.subrange(files_start as int, pos as int)
                + s@.subrange(pos as int, end as int));
        }
        files.push(f);
        proof {
            assert(files@.drop_last() =~= before);
        }
        pos = end;
        i = i + 1;
    }
    if pos != n {
        return None;
    }
    let w = WorldDescription { files, content_chunks, original_world_size, world_size, reconstructed_crc };
    proof {
        lemma_u32_le_from(s@.subrange(0, 4));
        lemma_u32_le_from(s@.subrange(4, 8));
        lemma_u32_le_from(s@.subrange(8, 12));
        lemma_u32_le_from(s@.subrange(files_start - 4, files_start as int));
        assert(s@ =~= s@.subrange(0, 4) + s@.subrange(4, 8) + s@.subrange(8, 12) + s@.subrange(12, files_start - 4)
            + s@.subrange(files_start - 4, files_start as int) + s@.subrange(files_start as int, n as int));
    }
    Some(w)
}

} // verus!
