//! The records of the world's zip archive. The header of each local file
//! record and the file's payload are chunked apart, so that every chunk of a
//! file holds only that file's bytes; whatever follows the last record that
//! can be read (the central directory) is chunked as one more piece.
use vstd::prelude::*;
use crate::chunker::{chunk_spans_in, chunks_of, concat, lemma_chunks_cover};

verus! {

/// Length of the fixed part of a local file header.
pub const LOCAL_HEADER_LEN: usize = 30;

/// A local file header starts at `at`.
pub open spec fn is_local_header(s: Seq<u8>, at: int) -> bool {
    0 <= at && at + LOCAL_HEADER_LEN <= s.len() && s[at] == 0x50 && s[at + 1] == 0x4b && s[at + 2]
        == 0x03 && s[at + 3] == 0x04
}

pub open spec fn u16_le_at(s: Seq<u8>, i: int) -> int {
    s[i] + 256 * s[i + 1]
}

pub open spec fn u32_le_at(s: Seq<u8>, i: int) -> int {
    s[i] + 256 * s[i + 1] + 65536 * s[i + 2] + 16777216 * s[i + 3]
}

/// Where the header (fixed part, name and extra field) of the local file
/// record at `at` ends.
pub open spec fn header_end(s: Seq<u8>, at: int) -> int {
    at + LOCAL_HEADER_LEN + u16_le_at(s, at + 26) + u16_le_at(s, at + 28)
}

/// Where the payload of the local file record at `at` ends.
pub open spec fn body_end(s: Seq<u8>, at: int) -> int {
    header_end(s, at) + u32_le_at(s, at + 18)
}

/// A whole local file record starts at `at`.
pub open spec fn record_fits(s: Seq<u8>, at: int) -> bool {
    is_local_header(s, at) && body_end(s, at) <= s.len()
}

/// The chunks of the archive from `at` on: the header of each local file
/// record and its payload are chunked apart; whatever follows the last whole
/// record (the central directory) is chunked as one more piece.
pub open spec fn world_chunks_from(s: Seq<u8>, at: int) -> Seq<Seq<u8>>
    decreases s.len() - at,
{
    if at < 0 || at >= s.len() {
        seq![]
    } else if record_fits(s, at) {
        chunks_of(s.subrange(at, header_end(s, at))) + chunks_of(s.subrange(header_end(s, at), body_end(s, at)))
            + world_chunks_from(s, body_end(s, at))
    } else {
        chunks_of(s.subrange(at, s.len() as int))
    }
}

/// The chunks of the whole archive.
pub open spec fn world_chunks(s: Seq<u8>) -> Seq<Seq<u8>> {
    world_chunks_from(s, 0)
}

pub proof fn lemma_concat_append(a: Seq<Seq<u8>>, b: Seq<Seq<u8>>)
    ensures
        concat(a + b) == concat(a) + concat(b),
    decreases a.len(),
{
    if a.len() == 0 {
        assert(a + b =~= b);
        assert(concat(a) + concat(b) =~= concat(b));
    } else {
        lemma_concat_append(a.skip(1), b);
        assert((a + b).skip(1) =~= a.skip(1) + b);
        assert((a + b)[0] == a[0]);
        assert(concat(a + b) =~= concat(a) + concat(b));
    }
}

/// The chunks of the archive put back together give the archive.
pub proof fn lemma_world_chunks_cover(s: Seq<u8>, at: int)
    requires
        0 <= at <= s.len(),
    ensures
        concat(world_chunks_from(s, at)) == s.subrange(at, s.len() as int),
    decreases s.len() - at,
{
    if at < s.len() {
        if record_fits(s, at) {
            let h = header_end(s, at);
            let e = body_end(s, at);
            lemma_world_chunks_cover(s, e);
            lemma_chunks_cover(s.subrange(at, h));
            lemma_chunks_cover(s.subrange(h, e));
            let c1 = chunks_of(s.subrange(at, h));
            let c2 = chunks_of(s.subrange(h, e));
            lemma_concat_append(c1 + c2, world_chunks_from(s, e));
            lemma_concat_append(c1, c2);
            assert(s.subrange(at, h) + s.subrange(h, e) + s.subrange(e, s.len() as int) =~= s.subrange(at, s.len() as int));
        } else {
            lemma_chunks_cover(s.subrange(at, s.len() as int));
        }
    } else {
        assert(s.subrange(at, s.len() as int) =~= Seq::<u8>::empty());
        assert(concat(Seq::<Seq<u8>>::empty()) == Seq::<u8>::empty());
    }
}

/// The header and payload ends of the whole local file record at `at`, or
/// `None` where none starts there.
pub fn next_record(data: &[u8], at: usize) -> (r: Option<(usize, usize)>)
    requires
        at < data@.len(),
    ensures
        r is Some <==> record_fits(data@, at as int),
        r matches Some((h, e)) ==> h == header_end(data@, at as int) && e == body_end(data@, at as int)
            && at < h <= e <= data@.len(),
{
    let n = data.len();
    if n - at >= LOCAL_HEADER_LEN && data[at] == 0x50 && data[at + 1] == 0x4b && data[at + 2] == 0x03
        && data[at + 3] == 0x04 {
        let name_len = data[at + 26] as u64 + 256 * data[at + 27] as u64;
        let extra_len = data[at + 28] as u64 + 256 * data[at + 29] as u64;
        let size = data[at + 18] as u64 + 256 * data[at + 19] as u64 + 65536 * data[at + 20] as u64
            + 16777216 * data[at + 21] as u64;
        let room = n - at - LOCAL_HEADER_LEN;
        if name_len + extra_len + size <= room as u64 {
            let h = at + LOCAL_HEADER_LEN + (name_len + extra_len) as usize;
            Some((h, h + size as usize))
        } else {
            None
        }
    } else {
        None
    }
}

/// Appends the spans of the chunks of `data[from..to]` to `r`.
fn push_piece(r: &mut Vec<(usize, usize)>, data: &[u8], from: usize, to: usize)
    requires
        from <= to <= data@.len(),
    ensures
        Seq::new(final(r)@.len(), |i: int| data@.subrange(final(r)@[i].0 as int, final(r)@[i].0 + final(r)@[i].1))
            == Seq::new(old(r)@.len(), |i: int| data@.subrange(old(r)@[i].0 as int, old(r)@[i].0 + old(r)@[i].1))
            + chunks_of(data@.subrange(from as int, to as int)),
        forall|i: int| 0 <= i < old(r)@.len() ==> final(r)@[i] == old(r)@[i],
        forall|i: int| old(r)@.len() <= i < final(r)@.len() ==> from <= (#[trigger] final(r)@[i]).0 && final(r)@[i].0 + final(r)@[i].1 <= to,
        final(r)@.len() >= old(r)@.len(),
{
    let piece = chunk_spans_in(data, from, to);
    let ghost cs = chunks_of(data@.subrange(from as int, to as int));
    let ghost r0 = r@;
    let mut j: usize = 0;
    while j < piece.len()
        invariant
            j <= piece@.len(),
            piece@.len() == cs.len(),
            from <= to <= data@.len(),
            forall|i: int|
                0 <= i < piece@.len() ==> from <= (#[trigger] piece@[i]).0 && piece@[i].0 + piece@[i].1 <= to
                    && data@.subrange(piece@[i].0 as int, piece@[i].0 + piece@[i].1) == cs[i],
            r@ == r0 + piece@.take(j as int),
        decreases piece@.len() - j,
    {
        r.push(piece[j]);
        j = j + 1;
        assert(r@ =~= r0 + piece@.take(j as int));
    }
    assert(piece@.take(j as int) =~= piece@);
    assert(Seq::new(r@.len(), |i: int| data@.subrange(r@[i].0 as int, r@[i].0 + r@[i].1))
        =~= Seq::new(r0.len(), |i: int| data@.subrange(r0[i].0 as int, r0[i].0 + r0[i].1)) + cs);
}

/// Where the chunks of the archive `data` lie: `(offset, length)` for each,
/// in order.
pub fn world_spans(data: &[u8]) -> (r: Vec<(usize, usize)>)
    ensures
        r@.len() == world_chunks(data@).len(),
        forall|i: int|
            0 <= i < r@.len() ==> (#[trigger] r@[i]).0 + r@[i].1 <= data@.len() && data@.subrange(
                r@[i].0 as int,
                r@[i].0 + r@[i].1,
            ) == world_chunks(data@)[i],
{
    let mut r: Vec<(usize, usize)> = Vec::new();
    let mut at: usize = 0;
    let n = data.len();
    assert(Seq::new(0, |i: int| data@.subrange(r@[i].0 as int, r@[i].0 + r@[i].1)) + world_chunks(data@)
        =~= world_chunks(data@));
    while at < n
        invariant
            n == data@.len(),
            at <= n,
            world_chunks(data@) == Seq::new(
                r@.len(),
                |i: int| data@.subrange(r@[i].0 as int, r@[i].0 + r@[i].1),
            ) + world_chunks_from(data@, at as int),
            forall|i: int| 0 <= i < r@.len() ==> (#[trigger] r@[i]).0 + r@[i].1 <= at,
        decreases n - at,
    {
        let ghost r0 = r@;
        match next_record(data, at) {
            Some((h, e)) => {
                push_piece(&mut r, data, at, h);
                let ghost r1 = r@;
                push_piece(&mut r, data, h, e);
                proof {
                    assert forall|i: int| 0 <= i < r@.len() implies (#[trigger] r@[i]).0 + r@[i].1 <= e by {
                        if i < r1.len() {
                            assert(r@[i] == r1[i]);
                            if i < r0.len() {
                                assert(r1[i] == r0[i]);
                            }
                        }
                    }
                }
                at = e;
            },
            None => {
                push_piece(&mut r, data, at, n);
                proof {
                    assert(world_chunks_from(data@, n as int) =~= Seq::<Seq<u8>>::empty());
                    assert forall|i: int| 0 <= i < r@.len() implies (#[trigger] r@[i]).0 + r@[i].1 <= n by {
                        if i < r0.len() {
                            assert(r@[i] == r0[i]);
                        }
                    }
                }
                at = n;
            },
        }
    }
    proof {
        assert(world_chunks_from(data@, at as int) =~= Seq::<Seq<u8>>::empty());
        assert(Seq::new(r@.len(), |i: int| data@.subrange(r@[i].0 as int, r@[i].0 + r@[i].1)) + Seq::<Seq<u8>>::empty()
            =~= Seq::new(r@.len(), |i: int| data@.subrange(r@[i].0 as int, r@[i].0 + r@[i].1)));
    }
    r
}

/// Name and payload of each whole local file record from `at` on, in
/// order.
pub open spec fn archive_entries(s: Seq<u8>, at: int) -> Seq<(Seq<u8>, Seq<u8>)>
    decreases s.len() - at,
{
    if at < 0 || at >= s.len() || !record_fits(s, at) {
        seq![]
    } else {
        seq![
            (
                s.subrange(at + LOCAL_HEADER_LEN, at + LOCAL_HEADER_LEN + u16_le_at(s, at + 26)),
                s.subrange(header_end(s, at), body_end(s, at)),
            ),
        ] + archive_entries(s, body_end(s, at))
    }
}

/// Where the file name of the local file record at `at` ends.
pub fn record_name_end(data: &[u8], at: usize) -> (r: usize)
    requires
        record_fits(data@, at as int),
    ensures
        r == at + LOCAL_HEADER_LEN + u16_le_at(data@, at + 26),
        at + LOCAL_HEADER_LEN <= r <= header_end(data@, at as int),
{
    let n = data.len();
    assert(at + LOCAL_HEADER_LEN + u16_le_at(data@, at + 26) <= n);
    at + LOCAL_HEADER_LEN + (data[at + 26] as usize + 256 * data[at + 27] as usize)
}

} // verus!
