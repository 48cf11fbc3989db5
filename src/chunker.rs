//! Content-defined chunking: a rolling hash over the bytes since the last cut
//! picks where chunks end, so that an edit changes only the chunks near it.
use vstd::prelude::*;

verus! {

/// Smallest length of a chunk that is not the last one.
pub const CHUNK_MIN: usize = 2048;

/// Largest length of a chunk.
pub const CHUNK_MAX: usize = 65536;

/// Bits of the rolling hash that must be zero at a cut (14 bits: chunks of
/// about 16 KiB on average).
pub const CUT_MASK: u64 = 0xfffc_0000_0000_0000;

/// What a byte adds to the rolling hash.
pub open spec fn gear(b: u8) -> u64 {
    ((b as int + 1) * 0x9e37_79b9) as u64
}

/// Rolling hash of `s`: each byte shifts the hash left by one and adds its
/// gear value, so the top bits depend on the last 64 bytes only.
pub open spec fn roll(s: Seq<u8>) -> u64
    decreases s.len(),
{
    if s.len() == 0 {
        0
    } else {
        (roll(s.drop_last()) << 1u64).wrapping_add(gear(s.last()))
    }
}

/// A chunk of `s` may end after its first `n` bytes.
pub open spec fn is_cut(s: Seq<u8>, n: int) -> bool {
    CHUNK_MIN <= n && (roll(s.take(n)) & CUT_MASK) == 0
}

pub open spec fn chunk_limit(s: Seq<u8>) -> int {
    if s.len() < CHUNK_MAX {
        s.len() as int
    } else {
        CHUNK_MAX as int
    }
}

/// `n` is the first place at which a chunk of `s` may end.
pub open spec fn is_first_cut(s: Seq<u8>, n: int) -> bool {
    n < chunk_limit(s) && is_cut(s, n) && forall|m: int| CHUNK_MIN <= m < n ==> !is_cut(s, m)
}

/// Length of the first chunk of `s`: everything where `s` is no longer than
/// the minimum; else the first cut, or the maximum (or all of `s`) where
/// there is none before it.
pub open spec fn cut_len(s: Seq<u8>) -> int {
    if s.len() <= CHUNK_MIN {
        s.len() as int
    } else if exists|n: int| is_first_cut(s, n) {
        choose|n: int| is_first_cut(s, n)
    } else {
        chunk_limit(s)
    }
}

pub proof fn lemma_cut_len_bounds(s: Seq<u8>)
    ensures
        s.len() > 0 ==> 0 < cut_len(s),
        cut_len(s) <= s.len(),
        cut_len(s) <= CHUNK_MAX,
        cut_len(s) < s.len() ==> CHUNK_MIN <= cut_len(s),
{
    if s.len() > CHUNK_MIN && exists|n: int| is_first_cut(s, n) {
        let n = choose|n: int| is_first_cut(s, n);
        assert(is_first_cut(s, n));
    }
}

/// The chunks of `s`, in order.
pub open spec fn chunks_of(s: Seq<u8>) -> Seq<Seq<u8>>
    decreases s.len(),
{
    if s.len() == 0 {
        seq![]
    } else {
        let n = cut_len(s);
        if 0 < n <= s.len() {
            seq![s.take(n)] + chunks_of(s.skip(n))
        } else {
            seq![s]
        }
    }
}

/// The chunks one after another.
pub open spec fn concat(cs: Seq<Seq<u8>>) -> Seq<u8>
    decreases cs.len(),
{
    if cs.len() == 0 {
        seq![]
    } else {
        cs[0] + concat(cs.skip(1))
    }
}

/// The chunks of any input put back together give the input, and every
/// chunk is between the minimum and the maximum length but the last, which
/// is no longer than the maximum and not empty.
pub proof fn lemma_chunks_cover(s: Seq<u8>)
    ensures
        concat(chunks_of(s)) == s,
        forall|i: int|
            0 <= i < chunks_of(s).len() ==> 0 < (#[trigger] chunks_of(s)[i]).len() <= CHUNK_MAX,
        forall|i: int|
            0 <= i < chunks_of(s).len() - 1 ==> CHUNK_MIN <= (#[trigger] chunks_of(s)[i]).len(),
    decreases s.len(),
{
    if s.len() > 0 {
        let n = cut_len(s);
        lemma_cut_len_bounds(s);
        let rest = s.skip(n);
        lemma_chunks_cover(rest);
        let cs = chunks_of(s);
        assert(cs == seq![s.take(n)] + chunks_of(rest));
        assert(cs.skip(1) =~= chunks_of(rest));
        assert(s.take(n) + rest =~= s);
        assert forall|i: int| 0 <= i < cs.len() implies 0 < (#[trigger] cs[i]).len() <= CHUNK_MAX by {
            if i > 0 {
                assert(cs[i] == chunks_of(rest)[i - 1]);
            }
        }
        assert forall|i: int| 0 <= i < cs.len() - 1 implies CHUNK_MIN <= (#[trigger] cs[i]).len() by {
            if i > 0 {
                assert(cs[i] == chunks_of(rest)[i - 1]);
            } else {
                assert(chunks_of(rest).len() > 0);
                assert(rest.len() > 0);
            }
        }
    }
}

/// Length of the first chunk of `data[start..end]`.
pub fn next_chunk_len(data: &[u8], start: usize, end: usize) -> (r: usize)
    requires
        start < end <= data@.len(),
    ensures
        r == cut_len(data@.subrange(start as int, end as int)),
{
    let ghost s = data@.subrange(start as int, end as int);
    let avail = end - start;
    let n = data.len();
    if avail <= CHUNK_MIN {
        return avail;
    }
    let limit = if avail < CHUNK_MAX {
        avail
    } else {
        CHUNK_MAX
    };
    let mut h: u64 = 0;
    let mut i: usize = 0;
    assert(s.take(0) =~= seq![]);
    while i < limit
        invariant
            s == data@.subrange(start as int, end as int),
            start < end <= data@.len(),
            n == data@.len(),
            s.len() == end - start,
            limit == chunk_limit(s),
            s.len() > CHUNK_MIN,
            limit <= s.len(),
            i <= limit,
            h == roll(s.take(i as int)),
            forall|m: int| CHUNK_MIN <= m <= i && m < limit ==> !is_cut(s, m),
        decreases limit - i,
    {
        let b = data[start + i];
        assert(s.take(i + 1).drop_last() =~= s.take(i as int));
        assert(s.take(i + 1).last() == b);
        let g: u64 = (b as u64 + 1) * 0x9e37_79b9;
        assert(g == gear(b));
        h = (h << 1u64).wrapping_add(g);
        i = i + 1;
        assert(h == roll(s.take(i as int)));
        if i >= CHUNK_MIN && i < limit && (h & CUT_MASK) == 0 {
            proof {
                assert(is_first_cut(s, i as int));
                let c = choose|c: int| is_first_cut(s, c);
                assert(c == i as int);
            }
            return i;
        }
    }
    proof {
        assert forall|n: int| !is_first_cut(s, n) by {
            if n < limit && is_cut(s, n) {
                assert(CHUNK_MIN <= n < limit);
            }
        }
    }
    limit
}

/// Where the chunks of `data[from..to]` lie: `(offset, length)` for each,
/// offsets counted in `data`, in order.
pub fn chunk_spans_in(data: &[u8], from: usize, to: usize) -> (r: Vec<(usize, usize)>)
    requires
        from <= to <= data@.len(),
    ensures
        r@.len() == chunks_of(data@.subrange(from as int, to as int)).len(),
        forall|i: int|
            0 <= i < r@.len() ==> from <= (#[trigger] r@[i]).0 && r@[i].0 + r@[i].1 <= to && data@.subrange(
                r@[i].0 as int,
                r@[i].0 + r@[i].1,
            ) == chunks_of(data@.subrange(from as int, to as int))[i],
{
    let ghost whole = data@.subrange(from as int, to as int);
    let mut r: Vec<(usize, usize)> = Vec::new();
    let mut start: usize = from;
    assert(data@.subrange(from as int, to as int) =~= whole);
    assert(Seq::new(0, |i: int| data@.subrange(r@[i].0 as int, r@[i].0 + r@[i].1)) + chunks_of(whole)
        =~= chunks_of(whole));
    while start < to
        invariant
            from <= start <= to,
            to <= data@.len(),
            whole == data@.subrange(from as int, to as int),
            chunks_of(whole) == Seq::new(
                r@.len(),
                |i: int| data@.subrange(r@[i].0 as int, r@[i].0 + r@[i].1),
            ) + chunks_of(data@.subrange(start as int, to as int)),
            forall|i: int| 0 <= i < r@.len() ==> from <= (#[trigger] r@[i]).0 && r@[i].0 + r@[i].1 <= start,
        decreases to - start,
    {
        let ghost s = data@.subrange(start as int, to as int);
        let n = next_chunk_len(data, start, to);
        proof {
            lemma_cut_len_bounds(s);
            assert(s.take(n as int) =~= data@.subrange(start as int, start + n));
            assert(s.skip(n as int) =~= data@.subrange(start + n, to as int));
            assert(chunks_of(s) == seq![s.take(n as int)] + chunks_of(s.skip(n as int)));
        }
        let ghost old_r = r@;
        r.push((start, n));
        start = start + n;
        proof {
            assert(Seq::new(r@.len(), |i: int| data@.subrange(r@[i].0 as int, r@[i].0 + r@[i].1))
                =~= Seq::new(old_r.len(), |i: int| data@.subrange(old_r[i].0 as int, old_r[i].0 + old_r[i].1)).push(
                s.take(n as int)));
            assert forall|i: int| 0 <= i < r@.len() implies from <= (#[trigger] r@[i]).0 && r@[i].0 + r@[i].1 <= start by {
                if i < old_r.len() {
                    assert(r@[i] == old_r[i]);
                }
            }
        }
    }
    proof {
        assert(chunks_of(data@.subrange(start as int, to as int)) =~= seq![]);
        assert(Seq::new(r@.len(), |i: int| data@.subrange(r@[i].0 as int, r@[i].0 + r@[i].1)) + seq![]
            =~= Seq::new(r@.len(), |i: int| data@.subrange(r@[i].0 as int, r@[i].0 + r@[i].1)));
    }
    r
}

/// Where the chunks of `data` lie: `(offset, length)` for each, in order.
pub fn chunk_spans(data: &[u8]) -> (r: Vec<(usize, usize)>)
    ensures
        r@.len() == chunks_of(data@).len(),
        forall|i: int|
            0 <= i < r@.len() ==> (#[trigger] r@[i]).0 + r@[i].1 <= data@.len() && data@.subrange(
                r@[i].0 as int,
                r@[i].0 + r@[i].1,
            ) == chunks_of(data@)[i],
{
    assert(data@.subrange(0, data@.len() as int) =~= data@);
    chunk_spans_in(data, 0, data.len())
}

/// An input no longer than the minimum is one chunk, of its own length.
pub proof fn lemma_short_input_one_chunk(s: Seq<u8>)
    requires
        0 < s.len() <= CHUNK_MIN,
    ensures
        chunks_of(s) == seq![s],
{
    assert(s.take(s.len() as int) =~= s);
    assert(s.skip(s.len() as int) =~= Seq::<u8>::empty());
    assert(chunks_of(Seq::<u8>::empty()) == Seq::<Seq<u8>>::empty());
    assert(chunks_of(s) =~= seq![s]);
}

} // verus!
