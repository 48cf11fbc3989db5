//! Forcing a buffer's CRC-32 to a chosen value by rewriting four of its
//! bytes. The CRC register is linear over GF(2), and each shift of it can be
//! undone, so the four bytes follow from running the register forward over
//! what precedes them and backward over what follows.
use vstd::prelude::*;
use crate::crc::{CRC32_POLY, crc32, crc32_update, crc_byte, crc_step, crc_steps, crc_update};

verus! {

/// Undoes one shift of the CRC register.
pub open spec fn crc_unstep(t: u32) -> u32 {
    if t & 0x8000_0000 != 0 {
        ((t ^ CRC32_POLY) << 1u32) | 1
    } else {
        t << 1u32
    }
}

/// Undoes `n` shifts of the CRC register.
pub open spec fn crc_unsteps(t: u32, n: nat) -> u32
    decreases n,
{
    if n == 0 {
        t
    } else {
        crc_unstep(crc_unsteps(t, (n - 1) as nat))
    }
}

/// The register before `s` that leads to `t` after it.
pub open spec fn crc_back(t: u32, s: Seq<u8>) -> u32
    decreases s.len(),
{
    if s.len() == 0 {
        t
    } else {
        crc_back(crc_unsteps(t, 8) ^ (s.last() as u32), s.drop_last())
    }
}

/// The little-endian word of four bytes.
pub open spec fn le_word(x0: u8, x1: u8, x2: u8, x3: u8) -> u32 {
    (x0 as u32) | (x1 as u32) << 8u32 | (x2 as u32) << 16u32 | (x3 as u32) << 24u32
}

proof fn lemma_unstep(t: u32)
    ensures
        crc_step(crc_unstep(t)) == t,
{
    assert((t & 0x8000_0000 != 0 ==> (((((t ^ 0xEDB8_8320) << 1u32) | 1) & 1 == 1) && ((((t
        ^ 0xEDB8_8320) << 1u32) | 1) >> 1u32) ^ 0xEDB8_8320 == t)) && (t & 0x8000_0000 == 0 ==> (
    ((t << 1u32) & 1) != 1 && (t << 1u32) >> 1u32 == t))) by (bit_vector);
}

proof fn lemma_unsteps(t: u32, n: nat)
    ensures
        crc_steps(crc_unsteps(t, n), n) == t,
    decreases n,
{
    if n > 0 {
        lemma_unstep(crc_unsteps(t, (n - 1) as nat));
        lemma_unsteps(t, (n - 1) as nat);
    }
}

/// Running forward over `s` from the register `crc_back(t, s)` gives `t`.
pub proof fn lemma_crc_back(t: u32, s: Seq<u8>)
    ensures
        crc_update(crc_back(t, s), s) == t,
    decreases s.len(),
{
    if s.len() > 0 {
        let b = s.last() as u32;
        let u = crc_unsteps(t, 8);
        lemma_crc_back(u ^ b, s.drop_last());
        assert((u ^ b) ^ b == u) by (bit_vector);
        lemma_unsteps(t, 8);
    }
}

proof fn lemma_step_linear(a: u32, b: u32)
    ensures
        crc_step(a ^ b) == crc_step(a) ^ crc_step(b),
{
    assert((if (a ^ b) & 1 == 1 {
        ((a ^ b) >> 1u32) ^ 0xEDB8_8320u32
    } else {
        (a ^ b) >> 1u32
    }) == (if a & 1 == 1 {
        (a >> 1u32) ^ 0xEDB8_8320u32
    } else {
        a >> 1u32
    }) ^ (if b & 1 == 1 {
        (b >> 1u32) ^ 0xEDB8_8320u32
    } else {
        b >> 1u32
    })) by (bit_vector);
}

proof fn lemma_steps_linear(a: u32, b: u32, n: nat)
    ensures
        crc_steps(a ^ b, n) == crc_steps(a, n) ^ crc_steps(b, n),
    decreases n,
{
    if n > 0 {
        lemma_step_linear(a, b);
        lemma_steps_linear(crc_step(a), crc_step(b), (n - 1) as nat);
    }
}

proof fn lemma_steps_split(a: u32, m: nat, n: nat)
    ensures
        crc_steps(a, m + n) == crc_steps(crc_steps(a, m), n),
    decreases m,
{
    if m > 0 {
        lemma_steps_split(crc_step(a), (m - 1) as nat, n);
        assert((m + n - 1) as nat == ((m - 1) as nat + n) as nat);
    }
}

/// Shifting the word `w` moved up a byte, from its `i`-th shift on, only
/// moves it back down.
proof fn lemma_shift_tail(w: u32, i: u32)
    requires
        i <= 8,
    ensures
        crc_steps((w << 8u32) >> i, (8 - i) as nat) == w & 0x00ff_ffff,
    decreases 8 - i,
{
    if i < 8 {
        assert(((w << 8u32) >> i) & 1 != 1 && (((w << 8u32) >> i) >> 1u32) == (w << 8u32) >> (i
            + 1)) by (bit_vector)
            requires
                i < 8,
        ;
        lemma_shift_tail(w, (i + 1) as u32);
        assert(((8 - i) as nat - 1) as nat == (8 - (i + 1)) as nat);
    } else {
        assert((w << 8u32) >> 8u32 == w & 0x00ff_ffff) by (bit_vector);
    }
}

/// Eight shifts of a word whose low byte is zero only move it down a byte.
proof fn lemma_steps_shift8(w: u32)
    ensures
        crc_steps(w << 8u32, 8) == w & 0x00ff_ffff,
{
    lemma_shift_tail(w, 0);
    assert((w << 8u32) >> 0u32 == w << 8u32) by (bit_vector);
}

proof fn lemma_peel(c: u32, x: u8, rest: u32, n: nat)
    ensures
        crc_steps(c ^ ((x as u32) | (rest << 8u32)), 8 + n) == crc_steps(
            crc_byte(c, x) ^ (rest & 0x00ff_ffff),
            n,
        ),
{
    let xb = x as u32;
    assert(c ^ (xb | (rest << 8u32)) == (c ^ xb) ^ (rest << 8u32)) by (bit_vector)
        requires
            xb < 256,
    ;
    lemma_steps_split(c ^ ((x as u32) | (rest << 8u32)), 8, n);
    lemma_steps_linear(c ^ xb, rest << 8u32, 8);
    lemma_steps_shift8(rest);
}

/// Taking in four bytes is 32 shifts of the register with their
/// little-endian word mixed in.
pub proof fn lemma_four_bytes(c: u32, x0: u8, x1: u8, x2: u8, x3: u8)
    ensures
        crc_update(c, seq![x0, x1, x2, x3]) == crc_steps(c ^ le_word(x0, x1, x2, x3), 32),
{
    let s = seq![x0, x1, x2, x3];
    assert(s.drop_last() =~= seq![x0, x1, x2]);
    assert(seq![x0, x1, x2].drop_last() =~= seq![x0, x1]);
    assert(seq![x0, x1].drop_last() =~= seq![x0]);
    assert(seq![x0].drop_last() =~= Seq::<u8>::empty());
    let c1 = crc_byte(c, x0);
    let c2 = crc_byte(c1, x1);
    let c3 = crc_byte(c2, x2);
    assert(crc_update(c, Seq::<u8>::empty()) == c);
    assert(crc_update(c, seq![x0]) == crc_byte(crc_update(c, seq![x0].drop_last()), seq![x0].last()));
    assert(crc_update(c, seq![x0]) == c1);
    assert(crc_update(c, seq![x0, x1]) == c2);
    assert(crc_update(c, seq![x0, x1, x2]) == c3);
    let (b0, b1, b2, b3) = (x0 as u32, x1 as u32, x2 as u32, x3 as u32);
    let r1 = b1 | (b2 << 8u32) | (b3 << 16u32);
    let r2 = b2 | (b3 << 8u32);
    assert(le_word(x0, x1, x2, x3) == b0 | (b1 << 8u32) | (b2 << 16u32) | (b3 << 24u32));
    assert(b0 | (b1 << 8u32) | (b2 << 16u32) | (b3 << 24u32) == b0 | (r1 << 8u32) && r1 & 0x00ff_ffff == r1 && r1 == b1 | (
    r2 << 8u32) && r2 & 0x00ff_ffff == r2 && r2 == b2 | (b3 << 8u32) && b3 & 0x00ff_ffff == b3
        && b3 == b3 | (0u32 << 8u32) && 0u32 & 0x00ff_ffff == 0) by (bit_vector)
        requires
            b0 < 256,
            b1 < 256,
            b2 < 256,
            b3 < 256,
            r1 == b1 | (b2 << 8u32) | (b3 << 16u32),
            r2 == b2 | (b3 << 8u32),
    ;
    lemma_peel(c, x0, r1, 24);
    lemma_peel(c1, x1, r2, 16);
    lemma_peel(c2, x2, b3, 8);
    lemma_peel(c3, x3, 0, 0);
    assert(crc_byte(c3, x3) ^ 0 == crc_byte(c3, x3)) by (bit_vector);
    assert(c3 ^ b3 == c3 ^ (b3 | (0u32 << 8u32))) by (bit_vector);
}

/// Taking in `a` then `b` is taking in `a + b`.
pub proof fn lemma_crc_append(c: u32, a: Seq<u8>, b: Seq<u8>)
    ensures
        crc_update(c, a + b) == crc_update(crc_update(c, a), b),
    decreases b.len(),
{
    if b.len() == 0 {
        assert(a + b =~= a);
    } else {
        lemma_crc_append(c, a, b.drop_last());
        assert((a + b).drop_last() =~= a + b.drop_last());
        assert((a + b).last() == b.last());
    }
}

/// Undoes `n` shifts of the register.
fn unsteps(t: u32, n: usize) -> (r: u32)
    ensures
        r == crc_unsteps(t, n as nat),
{
    let mut x = t;
    let mut k: usize = 0;
    while k < n
        invariant
            k <= n,
            x == crc_unsteps(t, k as nat),
        decreases n - k,
    {
        x = if x & 0x8000_0000 != 0 {
            ((x ^ CRC32_POLY) << 1u32) | 1
        } else {
            x << 1u32
        };
        k = k + 1;
    }
    x
}

/// Rewrites `buf[p..p + 4]` so that the CRC-32 of `buf` becomes `target`;
/// every other byte stays.
pub fn solve_crc(buf: &mut Vec<u8>, p: usize, target: u32)
    requires
        p + 4 <= old(buf)@.len(),
    ensures
        final(buf)@.len() == old(buf)@.len(),
        forall|i: int| 0 <= i < old(buf)@.len() && !(p <= i < p + 4) ==> final(buf)@[i] == old(buf)@[i],
        crc32(final(buf)@) == target,
{
    let n = buf.len();
    let ghost b0 = buf@;
    let ghost tail = b0.subrange(p + 4, n as int);
    let s1 = crc32_update(0xffff_ffff, slice_prefix(buf, p).as_slice());
    let t_end = target ^ 0xffff_ffff;
    let mut t = t_end;
    let mut i: usize = n;
    assert(b0.subrange(p + 4, i as int) =~= tail);
    while i > p + 4
        invariant
            p + 4 <= i <= n,
            n == b0.len(),
            buf@ == b0,
            tail == b0.subrange(p + 4, n as int),
            crc_back(t_end, tail) == crc_back(t, b0.subrange(p + 4, i as int)),
        decreases i,
    {
        let b = buf[i - 1];
        assert(b0.subrange(p + 4, i as int).drop_last() =~= b0.subrange(p + 4, i - 1));
        t = unsteps(t, 8) ^ (b as u32);
        i = i - 1;
    }
    assert(b0.subrange(p + 4, i as int) =~= Seq::<u8>::empty());
    let s2 = t;
    let u = unsteps(s2, 32);
    let w = u ^ s1;
    let x0 = (w & 0xff) as u8;
    let x1 = ((w >> 8u32) & 0xff) as u8;
    let x2 = ((w >> 16u32) & 0xff) as u8;
    let x3 = ((w >> 24u32) & 0xff) as u8;
    buf.set(p, x0);
    buf.set(p + 1, x1);
    buf.set(p + 2, x2);
    buf.set(p + 3, x3);
    proof {
        let head = b0.subrange(0, p as int);
        let x = seq![x0, x1, x2, x3];
        assert(buf@ =~= head + x + tail);
        let (w0, w1, w2, w3) = (x0 as u32, x1 as u32, x2 as u32, x3 as u32);
        assert(le_word(x0, x1, x2, x3) == w0 | (w1 << 8u32) | (w2 << 16u32) | (w3 << 24u32));
        assert(w0 | (w1 << 8u32) | (w2 << 16u32) | (w3 << 24u32) == w) by (bit_vector)
            requires
                w0 == x0 as u32,
                w1 == x1 as u32,
                w2 == x2 as u32,
                w3 == x3 as u32,
                x0 == (w & 0xff) as u8,
                x1 == ((w >> 8u32) & 0xff) as u8,
                x2 == ((w >> 16u32) & 0xff) as u8,
                x3 == ((w >> 24u32) & 0xff) as u8,
        ;
        lemma_four_bytes(s1, x0, x1, x2, x3);
        assert(s1 ^ (u ^ s1) == u) by (bit_vector);
        lemma_unsteps(s2, 32);
        lemma_crc_back(t_end, tail);
        lemma_crc_append(0xffff_ffff, head, x);
        lemma_crc_append(0xffff_ffff, head + x, tail);
        assert(t_end ^ 0xffff_ffff == target) by (bit_vector)
            requires
                t_end == target ^ 0xffff_ffff,
        ;
    }
}

/// A copy of `buf[0..p]`.
fn slice_prefix(buf: &Vec<u8>, p: usize) -> (r: Vec<u8>)
    requires
        p <= buf@.len(),
    ensures
        r@ == buf@.subrange(0, p as int),
{
    crate::framing::slice_to_vec(buf.as_slice(), 0, p)
}

/// `data` cut or padded with zeros to `size` bytes.
pub open spec fn fitted(data: Seq<u8>, size: nat) -> Seq<u8> {
    if data.len() >= size {
        data.take(size as int)
    } else {
        data + Seq::new((size - data.len()) as nat, |i: int| 0u8)
    }
}

/// Brings a rebuilt world to the size that was announced, cutting it or
/// padding it with zeros, then rewrites its last four bytes so that its
/// CRC-32 is the announced one. A world shorter than four bytes is only
/// brought to size.
pub fn finalize_world_data(data: Vec<u8>, target_size: usize, target_crc: u32) -> (r: Vec<u8>)
    ensures
        r@.len() == target_size,
        target_size >= 4 ==> crc32(r@) == target_crc,
        target_size >= 4 ==> r@.take(target_size - 4) == fitted(data@, target_size as nat).take(
            target_size - 4,
        ),
        target_size < 4 ==> r@ == fitted(data@, target_size as nat),
{
    let mut out = data;
    let ghost d = out@;
    if out.len() >= target_size {
        out.truncate(target_size);
        assert(out@ =~= fitted(d, target_size as nat));
    } else {
        let mut k: usize = out.len();
        while k < target_size
            invariant
                d.len() <= k <= target_size,
                out@ == d + Seq::new((k - d.len()) as nat, |i: int| 0u8),
            decreases target_size - k,
        {
            out.push(0);
            k = k + 1;
            assert(out@ =~= d + Seq::new((k - d.len()) as nat, |i: int| 0u8));
        }
    }
    let ghost f = out@;
    assert(f == fitted(d, target_size as nat));
    if target_size >= 4 {
        solve_crc(&mut out, target_size - 4, target_crc);
        assert(out@.take(target_size - 4) =~= f.take(target_size - 4));
    }
    out
}

} // verus!
