//! CRC-32 (the reflected polynomial 0xEDB88320, as zip archives use it),
//! computed one bit at a time.
use vstd::prelude::*;

verus! {

pub const CRC32_POLY: u32 = 0xEDB8_8320;

/// One shift of the CRC register.
pub open spec fn crc_step(c: u32) -> u32 {
    if c & 1 == 1 {
        (c >> 1u32) ^ CRC32_POLY
    } else {
        c >> 1u32
    }
}

/// `n` shifts of the CRC register.
pub open spec fn crc_steps(c: u32, n: nat) -> u32
    decreases n,
{
    if n == 0 {
        c
    } else {
        crc_steps(crc_step(c), (n - 1) as nat)
    }
}

/// The register after taking in byte `b`.
pub open spec fn crc_byte(c: u32, b: u8) -> u32 {
    crc_steps(c ^ (b as u32), 8)
}

/// The register after taking in all of `s`, starting from `c`.
pub open spec fn crc_update(c: u32, s: Seq<u8>) -> u32
    decreases s.len(),
{
    if s.len() == 0 {
        c
    } else {
        crc_byte(crc_update(c, s.drop_last()), s.last())
    }
}

/// The CRC-32 of `s`.
pub open spec fn crc32(s: Seq<u8>) -> u32 {
    crc_update(0xffff_ffff, s) ^ 0xffff_ffff
}

/// Takes one byte into the register.
pub fn crc_update_byte(c: u32, b: u8) -> (r: u32)
    ensures
        r == crc_byte(c, b),
{
    let mut x: u32 = c ^ (b as u32);
    let mut k: usize = 0;
    while k < 8
        invariant
            k <= 8,
            crc_steps(x, (8 - k) as nat) == crc_byte(c, b),
        decreases 8 - k,
    {
        x = if x & 1 == 1 {
            (x >> 1u32) ^ CRC32_POLY
        } else {
            x >> 1u32
        };
        k = k + 1;
    }
    x
}

/// Takes all of `data` into the register `c`.
pub fn crc32_update(c: u32, data: &[u8]) -> (r: u32)
    ensures
        r == crc_update(c, data@),
{
    let mut x = c;
    let mut i: usize = 0;
    while i < data.len()
        invariant
            i <= data@.len(),
            x == crc_update(c, data@.subrange(0, i as int)),
        decreases data@.len() - i,
    {
        assert(data@.subrange(0, i + 1).drop_last() =~= data@.subrange(0, i as int));
        x = crc_update_byte(x, data[i]);
        i = i + 1;
    }
    assert(data@.subrange(0, i as int) =~= data@);
    x
}

/// The CRC-32 of `data`.
pub fn crc32_of(data: &[u8]) -> (r: u32)
    ensures
        r == crc32(data@),
{
    crc32_update(0xffff_ffff, data) ^ 0xffff_ffff
}

} // verus!
