//! Framing of what travels through the tunnel between the two proxy halves:
//! datagrams tagged with a variable-length peer id, and length-prefixed
//! messages on reliable streams.
use vstd::prelude::*;

verus! {

/// Largest value a variable-length integer can carry (62 bits).
pub const VARINT_MAX: u64 = 0x3fff_ffff_ffff_ffff;

/// The bytes of the variable-length integer `v`: the two high bits of the
/// first byte give the length (1, 2, 4 or 8 bytes), the rest is `v` in
/// big-endian order.
pub open spec fn varint_bytes(v: u64) -> Seq<u8> {
    if v < 0x40 {
        seq![v as u8]
    } else if v < 0x4000 {
        seq![(0x40 | (v >> 8)) as u8, (v & 0xff) as u8]
    } else if v < 0x4000_0000 {
        seq![
            (0x80 | (v >> 24)) as u8,
            ((v >> 16) & 0xff) as u8,
            ((v >> 8) & 0xff) as u8,
            (v & 0xff) as u8,
        ]
    } else {
        seq![
            (0xc0 | (v >> 56)) as u8,
            ((v >> 48) & 0xff) as u8,
            ((v >> 40) & 0xff) as u8,
            ((v >> 32) & 0xff) as u8,
            ((v >> 24) & 0xff) as u8,
            ((v >> 16) & 0xff) as u8,
            ((v >> 8) & 0xff) as u8,
            (v & 0xff) as u8,
        ]
    }
}

/// Length of a variable-length integer whose first byte is `b0`.
pub open spec fn varint_len(b0: u8) -> nat {
    let tag = b0 >> 6u8;
    if tag == 0 {
        1
    } else if tag == 1 {
        2
    } else if tag == 2 {
        4
    } else {
        8
    }
}

/// Value of the variable-length integer at the start of `s`, whose length is
/// at least `varint_len(s[0])`.
pub open spec fn varint_value(s: Seq<u8>) -> u64 {
    let tag = s[0] >> 6u8;
    let hi = (s[0] & 0x3f) as u64;
    if tag == 0 {
        hi
    } else if tag == 1 {
        hi << 8u64 | s[1] as u64
    } else if tag == 2 {
        hi << 24u64 | (s[1] as u64) << 16u64 | (s[2] as u64) << 8u64 | s[3] as u64
    } else {
        hi << 56u64 | (s[1] as u64) << 48u64 | (s[2] as u64) << 40u64 | (s[3] as u64) << 32u64
            | (s[4] as u64) << 24u64 | (s[5] as u64) << 16u64 | (s[6] as u64) << 8u64
            | s[7] as u64
    }
}

/// The variable-length integer at the start of `s` and the number of bytes
/// it takes, or `None` where `s` is too short to hold one.
pub open spec fn varint_decode(s: Seq<u8>) -> Option<(u64, nat)> {
    if s.len() == 0 || s.len() < varint_len(s[0]) {
        None
    } else {
        Some((varint_value(s), varint_len(s[0])))
    }
}

/// Decoding the bytes of `v`, followed by anything, gives back `v` and the
/// number of bytes that encode it.
pub proof fn lemma_varint_round_trip(v: u64, rest: Seq<u8>)
    requires
        v <= VARINT_MAX,
    ensures
        varint_decode(varint_bytes(v) + rest) == Some((v, varint_bytes(v).len())),
{
    let s = varint_bytes(v) + rest;
    if v < 0x40 {
        let b0 = v as u8;
        assert(v < 0x40 ==> (b0 >> 6u8 == 0 && (b0 & 0x3f) as u64 == v)) by (bit_vector)
            requires
                b0 == v as u8,
        ;
    } else if v < 0x4000 {
        let b0 = (0x40 | (v >> 8)) as u8;
        let b1 = (v & 0xff) as u8;
        assert(0x40 <= v < 0x4000 ==> (b0 >> 6u8 == 1 && (((b0 & 0x3f) as u64) << 8u64 | b1 as u64)
            == v)) by (bit_vector)
            requires
                b0 == (0x40 | (v >> 8)) as u8,
                b1 == (v & 0xff) as u8,
        ;
    } else if v < 0x4000_0000 {
        let b0 = (0x80 | (v >> 24)) as u8;
        let b1 = ((v >> 16) & 0xff) as u8;
        let b2 = ((v >> 8) & 0xff) as u8;
        let b3 = (v & 0xff) as u8;
        assert(0x4000 <= v < 0x4000_0000 ==> (b0 >> 6u8 == 2 && (((b0 & 0x3f) as u64) << 24u64
            | (b1 as u64) << 16u64 | (b2 as u64) << 8u64 | b3 as u64) == v)) by (bit_vector)
            requires
                b0 == (0x80 | (v >> 24)) as u8,
                b1 == ((v >> 16) & 0xff) as u8,
                b2 == ((v >> 8) & 0xff) as u8,
                b3 == (v & 0xff) as u8,
        ;
    } else {
        let b0 = (0xc0 | (v >> 56)) as u8;
        let b1 = ((v >> 48) & 0xff) as u8;
        let b2 = ((v >> 40) & 0xff) as u8;
        let b3 = ((v >> 32) & 0xff) as u8;
        let b4 = ((v >> 24) & 0xff) as u8;
        let b5 = ((v >> 16) & 0xff) as u8;
        let b6 = ((v >> 8) & 0xff) as u8;
        let b7 = (v & 0xff) as u8;
        assert(0x4000_0000 <= v <= 0x3fff_ffff_ffff_ffff ==> (b0 >> 6u8 == 3 && (((b0 & 0x3f) as u64)
            << 56u64 | (b1 as u64) << 48u64 | (b2 as u64) << 40u64 | (b3 as u64) << 32u64
            | (b4 as u64) << 24u64 | (b5 as u64) << 16u64 | (b6 as u64) << 8u64 | b7 as u64)
            == v)) by (bit_vector)
            requires
                b0 == (0xc0 | (v >> 56)) as u8,
                b1 == ((v >> 48) & 0xff) as u8,
                b2 == ((v >> 40) & 0xff) as u8,
                b3 == ((v >> 32) & 0xff) as u8,
                b4 == ((v >> 24) & 0xff) as u8,
                b5 == ((v >> 16) & 0xff) as u8,
                b6 == ((v >> 8) & 0xff) as u8,
                b7 == (v & 0xff) as u8,
        ;
    }
}

/// Relies on quinn-proto's `VarInt::from_u64` and `Codec::encode` for
/// `VarInt`: a value below 2^62 is appended as one, two, four or eight
/// big-endian bytes whose two high bits give the length.
#[verifier::external_body]
fn quic_varint_encode(v: u64, out: &mut Vec<u8>)
    requires
        v <= VARINT_MAX,
    ensures
        final(out)@ == old(out)@ + varint_bytes(v),
{
    quinn_proto::coding::Codec::encode(&quinn_proto::VarInt::from_u64(v).unwrap(), out)
}

/// Relies on quinn-proto's `Codec::decode` for `VarInt`, reading from
/// `s[at..]`: the value of the variable-length integer there, or `None`
/// where the bytes end before it does.
#[verifier::external_body]
fn quic_varint_decode(s: &[u8], at: usize) -> (r: Option<u64>)
    requires
        at <= s@.len(),
    ensures
        r is None <==> varint_decode(s@.subrange(at as int, s@.len() as int)) is None,
        r matches Some(v) ==> (varint_decode(s@.subrange(at as int, s@.len() as int)) matches Some((w, _)) && v == w),
{
    let mut buf = &s[at..];
    match <quinn_proto::VarInt as quinn_proto::coding::Codec>::decode(&mut buf) {
        Ok(v) => Some(v.into_inner()),
        Err(_) => None,
    }
}

/// Appends the variable-length integer `v` to `out`.
pub fn encode_varint(v: u64, out: &mut Vec<u8>)
    requires
        v <= VARINT_MAX,
    ensures
        final(out)@ == old(out)@ + varint_bytes(v),
{
    quic_varint_encode(v, out)
}

/// Reads the variable-length integer at the start of `s`: its value and the
/// number of bytes it takes.
pub fn decode_varint(s: &[u8]) -> (r: Option<(u64, usize)>)
    ensures
        r matches Some((v, n)) ==> varint_decode(s@) == Some((v, n as nat)),
        r is None ==> varint_decode(s@) is None,
{
    assert(s@.subrange(0, s@.len() as int) =~= s@);
    decode_varint_at(s, 0)
}

/// A game packet carried through the tunnel's unreliable datagrams, tagged
/// with the id of the game peer it belongs to.
pub struct Datagram {
    pub peer_id: u64,
    pub data: Vec<u8>,
}

/// Bytes of the datagram for `peer_id` carrying `data`.
pub open spec fn datagram_bytes(peer_id: u64, data: Seq<u8>) -> Seq<u8> {
    varint_bytes(peer_id) + data
}

/// What a datagram decodes to: the peer id and the bytes after it.
pub open spec fn datagram_decode(s: Seq<u8>) -> Option<(u64, Seq<u8>)> {
    match varint_decode(s) {
        Some((id, n)) => Some((id, s.subrange(n as int, s.len() as int))),
        None => None,
    }
}

/// Error of a frame that does not decode.
#[derive(Debug, PartialEq, Eq, Structural, Clone, Copy)]
pub enum FrameError {
    /// The bytes end before the frame does.
    Truncated,
}

impl Datagram {
    pub fn new(peer_id: u64, data: Vec<u8>) -> (r: Datagram)
        ensures
            r.peer_id == peer_id,
            r.data@ == data@,
    {
        Datagram { peer_id, data }
    }

    /// Appends the encoded datagram to `out`.
    pub fn encode(&self, out: &mut Vec<u8>)
        requires
            self.peer_id <= VARINT_MAX,
        ensures
            final(out)@ == old(out)@ + datagram_bytes(self.peer_id, self.data@),
    {
        encode_varint(self.peer_id, out);
        let ghost mid = out@;
        let mut i: usize = 0;
        while i < self.data.len()
            invariant
                i <= self.data@.len(),
                out@ == mid + self.data@.subrange(0, i as int),
            decreases self.data@.len() - i,
        {
            out.push(self.data[i]);
            i = i + 1;
            assert(out@ =~= mid + self.data@.subrange(0, i as int));
        }
        assert(self.data@.subrange(0, i as int) =~= self.data@);
        assert(out@ =~= old(out)@ + datagram_bytes(self.peer_id, self.data@));
    }

    /// Decodes a datagram; fails where the bytes end inside the peer id.
    pub fn decode(data: &[u8]) -> (r: Result<Datagram, FrameError>)
        ensures
            datagram_decode(data@) is None <==> r is Err,
            r matches Ok(d) ==> datagram_decode(data@) == Some((d.peer_id, d.data@)),
    {
        match decode_varint(data) {
            None => Err(FrameError::Truncated),
            Some((peer_id, n)) => {
                let rest = slice_to_vec(data, n, data.len());
                Ok(Datagram { peer_id, data: rest })
            },
        }
    }
}

/// Copies `s[start..end]` into a new vector.
pub fn slice_to_vec(s: &[u8], start: usize, end: usize) -> (r: Vec<u8>)
    requires
        start <= end <= s@.len(),
    ensures
        r@ == s@.subrange(start as int, end as int),
{
    let mut r: Vec<u8> = Vec::new();
    let mut i: usize = start;
    while i < end
        invariant
            start <= i <= end,
            end <= s@.len(),
            r@ == s@.subrange(start as int, i as int),
        decreases end - i,
    {
        r.push(s[i]);
        i = i + 1;
        assert(r@ =~= s@.subrange(start as int, i as int));
    }
    r
}

/// Decoding an encoded datagram gives back its peer id and payload.
pub proof fn lemma_datagram_round_trip(peer_id: u64, data: Seq<u8>)
    requires
        peer_id <= VARINT_MAX,
    ensures
        datagram_decode(datagram_bytes(peer_id, data)) == Some((peer_id, data)),
{
    lemma_varint_round_trip(peer_id, data);
    let s = datagram_bytes(peer_id, data);
    let n = varint_bytes(peer_id).len();
    assert(s.subrange(n as int, s.len() as int) =~= data);
}

/// Little-endian bytes of `x`.
pub open spec fn u32_le(x: u32) -> Seq<u8> {
    seq![
        (x & 0xff) as u8,
        ((x >> 8u32) & 0xff) as u8,
        ((x >> 16u32) & 0xff) as u8,
        ((x >> 24u32) & 0xff) as u8,
    ]
}

/// The `u32` whose little-endian bytes are `s[0..4]`.
pub open spec fn u32_from_le(s: Seq<u8>) -> u32 {
    (s[0] as u32) | (s[1] as u32) << 8u32 | (s[2] as u32) << 16u32 | (s[3] as u32) << 24u32
}

pub proof fn lemma_u32_le_round_trip(x: u32)
    ensures
        u32_le(x).len() == 4,
        u32_from_le(u32_le(x)) == x,
{
    let b0 = (x & 0xff) as u8;
    let b1 = ((x >> 8u32) & 0xff) as u8;
    let b2 = ((x >> 16u32) & 0xff) as u8;
    let b3 = ((x >> 24u32) & 0xff) as u8;
    assert((b0 as u32) | (b1 as u32) << 8u32 | (b2 as u32) << 16u32 | (b3 as u32) << 24u32 == x)
        by (bit_vector)
        requires
            b0 == (x & 0xff) as u8,
            b1 == ((x >> 8u32) & 0xff) as u8,
            b2 == ((x >> 16u32) & 0xff) as u8,
            b3 == ((x >> 24u32) & 0xff) as u8,
    ;
}

/// Appends the little-endian bytes of `x` to `out`.
pub fn push_u32_le(x: u32, out: &mut Vec<u8>)
    ensures
        final(out)@ == old(out)@ + u32_le(x),
{
    out.push((x & 0xff) as u8);
    out.push(((x >> 8u32) & 0xff) as u8);
    out.push(((x >> 16u32) & 0xff) as u8);
    out.push(((x >> 24u32) & 0xff) as u8);
    assert(final(out)@ =~= old(out)@ + u32_le(x));
}

/// Reads the little-endian `u32` at `s[at..at + 4]`.
pub fn read_u32_le(s: &[u8], at: usize) -> (r: u32)
    requires
        at + 4 <= s@.len(),
    ensures
        r == u32_from_le(s@.subrange(at as int, at + 4)),
{
    (s[at] as u32) | (s[at + 1] as u32) << 8u32 | (s[at + 2] as u32) << 16u32 | (s[at + 3] as u32)
        << 24u32
}

/// Bytes of a stream message: its length as a little-endian `u32`, then the
/// payload.
pub open spec fn message_bytes(payload: Seq<u8>) -> Seq<u8> {
    u32_le(payload.len() as u32) + payload
}

/// The first message in `s` and the number of bytes it takes, or `None`
/// where `s` does not yet hold a whole message.
pub open spec fn message_decode(s: Seq<u8>) -> Option<(Seq<u8>, nat)> {
    if s.len() < 4 {
        None
    } else {
        let n = u32_from_le(s) as nat;
        if s.len() < 4 + n {
            None
        } else {
            Some((s.subrange(4, 4 + n as int), 4 + n))
        }
    }
}

/// Appends the stream message carrying `payload` to `out`.
pub fn encode_message(payload: &[u8], out: &mut Vec<u8>)
    requires
        payload@.len() <= u32::MAX,
    ensures
        final(out)@ == old(out)@ + message_bytes(payload@),
{
    push_u32_le(payload.len() as u32, out);
    let ghost mid = out@;
    let mut i: usize = 0;
    while i < payload.len()
        invariant
            i <= payload@.len(),
            out@ == mid + payload@.subrange(0, i as int),
        decreases payload@.len() - i,
    {
        out.push(payload[i]);
        i = i + 1;
        assert(out@ =~= mid + payload@.subrange(0, i as int));
    }
    assert(payload@.subrange(0, i as int) =~= payload@);
    assert(out@ =~= old(out)@ + message_bytes(payload@));
}

/// Takes the first whole message out of the bytes received so far: its payload
/// and the number of bytes it took, or `None` where more bytes are needed.
pub fn decode_message(s: &[u8]) -> (r: Option<(Vec<u8>, usize)>)
    ensures
        r matches Some((p, n)) ==> message_decode(s@) == Some((p@, n as nat)),
        r is None ==> message_decode(s@) is None,
{
    if s.len() < 4 {
        return None;
    }
    let n = read_u32_le(s, 0);
    assert(s@.subrange(0, 4) =~= s@.subrange(0, 4));
    assert(u32_from_le(s@.subrange(0, 4)) == u32_from_le(s@));
    if s.len() - 4 < n as usize {
        return None;
    }
    let payload = slice_to_vec(s, 4, 4 + n as usize);
    Some((payload, 4 + n as usize))
}

/// Decoding a stream message, followed by anything, gives back its payload and
/// the number of bytes it took.
pub proof fn lemma_message_round_trip(payload: Seq<u8>, rest: Seq<u8>)
    requires
        payload.len() <= u32::MAX,
    ensures
        message_decode(message_bytes(payload) + rest) == Some((payload, 4 + payload.len())),
{
    lemma_u32_le_round_trip(payload.len() as u32);
    let s = message_bytes(payload) + rest;
    assert(u32_from_le(s) == u32_from_le(u32_le(payload.len() as u32)));
    assert(s.subrange(4, 4 + payload.len() as int) =~= payload);
}

/// Appends all of `s` to `out`.
pub fn extend_bytes(out: &mut Vec<u8>, s: &[u8])
    ensures
        final(out)@ == old(out)@ + s@,
{
    let ghost start = out@;
    let mut i: usize = 0;
    while i < s.len()
        invariant
            i <= s@.len(),
            out@ == start + s@.subrange(0, i as int),
        decreases s@.len() - i,
    {
        out.push(s[i]);
        i = i + 1;
        assert(out@ =~= start + s@.subrange(0, i as int));
    }
    assert(s@.subrange(0, i as int) =~= s@);
}

/// Four bytes are the little-endian bytes of the `u32` they encode.
pub proof fn lemma_u32_le_from(h: Seq<u8>)
    requires
        h.len() == 4,
    ensures
        h == u32_le(u32_from_le(h)),
{
    let x = u32_from_le(h);
    let b0 = h[0];
    let b1 = h[1];
    let b2 = h[2];
    let b3 = h[3];
    assert(b0 == (x & 0xff) as u8 && b1 == ((x >> 8u32) & 0xff) as u8 && b2 == ((x >> 16u32) & 0xff)
        as u8 && b3 == ((x >> 24u32) & 0xff) as u8) by (bit_vector)
        requires
            x == (b0 as u32) | (b1 as u32) << 8u32 | (b2 as u32) << 16u32 | (b3 as u32) << 24u32,
    ;
    assert(h =~= u32_le(x));
}

/// Reads the variable-length integer at `s[at..]`: its value and the number
/// of bytes it takes.
pub fn decode_varint_at(s: &[u8], at: usize) -> (r: Option<(u64, usize)>)
    requires
        at <= s@.len(),
    ensures
        r matches Some((v, n)) ==> varint_decode(s@.subrange(at as int, s@.len() as int)) == Some(
            (v, n as nat),
        ) && at + n <= s@.len(),
        r is None ==> varint_decode(s@.subrange(at as int, s@.len() as int)) is None,
{
    let ghost t = s@.subrange(at as int, s@.len() as int);
    match quic_varint_decode(s, at) {
        None => None,
        Some(v) => {
            let b0 = s[at];
            assert(t[0] == b0);
            let tag = b0 >> 6u8;
            let n: usize = if tag == 0 {
                1
            } else if tag == 1 {
                2
            } else if tag == 2 {
                4
            } else {
                8
            };
            Some((v, n))
        },
    }
}

} // verus!
