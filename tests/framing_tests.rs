use factorio_cacher::framing::{decode_message, decode_varint, encode_message, encode_varint, Datagram, FrameError};

#[test]
fn varint_one_byte() {
    let mut out = Vec::new();
    encode_varint(37, &mut out);
    assert_eq!(out, vec![0x25]);
    assert_eq!(decode_varint(&out), Some((37, 1)));
}

#[test]
fn varint_two_bytes() {
    let mut out = Vec::new();
    encode_varint(15293, &mut out);
    assert_eq!(out, vec![0x7b, 0xbd]);
    assert_eq!(decode_varint(&out), Some((15293, 2)));
}

#[test]
fn varint_four_bytes() {
    let mut out = Vec::new();
    encode_varint(494878333, &mut out);
    assert_eq!(out, vec![0x9d, 0x7f, 0x3e, 0x7d]);
    assert_eq!(decode_varint(&out), Some((494878333, 4)));
}

#[test]
fn varint_eight_bytes() {
    let mut out = Vec::new();
    encode_varint(151288809941952652, &mut out);
    assert_eq!(out, vec![0xc2, 0x19, 0x7c, 0x5e, 0xff, 0x14, 0xe8, 0x8c]);
    assert_eq!(decode_varint(&out), Some((151288809941952652, 8)));
}

#[test]
fn varint_truncated() {
    assert_eq!(decode_varint(&[]), None);
    assert_eq!(decode_varint(&[0x7b]), None);
}

#[test]
fn datagram_round_trip() {
    let d = Datagram::new(300, vec![1, 2, 3]);
    let mut buf = Vec::new();
    d.encode(&mut buf);
    assert_eq!(buf, vec![0x41, 0x2c, 1, 2, 3]);
    let back = Datagram::decode(&buf).unwrap();
    assert_eq!(back.peer_id, 300);
    assert_eq!(back.data, vec![1, 2, 3]);
}

#[test]
fn datagram_empty_is_error() {
    assert!(matches!(Datagram::decode(&[]), Err(FrameError::Truncated)));
}

#[test]
fn message_round_trip() {
    let mut buf = Vec::new();
    encode_message(&[9, 8, 7], &mut buf);
    assert_eq!(buf, vec![3, 0, 0, 0, 9, 8, 7]);
    buf.push(42);
    assert_eq!(decode_message(&buf), Some((vec![9, 8, 7], 7)));
    assert_eq!(decode_message(&buf[..5]), None);
}

#[test]
fn datagram_round_trip_many() {
    let ids: [u64; 6] = [0, 63, 64, 16383, 16384, (1u64 << 62) - 1];
    for (i, id) in ids.iter().enumerate() {
        let payload: Vec<u8> = (0..(i * 37)).map(|x| (x * 7 + i) as u8).collect();
        let mut buf = Vec::new();
        Datagram::new(*id, payload.clone()).encode(&mut buf);
        let back = Datagram::decode(&buf).unwrap();
        assert_eq!(back.peer_id, *id);
        assert_eq!(back.data, payload);
    }
}
