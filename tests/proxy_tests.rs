use factorio_cacher::client_state::ClientProxyState;
use factorio_cacher::game_packet::{
    decode_block_request, decode_packet_type, encode_block_request, MapReadyForDownloadData,
    TransferBlockPacket, TRANSFER_BLOCK_SIZE,
};
use factorio_cacher::server_state::{
    release_held_packets, replace_first_occurrence, DownloadingWorldState, ServerProxyPhase,
    ServerProxyState,
};
use factorio_cacher::PacketDirection;

fn heartbeat(world_size: u32, aux_size: u32, crc: u32) -> Vec<u8> {
    let mut p = vec![7, 0x10];
    p.extend_from_slice(&world_size.to_le_bytes());
    p.extend_from_slice(&aux_size.to_le_bytes());
    p.extend_from_slice(&crc.to_le_bytes());
    p.extend_from_slice(&[0xaa, 0xbb]);
    p
}

fn block(id: u32, data: &[u8]) -> Vec<u8> {
    TransferBlockPacket { block_id: id, data: data.to_vec() }.encode_full_packet()
}

#[test]
fn block_request_packets() {
    let p = encode_block_request(258);
    assert_eq!(p, vec![12, 2, 1, 0, 0]);
    assert_eq!(decode_block_request(&p), Some(258));
    assert_eq!(decode_block_request(&[12, 2, 1]), None);
    assert_eq!(decode_packet_type(&[0x2c]), None);
    assert_eq!(decode_packet_type(&[0x4d, 1]), Some(13));
}

#[test]
fn transfer_block_packets() {
    let p = block(3, &[5, 6]);
    assert_eq!(p, vec![13, 3, 0, 0, 0, 5, 6]);
    let b = TransferBlockPacket::decode(&p).unwrap();
    assert_eq!(b.block_id, 3);
    assert_eq!(b.data, vec![5, 6]);
}

#[test]
fn map_ready_from_heartbeat() {
    let hb = heartbeat(1000, 10, 0x11223344);
    let m = MapReadyForDownloadData::try_decode_from_heartbeat(&hb).unwrap();
    assert_eq!(m.world_size, 1000);
    assert_eq!(m.aux_size, 10);
    assert_eq!(m.world_crc, 0x11223344);
    assert_eq!(m.extra, vec![0xaa, 0xbb]);
    let mut no_flag = hb.clone();
    no_flag[1] = 0;
    assert!(MapReadyForDownloadData::try_decode_from_heartbeat(&no_flag).is_none());
}

#[test]
fn client_serves_blocks_from_world() {
    let mut st = ClientProxyState::new(0);
    let mut out = Vec::new();
    st.on_packet_from_client(encode_block_request(1), 5, &mut out);
    assert!(out.is_empty());
    assert_eq!(st.pending_requests, vec![1]);
    let world: Vec<u8> = (0..1200u32).map(|i| (i % 251) as u8).collect();
    st.on_new_world_data(Some(world[..700].to_vec()), 6, &mut out);
    assert!(out.is_empty());
    assert_eq!(st.pending_requests, vec![1]);
    st.on_new_world_data(Some(world[700..].to_vec()), 7, &mut out);
    assert_eq!(out.len(), 1);
    assert_eq!(out[0].1, PacketDirection::ToClient);
    assert_eq!(out[0].0, block(1, &world[503..1006]));
    assert!(st.pending_requests.is_empty());
    out.clear();
    st.on_packet_from_client(encode_block_request(0), 8, &mut out);
    assert_eq!(out[0].0, block(0, &world[..503]));
    assert_eq!(st.last_block_request, 8);
}

#[test]
fn client_forwards_other_packets_and_frees_world() {
    let mut st = ClientProxyState::new(0);
    let mut out = Vec::new();
    st.on_new_world_data(Some(vec![1; 600]), 10, &mut out);
    st.on_new_world_data(None, 20, &mut out);
    assert!(st.world_data_done);
    st.on_packet_from_client(vec![6, 1, 2], 30, &mut out);
    assert_eq!(out, vec![(vec![6, 1, 2], PacketDirection::ToServer)]);
    assert_eq!(st.world_data.len(), 600);
    st.on_packet_from_client(vec![6, 1, 2], 60_021, &mut out);
    assert!(st.world_data.is_empty());
}

#[test]
fn server_waits_then_downloads_with_window() {
    let mut st = ServerProxyState::new();
    let mut out = Vec::new();
    assert!(st.on_packet_from_server(vec![6, 9], 0, &mut out).is_none());
    assert_eq!(out, vec![(vec![6, 9], PacketDirection::ToClient)]);
    out.clear();
    let world_size = 20 * TRANSFER_BLOCK_SIZE;
    assert!(st.on_packet_from_server(heartbeat(world_size, 0, 5), 1, &mut out).is_none());
    assert_eq!(out.len(), 16);
    for (i, (p, dir)) in out.iter().enumerate() {
        assert_eq!(*dir, PacketDirection::ToServer);
        assert_eq!(decode_block_request(p), Some(i as u32));
    }
    out.clear();
    assert!(st.on_packet_from_server(block(0, &[0; 503]), 2, &mut out).is_none());
    assert_eq!(out.len(), 1);
    assert_eq!(decode_block_request(&out[0].0), Some(16));
    out.clear();
    assert!(st.on_packet_from_server(vec![6, 7], 3, &mut out).is_none());
    assert!(out.is_empty());
    match &st.phase {
        ServerProxyPhase::DownloadingWorld(d) => assert_eq!(d.held_packets.len(), 2),
        _ => panic!("should be downloading"),
    }
}

#[test]
fn server_resends_after_stall() {
    let mut st = ServerProxyState::new();
    let mut out = Vec::new();
    st.on_packet_from_server(heartbeat(3 * TRANSFER_BLOCK_SIZE, 0, 5), 0, &mut out);
    out.clear();
    st.on_packet_from_server(vec![6, 1], 50, &mut out);
    assert!(out.is_empty());
    st.on_packet_from_server(vec![6, 1], 101, &mut out);
    let ids: Vec<Option<u32>> = out.iter().map(|(p, _)| decode_block_request(p)).collect();
    assert_eq!(ids, vec![Some(0), Some(1), Some(2)]);
}

#[test]
fn server_finalizes_with_short_tail() {
    let mut st = ServerProxyState::new();
    let mut out = Vec::new();
    let hb = heartbeat(1000, 10, 0x11223344);
    st.on_packet_from_server(hb.clone(), 0, &mut out);
    let world: Vec<u8> = (0..1000u32).map(|i| (i % 253) as u8).collect();
    let aux = vec![7u8; 10];
    assert!(st.on_packet_from_server(block(2, &aux), 1, &mut out).is_none());
    assert!(st.on_packet_from_server(block(1, &world[503..]), 2, &mut out).is_none());
    assert!(st.on_packet_from_server(block(1, &world[503..]), 3, &mut out).is_none());
    let done = st.on_packet_from_server(block(0, &world[..503]), 4, &mut out).unwrap();
    assert!(matches!(st.phase, ServerProxyPhase::Done));
    assert_eq!(done.world_data, world);
    assert_eq!(done.aux_data, aux);
    assert_eq!(done.held_packets, vec![hb.clone()]);
    out.clear();
    release_held_packets(&done.world_info, 1004, 0x55667788, &done.held_packets, &mut out);
    let expected = heartbeat(1004, 10, 0x55667788);
    assert_eq!(out, vec![(expected, PacketDirection::ToClient)]);
    out.clear();
    assert!(st.on_packet_from_server(vec![6, 6], 5, &mut out).is_none());
    assert_eq!(out, vec![(vec![6, 6], PacketDirection::ToClient)]);
}

#[test]
fn server_finalize_fails_on_too_little_data() {
    let mut st = ServerProxyState::new();
    let mut out = Vec::new();
    st.on_packet_from_server(heartbeat(1000, 0, 1), 0, &mut out);
    st.on_packet_from_server(block(0, &[1; 503]), 1, &mut out);
    assert!(st.on_packet_from_server(block(1, &[1; 100]), 2, &mut out).is_none());
    assert!(matches!(st.phase, ServerProxyPhase::Done));
}

#[test]
fn downloading_state_starts_with_window() {
    let mut out = Vec::new();
    let info = MapReadyForDownloadData { world_size: 503 * 3, aux_size: 1, world_crc: 0, extra: vec![] };
    let st = DownloadingWorldState::start(info, vec![1], 0, &mut out);
    assert_eq!(st.total_block_count, 4);
    assert_eq!(st.inflight_block_requests, vec![0, 1, 2, 3]);
    assert_eq!(out.len(), 4);
}

#[test]
fn replace_first_only() {
    assert_eq!(replace_first_occurrence(&[1, 2, 3, 2, 3], &[2, 3], &[9, 9]), vec![1, 9, 9, 2, 3]);
    assert_eq!(replace_first_occurrence(&[1, 2], &[5], &[6]), vec![1, 2]);
}

#[test]
fn server_holds_undecodable_packets_while_downloading() {
    let mut st = ServerProxyState::new();
    let mut out = Vec::new();
    st.on_packet_from_server(heartbeat(3 * TRANSFER_BLOCK_SIZE, 0, 5), 0, &mut out);
    out.clear();
    assert!(st.on_packet_from_server(vec![0x2d, 1, 2], 1, &mut out).is_none());
    assert!(st.on_packet_from_server(vec![], 2, &mut out).is_none());
    assert!(out.is_empty());
    match &st.phase {
        ServerProxyPhase::DownloadingWorld(d) => assert_eq!(d.held_packets.len(), 3),
        _ => panic!("should be downloading"),
    }
}

#[test]
fn server_empty_world_finishes_at_once() {
    let mut st = ServerProxyState::new();
    let mut out = Vec::new();
    let hb = heartbeat(0, 0, 9);
    let done = st.on_packet_from_server(hb.clone(), 0, &mut out).unwrap();
    assert!(out.is_empty());
    assert!(matches!(st.phase, ServerProxyPhase::Done));
    assert!(done.world_data.is_empty());
    assert!(done.aux_data.is_empty());
    assert_eq!(done.held_packets, vec![hb]);
}

#[test]
fn client_answers_pending_requests_ascending() {
    let mut st = ClientProxyState::new(0);
    let mut out = Vec::new();
    st.on_packet_from_client(encode_block_request(5), 1, &mut out);
    st.on_packet_from_client(encode_block_request(2), 2, &mut out);
    st.on_packet_from_client(encode_block_request(5), 3, &mut out);
    assert_eq!(st.pending_requests, vec![2, 5]);
    let world = vec![3u8; 6 * 503];
    st.on_new_world_data(Some(world.clone()), 4, &mut out);
    assert_eq!(out.len(), 2);
    assert_eq!(out[0].0, block(2, &world[2 * 503..3 * 503]));
    assert_eq!(out[1].0, block(5, &world[5 * 503..6 * 503]));
}
