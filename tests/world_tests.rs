use factorio_cacher::archive::{next_record, world_spans};
use factorio_cacher::cache::ChunkCache;
use factorio_cacher::chunker::{chunk_spans, next_chunk_len, CHUNK_MAX, CHUNK_MIN};
use factorio_cacher::crc::crc32_of;
use factorio_cacher::dedup::{
    answer_chunk_request, check_chunk_batch, chunk_key, deconstruct_world, reconstruct_world,
    ChunkBatchError,
};
use factorio_cacher::messages::{
    decode_request_chunks, decode_send_chunks, decode_world_ready, encode_request_chunks,
    encode_send_chunks, encode_world_ready,
};
use factorio_cacher::receiver::{FinishError, WorldReceiver};
use factorio_cacher::rev_crc::{finalize_world_data, solve_crc};

fn lcg_bytes(n: usize, seed: u64) -> Vec<u8> {
    let mut x = seed;
    let mut out = Vec::with_capacity(n);
    for _ in 0..n {
        x = x.wrapping_mul(6364136223846793005).wrapping_add(1442695040888963407);
        out.push((x >> 56) as u8);
    }
    out
}

fn hex(b: &[u8]) -> String {
    b.iter().map(|x| format!("{:02x}", x)).collect()
}

#[test]
fn crc32_check_value() {
    assert_eq!(crc32_of(b"123456789"), 0xCBF43926);
    assert_eq!(crc32_of(b""), 0);
}

#[test]
fn crc32_of_pseudo_random_world() {
    assert_eq!(crc32_of(&lcg_bytes(300000, 12345)), 0x2a51ed56);
}

#[test]
fn solve_crc_forces_target() {
    let mut buf = lcg_bytes(1000, 7);
    let orig = buf.clone();
    solve_crc(&mut buf, 500, 0xDEADBEEF);
    assert_eq!(crc32_of(&buf), 0xDEADBEEF);
    assert_eq!(&buf[..500], &orig[..500]);
    assert_eq!(&buf[504..], &orig[504..]);
}

#[test]
fn solve_crc_at_end_and_start() {
    let mut buf = vec![0u8; 4];
    solve_crc(&mut buf, 0, 0x12345678);
    assert_eq!(crc32_of(&buf), 0x12345678);
    let mut buf = b"hello world, patch me".to_vec();
    let n = buf.len();
    solve_crc(&mut buf, n - 4, 0);
    assert_eq!(crc32_of(&buf), 0);
    assert_eq!(&buf[..n - 4], b"hello world, patc");
}

#[test]
fn finalize_pads_truncates_and_patches() {
    let out = finalize_world_data(vec![1, 2, 3], 10, 0xCAFEBABE);
    assert_eq!(out.len(), 10);
    assert_eq!(&out[..6], &[1, 2, 3, 0, 0, 0]);
    assert_eq!(crc32_of(&out), 0xCAFEBABE);
    let out = finalize_world_data(lcg_bytes(50, 1), 20, 7);
    assert_eq!(out.len(), 20);
    assert_eq!(&out[..16], &lcg_bytes(50, 1)[..16]);
    assert_eq!(crc32_of(&out), 7);
}

#[test]
fn finalize_empty_world_is_empty() {
    let out = finalize_world_data(Vec::new(), 0, 0x1234);
    assert!(out.is_empty());
}

#[test]
fn chunker_spans_cover_input() {
    let data = lcg_bytes(300000, 12345);
    let spans = chunk_spans(&data);
    let lens: Vec<usize> = spans.iter().map(|s| s.1).collect();
    assert_eq!(lens.len(), 14);
    assert_eq!(&lens[..10], &[8118, 27699, 37586, 24970, 16169, 7433, 65536, 23105, 11897, 16074]);
    let mut pos = 0;
    for (i, (off, len)) in spans.iter().enumerate() {
        assert_eq!(*off, pos);
        assert!(*len <= CHUNK_MAX);
        if i + 1 < spans.len() {
            assert!(*len >= CHUNK_MIN);
        }
        pos += len;
    }
    assert_eq!(pos, data.len());
}

#[test]
fn chunker_forces_cut_at_maximum() {
    let zeros = vec![0u8; 200000];
    let lens: Vec<usize> = chunk_spans(&zeros).iter().map(|s| s.1).collect();
    assert_eq!(lens, vec![65536, 65536, 65536, 3392]);
}

#[test]
fn chunker_short_input_is_one_chunk() {
    let data = lcg_bytes(1000, 3);
    assert_eq!(chunk_spans(&data), vec![(0, 1000)]);
    assert_eq!(next_chunk_len(&data, 10, 1000), 990);
}

#[test]
fn chunker_is_local() {
    let data = lcg_bytes(300000, 12345);
    let spans = chunk_spans(&data);
    let (off, _) = spans[3];
    let tail_spans = chunk_spans(&data[off..]);
    assert_eq!(tail_spans[0].1, spans[3].1);
    assert_eq!(tail_spans[1].1, spans[4].1);
}

#[test]
fn blake3_keys() {
    assert_eq!(hex(&chunk_key(b"")), "af1349b9f5f9a1a6a0404dea36dcc9499bcb25c9adc112b7cc9a93cae41f3262");
    assert_eq!(hex(&chunk_key(b"abc")), "6437b3ac38465133ffb63b75273a8db548c558465d79db03fd359c6cd5bd9d85");
}

#[test]
fn dedup_then_reconstruct_round_trip() {
    let world = lcg_bytes(300000, 12345);
    let (desc, store) = deconstruct_world(&world);
    assert_eq!(desc.content_chunks.len(), 14);
    assert_eq!(desc.world_size as usize, world.len());
    assert_eq!(desc.original_world_size as usize, world.len());
    assert_eq!(desc.reconstructed_crc, 0x2a51ed56);
    for e in &store {
        assert_eq!(chunk_key(&e.data), e.key);
    }
    let back = reconstruct_world(&desc.content_chunks, &store).ok().unwrap();
    assert_eq!(back, world);
}

#[test]
fn dedup_stores_repeated_chunks_once() {
    let zeros = vec![0u8; 200000];
    let (desc, store) = deconstruct_world(&zeros);
    assert_eq!(desc.content_chunks.len(), 4);
    assert_eq!(store.len(), 2);
    assert_eq!(reconstruct_world(&desc.content_chunks, &store).ok().unwrap(), zeros);
}

#[test]
fn empty_world() {
    let (desc, store) = deconstruct_world(&[]);
    assert!(desc.content_chunks.is_empty());
    assert!(store.is_empty());
    assert_eq!(desc.world_size, 0);
    assert_eq!(reconstruct_world(&desc.content_chunks, &store).ok().unwrap(), Vec::<u8>::new());
}

#[test]
fn single_chunk_world_below_minimum() {
    let world = lcg_bytes(100, 9);
    let (desc, store) = deconstruct_world(&world);
    assert_eq!(desc.content_chunks.len(), 1);
    assert_eq!(store.len(), 1);
    assert_eq!(store[0].data.len(), 100);
}

#[test]
fn reconstruct_reports_missing_keys() {
    let world = lcg_bytes(300000, 12345);
    let (desc, mut store) = deconstruct_world(&world);
    let removed = store.remove(2);
    match reconstruct_world(&desc.content_chunks, &store) {
        Err(missing) => assert_eq!(missing, vec![removed.key]),
        Ok(_) => panic!("expected missing chunks"),
    }
}

#[test]
fn chunk_batch_checks() {
    let a = b"first chunk".to_vec();
    let b = b"second chunk".to_vec();
    let keys = vec![chunk_key(&a), chunk_key(&b)];
    assert_eq!(check_chunk_batch(&keys, &vec![a.clone(), b.clone()]), Ok(()));
    assert_eq!(check_chunk_batch(&keys, &vec![a.clone()]), Err(ChunkBatchError::CountMismatch));
    assert_eq!(check_chunk_batch(&keys, &vec![a.clone(), a.clone()]), Err(ChunkBatchError::HashMismatch(1)));
}

#[test]
fn answer_request_from_store() {
    let world = lcg_bytes(300000, 12345);
    let (desc, store) = deconstruct_world(&world);
    let keys = vec![desc.content_chunks[1], desc.content_chunks[0]];
    let answer = answer_chunk_request(&keys, &store).unwrap();
    assert_eq!(answer[0], world[8118..8118 + 27699].to_vec());
    assert_eq!(answer[1], world[..8118].to_vec());
    assert!(answer_chunk_request(&vec![[7u8; 32]], &store).is_none());
}

#[test]
fn messages_round_trip() {
    let keys = vec![[1u8; 32], [2u8; 32]];
    let req = encode_request_chunks(&keys);
    assert_eq!(req.len(), 4 + 64);
    assert_eq!(decode_request_chunks(&req), Some(keys.clone()));
    assert_eq!(decode_request_chunks(&req[..10]), None);
    let chunks = vec![vec![1, 2, 3], vec![], vec![9]];
    let enc = encode_send_chunks(&chunks);
    assert_eq!(enc, vec![3, 0, 0, 0, 3, 0, 0, 0, 1, 2, 3, 0, 0, 0, 0, 1, 0, 0, 0, 9]);
    assert_eq!(decode_send_chunks(&enc), Some(chunks));
    assert_eq!(decode_send_chunks(&enc[..enc.len() - 1]), None);
    let world = lcg_bytes(5000, 4);
    let (desc, _) = deconstruct_world(&world);
    let bytes = encode_world_ready(&desc);
    let back = decode_world_ready(&bytes).unwrap();
    assert_eq!(back.content_chunks, desc.content_chunks);
    assert!(back.files.is_empty());
    assert!(decode_world_ready(&bytes[..bytes.len() - 1]).is_none());
    assert_eq!(back.world_size, 5000);
    assert_eq!(back.reconstructed_crc, desc.reconstructed_crc);
}

#[test]
fn cache_evicts_least_recent() {
    let mut cache = ChunkCache::new(250);
    let chunks: Vec<Vec<u8>> = (0..3u8).map(|i| vec![i; 100]).collect();
    for c in &chunks {
        cache.insert(chunk_key(c), c.clone());
    }
    assert_eq!(cache.len(), 2);
    assert!(cache.total_size() <= 250);
    assert!(cache.get(&chunk_key(&chunks[0])).is_none());
    assert_eq!(cache.get(&chunk_key(&chunks[1])), Some(chunks[1].clone()));
    let d = vec![9u8; 100];
    cache.insert(chunk_key(&d), d.clone());
    assert!(cache.get(&chunk_key(&chunks[2])).is_none());
    assert!(cache.get(&chunk_key(&chunks[1])).is_some());
}

#[test]
fn cache_keeps_reserved_chunks() {
    let mut cache = ChunkCache::new(150);
    let a = vec![1u8; 100];
    let b = vec![2u8; 100];
    cache.insert(chunk_key(&a), a.clone());
    cache.reserve(chunk_key(&a));
    cache.reserve(chunk_key(&b));
    cache.insert(chunk_key(&b), b.clone());
    assert_eq!(cache.len(), 2);
    assert!(cache.total_size() > 150);
    cache.release(&chunk_key(&a));
    assert!(!cache.is_key_reserved(&chunk_key(&a)));
    assert!(cache.total_size() <= 150);
    assert!(cache.get(&chunk_key(&a)).is_none());
    assert!(cache.get(&chunk_key(&b)).is_some());
}

#[test]
fn receiver_fetches_missing_then_finishes() {
    let world = lcg_bytes(300000, 12345);
    let (desc, store) = deconstruct_world(&world);
    let mut cache = ChunkCache::new(1 << 30);
    for e in store.iter().take(5) {
        cache.insert(e.key, e.data.clone());
    }
    let mut rx = WorldReceiver::new(desc);
    assert!(matches!(rx.finish(), Err(FinishError::NeedChunks(_))));
    let mut rounds = 0;
    loop {
        let batch = rx.next_batch(&mut cache, 4);
        if batch.is_empty() {
            break;
        }
        assert!(batch.len() <= 4);
        let answer = answer_chunk_request(&batch, &store).unwrap();
        assert_eq!(rx.on_chunks(&mut cache, &batch, answer), Ok(()));
        for k in &batch {
            assert!(cache.get(k).is_some());
            cache.release(k);
        }
        rounds += 1;
    }
    assert_eq!(rounds, 3);
    match rx.finish() {
        Ok(b) => assert_eq!(b, world),
        Err(_) => panic!("world should be complete"),
    }
}

#[test]
fn cache_save_then_load() {
    let mut cache = ChunkCache::new(1 << 20);
    let chunks: Vec<Vec<u8>> = (0..5u64).map(|i| lcg_bytes(100 + 50 * i as usize, i)).collect();
    for c in &chunks {
        cache.insert(chunk_key(c), c.clone());
    }
    let bytes = cache.save();
    assert_eq!(&bytes[..16], b"factorio-cache\x00\x01");
    let loaded = ChunkCache::load(&bytes, 1 << 20).unwrap();
    assert_eq!(loaded.len(), 5);
    for c in &chunks {
        let mut l = ChunkCache::load(&bytes, 1 << 20).unwrap();
        assert_eq!(l.get(&chunk_key(c)), Some(c.clone()));
    }
    assert_eq!(loaded.total_size(), cache.total_size());
}

#[test]
fn cache_load_rejects_damage() {
    let mut cache = ChunkCache::new(1 << 20);
    let c = lcg_bytes(300, 1);
    cache.insert(chunk_key(&c), c.clone());
    let bytes = cache.save();
    assert!(ChunkCache::load(&bytes[..bytes.len() - 10], 1 << 20).is_none());
    let mut flipped = bytes.clone();
    flipped[40] ^= 1;
    assert!(ChunkCache::load(&flipped, 1 << 20).is_none());
    assert!(ChunkCache::load(&[], 1 << 20).is_none());
    let empty = ChunkCache::new(10).save();
    assert_eq!(ChunkCache::load(&empty, 10).unwrap().len(), 0);
}

fn zip_record(name: &[u8], data: &[u8]) -> Vec<u8> {
    let mut r = vec![0x50, 0x4b, 0x03, 0x04];
    r.extend_from_slice(&[0u8; 14]);
    r.extend_from_slice(&(data.len() as u32).to_le_bytes());
    r.extend_from_slice(&(data.len() as u32).to_le_bytes());
    r.extend_from_slice(&(name.len() as u16).to_le_bytes());
    r.extend_from_slice(&0u16.to_le_bytes());
    r.extend_from_slice(name);
    r.extend_from_slice(data);
    r
}

#[test]
fn archive_records_are_chunked_apart() {
    let mut world = zip_record(b"a.dat", &lcg_bytes(40000, 5));
    world.extend(zip_record(b"b", &lcg_bytes(100, 6)));
    let mut trailer = vec![0x50, 0x4b, 0x05, 0x06];
    trailer.extend_from_slice(&[0u8; 18]);
    world.extend(trailer);
    assert_eq!(next_record(&world, 0), Some((35, 40035)));
    assert_eq!(next_record(&world, 40035), Some((40066, 40166)));
    assert_eq!(next_record(&world, 40166), None);
    assert_eq!(
        world_spans(&world),
        vec![(0, 35), (35, 40000), (40035, 31), (40066, 100), (40166, 22)]
    );
    assert_eq!(chunk_spans(&world), vec![(0, 40188)]);
    let (desc, store) = deconstruct_world(&world);
    assert_eq!(desc.content_chunks.len(), 5);
    assert_eq!(store.len(), 5);
    assert!(store.iter().any(|e| e.data == lcg_bytes(100, 6)));
    assert_eq!(desc.files.len(), 2);
    assert_eq!(desc.files[0].file_name, b"a.dat".to_vec());
    assert_eq!(desc.files[0].size, 40000);
    assert_eq!(desc.files[0].content_chunks, vec![chunk_key(&lcg_bytes(40000, 5))]);
    assert_eq!(desc.files[1].file_name, b"b".to_vec());
    assert_eq!(desc.files[1].content_chunks, vec![chunk_key(&lcg_bytes(100, 6))]);
    let bytes = encode_world_ready(&desc);
    let back = decode_world_ready(&bytes).unwrap();
    assert_eq!(back.files.len(), 2);
    assert_eq!(back.files[1].file_name, b"b".to_vec());
    assert_eq!(back.files[1].size, 100);
    assert_eq!(back.files[0].content_chunks, desc.files[0].content_chunks);
    assert_eq!(reconstruct_world(&desc.content_chunks, &store).ok().unwrap(), world);
}

#[test]
fn archive_record_past_end_is_cut() {
    let mut world = zip_record(b"x", &[1, 2, 3]);
    world[18] = 200;
    assert_eq!(next_record(&world, 0), None);
}

#[test]
fn receiver_skips_keys_reserved_elsewhere() {
    let world = lcg_bytes(300000, 12345);
    let (desc, _store) = deconstruct_world(&world);
    let keys = desc.content_chunks.clone();
    let mut cache = ChunkCache::new(1 << 30);
    for k in &keys {
        cache.reserve(*k);
    }
    let mut rx = WorldReceiver::new(desc);
    assert!(rx.next_batch(&mut cache, 4).is_empty());
    cache.release(&keys[5]);
    assert_eq!(rx.next_batch(&mut cache, 4), vec![keys[5]]);
    assert!(cache.is_key_reserved(&keys[5]));
}

#[test]
fn dedup_round_trip_various_sizes() {
    for (i, n) in [0usize, 1, 2047, 2048, 2049, 65536, 100_003, 1_000_000].iter().enumerate() {
        let world = lcg_bytes(*n, 100 + i as u64);
        let (desc, store) = deconstruct_world(&world);
        assert_eq!(desc.world_size as usize, *n);
        assert_eq!(desc.reconstructed_crc, crc32_of(&world));
        let back = reconstruct_world(&desc.content_chunks, &store).ok().unwrap();
        assert_eq!(back, world);
    }
}

#[test]
fn archive_small_file_payload_is_one_chunk() {
    let payload = lcg_bytes(700, 11);
    let world = zip_record(b"level.dat", &payload);
    let (desc, store) = deconstruct_world(&world);
    assert_eq!(desc.content_chunks.len(), 2);
    assert_eq!(store[1].data, payload);
    assert_eq!(desc.content_chunks[1], chunk_key(&payload));
}
