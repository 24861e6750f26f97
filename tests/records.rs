use hdrhistogram::serialization::Deserializer;
use hdrhistogram::Histogram;
use uring_records::codec::{dataset_bytes, decode_record, encode_record};
use uring_records::latency::LatencyStats;
use uring_records::layout::{block_window, BlockWindow, BLOCK_WIDTH, WIDTH};
use uring_records::ring::RingDriver;
use uring_records::store::{decode_read, lookup_mapped, record_offset, records_in, DbError, DirectPreadDb};

fn block_of(file: &[u8], w: BlockWindow) -> Vec<u8> {
    let start = w.block_offset as usize;
    file[start..start + BLOCK_WIDTH as usize].to_vec()
}

fn direct_get(db: &DirectPreadDb, file: &[u8], key: u64) -> Result<u64, DbError> {
    let w = db.window(key)?;
    let block = block_of(file, w);
    db.read_block(w, &block, block.len())
}

fn decoded(stats: &LatencyStats) -> Histogram<u64> {
    let bytes = stats.encode().unwrap();
    Deserializer::new().deserialize(&mut bytes.as_slice()).unwrap()
}

fn positioned_get(file: &[u8], records: u64, key: u64) -> Result<u64, DbError> {
    let off = record_offset(key, records)? as usize;
    let buf = file[off..off + WIDTH as usize].to_vec();
    decode_read(&buf, 0, buf.len())
}

#[test]
fn direct_pread_smoke() {
    let file = dataset_bytes(128);
    let r = DirectPreadDb::new(3, file.len() as u64).unwrap();
    assert_eq!(direct_get(&r, &file, 0).unwrap(), 0);
    assert_eq!(direct_get(&r, &file, 127).unwrap(), 127);
}

#[test]
fn tokio_iouring_smoke() {
    let file = dataset_bytes(128);
    let mut ring = RingDriver::new(2, file.len() as u64).unwrap();
    let a = ring.submit(10, 0).unwrap();
    let b = ring.submit(11, 127).unwrap();
    let block_b = file[b.offset as usize..(b.offset + b.len) as usize].to_vec();
    let block_a = file[a.offset as usize..(a.offset + a.len) as usize].to_vec();
    let cb = ring.complete(b.slot, 512, &block_b).unwrap();
    let ca = ring.complete(a.slot, 512, &block_a).unwrap();
    assert_eq!(ca.value.unwrap(), 0);
    assert_eq!(cb.value.unwrap(), 127);
}

#[test]
fn every_backend_reads_back_its_key() {
    let n: u64 = 2048;
    let file = dataset_bytes(n);
    assert_eq!(file.len(), 8 * 2048);
    let direct = DirectPreadDb::new(3, file.len() as u64).unwrap();
    let mut ring = RingDriver::new(8, file.len() as u64).unwrap();
    for k in 0..n {
        assert_eq!(lookup_mapped(&file, k), Ok(k));
        assert_eq!(positioned_get(&file, n, k), Ok(k));
        assert_eq!(direct_get(&direct, &file, k), Ok(k));
        let d = ring.submit(k + 1000, k).unwrap();
        let block = file[d.offset as usize..(d.offset + d.len) as usize].to_vec();
        let c = ring.complete(d.slot, 512, &block).unwrap();
        assert_eq!(c.tag, k + 1000);
        assert_eq!(c.key, k);
        assert_eq!(c.value, Ok(k));
    }
    assert!(ring.is_idle());
}

#[test]
fn repeated_lookups_agree_and_leave_the_bytes_alone() {
    let file = dataset_bytes(300);
    let copy = file.clone();
    for k in [0u64, 17, 299, 300, 5000] {
        let first = lookup_mapped(&file, k);
        let second = lookup_mapped(&file, k);
        assert_eq!(first, second);
    }
    assert_eq!(file, copy);
}

#[test]
fn block_windows_are_aligned() {
    for k in 0..100_000u64 {
        let w = block_window(k);
        assert_eq!(w.block_offset % BLOCK_WIDTH, 0);
        assert!(w.intra_block_offset + WIDTH <= BLOCK_WIDTH);
        assert_eq!(w.block_offset + w.intra_block_offset, k * WIDTH);
    }
}

#[test]
fn block_window_of_key_100() {
    assert_eq!(block_window(100), BlockWindow { block_offset: 512, intra_block_offset: 288 });
    assert_eq!(block_window(63), BlockWindow { block_offset: 0, intra_block_offset: 504 });
    assert_eq!(block_window(64), BlockWindow { block_offset: 512, intra_block_offset: 0 });
}

#[test]
fn ring_correlates_out_of_order_completions() {
    let file = dataset_bytes(1024);
    let mut ring = RingDriver::new(4, file.len() as u64).unwrap();
    let keys = [5u64, 900, 64, 1023];
    let mut descs = Vec::new();
    for (i, k) in keys.iter().enumerate() {
        descs.push(ring.submit(100 + i as u64, *k).unwrap());
    }
    assert_eq!(ring.in_flight(), 4);
    for i in [2usize, 0, 3, 1] {
        let d = descs[i];
        let block = file[d.offset as usize..(d.offset + d.len) as usize].to_vec();
        let c = ring.complete(d.slot, 512, &block).unwrap();
        assert_eq!(c.tag, 100 + i as u64);
        assert_eq!(c.key, keys[i]);
        assert_eq!(c.value, Ok(keys[i]));
    }
    assert!(ring.is_idle());
}

#[test]
fn ring_refuses_past_capacity() {
    let file = dataset_bytes(128);
    let mut ring = RingDriver::new(3, file.len() as u64).unwrap();
    let mut slots = Vec::new();
    for k in 0..3u64 {
        slots.push(ring.submit(k, k).unwrap().slot);
    }
    assert_eq!(slots, vec![0, 1, 2]);
    assert_eq!(ring.submit(3, 3), Err(DbError::Capacity { depth: 3 }));
    assert_eq!(ring.in_flight(), 3);
    let block = file[0..512].to_vec();
    let c = ring.complete(1, 512, &block).unwrap();
    assert_eq!(c.value, Ok(1));
    let d = ring.submit(4, 4).unwrap();
    assert_eq!(d.slot, 1);
}

#[test]
fn ring_reports_errors() {
    let file = dataset_bytes(128);
    let mut ring = RingDriver::new(2, file.len() as u64).unwrap();
    let block = file[0..512].to_vec();
    assert_eq!(ring.submit(0, 128), Err(DbError::OutOfRange { key: 128, records: 128 }));
    assert_eq!(ring.complete(0, 512, &block).unwrap_err(), DbError::UnknownCompletion { slot: 0 });
    assert_eq!(ring.complete(9, 512, &block).unwrap_err(), DbError::UnknownCompletion { slot: 9 });
    let d = ring.submit(7, 2).unwrap();
    let c = ring.complete(d.slot, -5, &block).unwrap();
    assert_eq!(c.tag, 7);
    assert_eq!(c.value, Err(DbError::Io { code: 5 }));
    let d = ring.submit(8, 2).unwrap();
    let c = ring.complete(d.slot, 20, &block).unwrap();
    assert_eq!(c.value, Err(DbError::ShortRead { got: 20 }));
    assert_eq!(RingDriver::new(2, 1000).err(), Some(DbError::Misaligned { len: 1000 }));
}

#[test]
fn histogram_median_is_within_one_percent() {
    let mut stats = LatencyStats::new().unwrap();
    for v in 1..=100_000u64 {
        stats.record(v).unwrap();
    }
    assert_eq!(stats.count(), 100_000);
    let h = decoded(&stats);
    assert_eq!(h.len(), 100_000);
    let p50 = h.value_at_quantile(0.5) as f64;
    assert!((p50 - 50_000.0).abs() <= 500.0);
}

#[test]
fn histogram_merge_adds_counts() {
    let mut a = LatencyStats::new().unwrap();
    let mut b = LatencyStats::new().unwrap();
    let empty = LatencyStats::new().unwrap();
    for v in [10u64, 20, 30] {
        a.record(v).unwrap();
    }
    for v in [1000u64, 2000] {
        b.record(v).unwrap();
    }
    a.merge(&empty).unwrap();
    assert_eq!(a.count(), 3);
    a.merge(&b).unwrap();
    assert_eq!(a.count(), 5);
    assert_eq!(decoded(&a).max(), decoded(&b).max());
    assert_eq!(decoded(&a).min(), 10);
    let mut c = LatencyStats::new().unwrap();
    c.merge(&b).unwrap();
    c.merge(&b).unwrap();
    assert_eq!(c.count(), 4);
}

#[test]
fn thousand_record_dataset() {
    let file = dataset_bytes(1000);
    assert_eq!(file.len(), 8000);
    let n = records_in(file.len() as u64).unwrap();
    assert_eq!(n, 1000);
    assert_eq!(lookup_mapped(&file, 0), Ok(0));
    assert_eq!(lookup_mapped(&file, 999), Ok(999));
    assert_eq!(lookup_mapped(&file, 1000), Err(DbError::OutOfRange { key: 1000, records: 1000 }));
    assert_eq!(positioned_get(&file, n, 0), Ok(0));
    assert_eq!(positioned_get(&file, n, 999), Ok(999));
    assert_eq!(positioned_get(&file, n, 1000), Err(DbError::OutOfRange { key: 1000, records: 1000 }));
    assert_eq!(DirectPreadDb::new(3, 8000).err(), Some(DbError::Misaligned { len: 8000 }));
    assert_eq!(RingDriver::new(4, 8000).err(), Some(DbError::Misaligned { len: 8000 }));
}

#[test]
fn direct_open_needs_whole_blocks() {
    let file = dataset_bytes(128);
    assert_eq!(file.len(), 1024);
    let db = DirectPreadDb::new(7, 1024).unwrap();
    assert_eq!(db.fd(), 7);
    assert_eq!(db.records(), 128);
    assert_eq!(direct_get(&db, &file, 128), Err(DbError::OutOfRange { key: 128, records: 128 }));
    assert_eq!(DirectPreadDb::new(7, 1000).err(), Some(DbError::Misaligned { len: 1000 }));
}

#[test]
fn record_offsets_and_lengths() {
    assert_eq!(record_offset(3, 10), Ok(24));
    assert_eq!(record_offset(10, 10), Err(DbError::OutOfRange { key: 10, records: 10 }));
    assert_eq!(records_in(80), Ok(10));
    assert_eq!(records_in(7), Err(DbError::Misaligned { len: 7 }));
}

#[test]
fn short_reads_are_errors() {
    let buf = encode_record(42);
    assert_eq!(decode_read(&buf, 0, 8), Ok(42));
    assert_eq!(decode_read(&buf, 0, 5), Err(DbError::ShortRead { got: 5 }));
}

#[test]
fn little_endian_codec() {
    let bytes = [1u8, 2, 3, 4, 5, 6, 7, 8, 9];
    assert_eq!(decode_record(&bytes, 0), 0x0807_0605_0403_0201);
    assert_eq!(decode_record(&bytes, 1), 0x0908_0706_0504_0302);
    assert_eq!(encode_record(0x0102_0304_0506_0708), vec![8, 7, 6, 5, 4, 3, 2, 1]);
    assert_eq!(encode_record(u64::MAX), vec![255; 8]);
    let file = dataset_bytes(3);
    assert_eq!(file, vec![0, 0, 0, 0, 0, 0, 0, 0, 1, 0, 0, 0, 0, 0, 0, 0, 2, 0, 0, 0, 0, 0, 0, 0]);
    assert!(dataset_bytes(0).is_empty());
}

#[test]
fn ring_batches_fit_or_stop_at_the_refusal() {
    let file = dataset_bytes(256);
    let mut ring = RingDriver::new(4, file.len() as u64).unwrap();
    let (descs, res) = ring.submit_batch(&vec![(1, 10), (2, 200), (3, 64)]);
    assert_eq!(res, Ok(()));
    assert_eq!(descs.len(), 3);
    assert_eq!(descs[1].offset, 1536);
    assert_eq!(descs[1].len, 512);
    let (more, res) = ring.submit_batch(&vec![(4, 0), (5, 1)]);
    assert_eq!(res, Err(DbError::Capacity { depth: 4 }));
    assert_eq!(more.len(), 1);
    assert_eq!(ring.in_flight(), 4);
    for d in descs.iter().rev() {
        let block = file[d.offset as usize..(d.offset + d.len) as usize].to_vec();
        ring.complete(d.slot, 512, &block).unwrap();
    }
    let (_, res) = ring.submit_batch(&vec![(6, 3), (7, 256)]);
    assert_eq!(res, Err(DbError::OutOfRange { key: 256, records: 256 }));
    assert_eq!(ring.in_flight(), 2);
}

#[test]
fn single_reads_at_record_offsets() {
    let file = dataset_bytes(128);
    let n = records_in(file.len() as u64).unwrap();
    assert_eq!(n, 128);
    assert_eq!(positioned_get(&file, n, 0), Ok(0));
    assert_eq!(positioned_get(&file, n, 127), Ok(127));
    assert_eq!(positioned_get(&file, n, 128), Err(DbError::OutOfRange { key: 128, records: 128 }));
}

#[test]
fn empty_collector_encodes_no_samples() {
    let stats = LatencyStats::new().unwrap();
    assert_eq!(stats.count(), 0);
    let h = decoded(&stats);
    assert_eq!(h.len(), 0);
}
