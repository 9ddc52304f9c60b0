//! Record framing round trips.

use deb2pg::pack::{align, read_record, writey_write};
use deb2pg::shards::ShardedStore;

#[test]
fn hello_world_round_trip() {
    // storing payload "hello" with extra "world" into a fresh file returns
    // the position just past the header
    let mut file: Vec<u8> = Vec::new();
    let pos = writey_write(&mut file, &b"hello".to_vec(), &b"world".to_vec()).unwrap();
    assert_eq!(16, pos);
    assert_eq!(0, (file.len() as u64 - 16) % 16);

    let mut record = read_record(&file, pos as usize).unwrap().unwrap();
    assert_eq!(b"world".to_vec(), record.extra);
    assert_eq!(b"hello".to_vec(), record.read_payload());
    let footprint = record.len();
    assert_eq!(0, footprint % 16);
    record.complete().unwrap();

    // the following sequential read begins at a 16-byte-aligned offset,
    // which here is the end of the file
    let next = pos + footprint;
    assert_eq!(file.len() as u64, next);
    assert!(read_record(&file, next as usize).unwrap().is_none());
}

#[test]
fn fresh_shard_returns_sixteen() {
    let mut store = ShardedStore::new();
    let pos = store.store(&b"hello".to_vec(), false, &b"world".to_vec()).unwrap();
    assert_eq!(16, pos);

    let shard = store.shards[0].as_ref().unwrap();
    let mut record = read_record(&shard.file, 16).unwrap().unwrap();
    assert_eq!(b"world".to_vec(), record.extra);
    assert_eq!(b"hello".to_vec(), record.read_payload());
}

#[test]
fn store_touches_only_its_shard() {
    let mut store = ShardedStore::new();
    // 5 bytes, binary: shard 0; 5 bytes, text: shard 8
    let p0 = store.store(&b"hello".to_vec(), false, &b"".to_vec()).unwrap();
    let p8 = store.store(&b"hello".to_vec(), true, &b"".to_vec()).unwrap();
    assert_eq!(0, p0 % 16);
    assert_eq!(8, p8 % 16);
    for s in 0..16 {
        if s == 0 || s == 8 {
            assert!(store.shards[s].is_some());
        } else {
            assert!(store.shards[s].is_none());
        }
    }
    // a second record in the same shard lands right after the first
    let q0 = store.store(&b"again".to_vec(), false, &b"".to_vec()).unwrap();
    assert!(q0 > p0);
    assert_eq!(0, q0 % 16);
}

#[test]
fn two_records_stay_aligned() {
    let mut file: Vec<u8> = Vec::new();
    let p1 = writey_write(&mut file, &b"a".to_vec(), &b"".to_vec()).unwrap();
    assert_eq!(0, (file.len() as u64 - 16) % 16);
    let p2 = writey_write(&mut file, &vec![7u8; 40], &b"xyz".to_vec()).unwrap();
    assert_eq!(0, (file.len() as u64 - 16) % 16);
    assert_eq!(0, p2 % 16);

    let mut r1 = read_record(&file, p1 as usize).unwrap().unwrap();
    assert_eq!(b"a".to_vec(), r1.read_payload());
    let mut r2 = read_record(&file, p2 as usize).unwrap().unwrap();
    assert_eq!(b"xyz".to_vec(), r2.extra);
    assert_eq!(vec![7u8; 40], r2.read_payload());
}

#[test]
fn complete_before_reading_is_refused() {
    let mut file: Vec<u8> = Vec::new();
    let pos = writey_write(&mut file, &b"payload".to_vec(), &b"".to_vec()).unwrap();
    let record = read_record(&file, pos as usize).unwrap().unwrap();
    assert!(record.complete().is_err());
}

#[test]
fn misaligned_file_is_refused() {
    let mut file: Vec<u8> = vec![0u8; 17];
    assert!(writey_write(&mut file, &b"x".to_vec(), &b"".to_vec()).is_err());
}

#[test]
fn truncated_frame_is_refused() {
    let mut file: Vec<u8> = Vec::new();
    writey_write(&mut file, &b"hello".to_vec(), &b"world".to_vec()).unwrap();
    file.truncate(24);
    assert!(read_record(&file, 16).is_err());
}

#[test]
fn align_rounds_up() {
    assert_eq!(0, align(0));
    assert_eq!(16, align(1));
    assert_eq!(16, align(16));
    assert_eq!(32, align(17));
}
