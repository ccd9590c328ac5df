//! Hash-tree round trips over the in-memory store, with the real
//! hashing, encryption and compression crates linked.

use hat_backup::backend::{MemoryBackend, StoreBackend};
use hat_backup::fs::{ChunkSource, FileReader};
use hat_backup::models::{ChunkRef, ExtraInfo, HashRef, Key, LeafType, Packing};
use hat_backup::tree::{digest_of, read_tree_bytes, write_bytes, LeafIterator};
use std::io::Write;

fn master_key() -> Vec<u8> {
    (0u8..32).collect()
}

fn write_and_collect(data: &Vec<u8>, max_chunk: usize, fanout: usize) -> Vec<u8> {
    let mut b = MemoryBackend::new();
    let master = master_key();
    let root = write_bytes(&mut b, &master, data, max_chunk, fanout, LeafType::FileChunk)
        .expect("write failed");
    b.flush().expect("flush failed");

    // walk the leaves and concatenate
    let mut it = LeafIterator::new(&mut b, &master, &root).expect("iterate failed");
    let mut out: Vec<u8> = Vec::new();
    while let Some(chunk) = it.next_chunk() {
        out.extend_from_slice(&chunk);
    }

    // the one-shot read agrees
    let direct = read_tree_bytes(&mut b, &master, &root).expect("read failed");
    assert_eq!(out, direct);
    out
}

#[test]
fn tree_round_trip_small() {
    let data: Vec<u8> = b"Hello, world!".to_vec();
    assert_eq!(write_and_collect(&data, 4, 2), data);
}

#[test]
fn tree_round_trip_empty() {
    let data: Vec<u8> = Vec::new();
    assert_eq!(write_and_collect(&data, 4096, 4), data);
}

#[test]
fn tree_round_trip_many_chunks_small_fanout() {
    let data: Vec<u8> = (0..10_000u32).map(|i| (i * 31 + 7) as u8).collect();
    assert_eq!(write_and_collect(&data, 64, 2), data);
    assert_eq!(write_and_collect(&data, 100, 3), data);
}

#[test]
fn chunk_crossing_read() {
    // nine mebibytes of deterministic data, four-mebibyte chunks
    let data: Vec<u8> = (0..9 * 1024 * 1024usize).map(|i| (i * 131 + 13) as u8).collect();
    let mut b = MemoryBackend::new();
    let master = master_key();
    let root = write_bytes(&mut b, &master, &data, 4 * 1024 * 1024, 128, LeafType::FileChunk)
        .expect("write failed");
    b.flush().expect("flush failed");

    let it = LeafIterator::new(&mut b, &master, &root).expect("iterate failed");
    let mut reader = FileReader::new_from_iter(Some(it));
    let got = reader.read(3_000_000, 3_000_000).expect("read failed");
    assert_eq!(&got[..], &data[3_000_000..6_000_000]);
}

#[test]
fn corrupt_reference_is_an_integrity_error() {
    let mut b = MemoryBackend::new();
    let master = master_key();
    let missing = HashRef {
        hash: vec![0u8; 32],
        chunk_ref: ChunkRef {
            blob_name: vec![1, 2, 3],
            offset: 0,
            length: 0,
            packing: Packing::Raw,
            key: Key::Plain,
        },
        height: 0,
        leaf_type: LeafType::FileChunk,
        extra: ExtraInfo::Absent,
    };
    match read_tree_bytes(&mut b, &master, &missing) {
        Err(hat_backup::backend::HatError::Integrity) => {},
        other => panic!("expected an integrity error, got {:?}", other.is_ok()),
    }
}

#[test]
fn gzip_tagged_chunk_decodes() {
    let plain: Vec<u8> = b"gzip framed chunk payload, gzip framed chunk payload".to_vec();
    let mut enc = flate2::write::GzEncoder::new(Vec::new(), flate2::Compression::default());
    enc.write_all(&plain).unwrap();
    let ct = enc.finish().unwrap();

    let mut b = MemoryBackend::new();
    let master = master_key();
    let name = vec![42u8; 4];
    b.store(name.clone(), ct.clone()).unwrap();

    let href = HashRef {
        hash: digest_of(&plain),
        chunk_ref: ChunkRef {
            blob_name: name,
            offset: 0,
            length: ct.len() as u64,
            packing: Packing::GZip,
            key: Key::Plain,
        },
        height: 0,
        leaf_type: LeafType::FileChunk,
        extra: ExtraInfo::Absent,
    };
    let got = read_tree_bytes(&mut b, &master, &href).expect("gzip chunk read failed");
    assert_eq!(got, plain);
}
