//! The binary codec: exact framings and round trips.

use hat_backup::codec::{
    dec_hash_ref, dec_ref_list, enc_hash_ref, enc_ref_list,
};
use hat_backup::models::{ChunkRef, ExtraInfo, FileInfo, FileName, HashRef, Key, LeafType, Owner,
    Packing, Permissions};

fn sample_ref() -> HashRef {
    HashRef {
        hash: vec![0xaa, 0xbb],
        chunk_ref: ChunkRef {
            blob_name: vec![1, 2, 3],
            offset: 7,
            length: 9,
            packing: Packing::Snappy,
            key: Key::AeadChacha20Poly1305(vec![4; 12]),
        },
        height: 3,
        leaf_type: LeafType::TreeList,
        extra: ExtraInfo::FileInfo(FileInfo {
            name: FileName::from_bytes(vec![0xff, 0x30]),
            created_ts: -1,
            modified_ts: 0,
            accessed_ts: i64::MAX,
            byte_length: -1,
            owner: Owner::Absent,
            permissions: Permissions::Mode(0o755),
            snapshot_ts_utc: 42,
        }),
    }
}

#[test]
fn empty_ref_list_is_a_zero_count() {
    let refs: Vec<HashRef> = Vec::new();
    let bytes = enc_ref_list(&refs);
    assert_eq!(bytes, vec![0u8; 8]);
    let (back, used) = dec_ref_list(&bytes, 0).expect("decode failed");
    assert_eq!(used, 8);
    assert!(back.is_empty());
}

#[test]
fn hash_ref_round_trips() {
    let href = sample_ref();
    let mut bytes: Vec<u8> = Vec::new();
    enc_hash_ref(&mut bytes, &href);
    let (back, used) = dec_hash_ref(&bytes, 0).expect("decode failed");
    assert_eq!(used, bytes.len());
    assert_eq!(back, href);
}

#[test]
fn ref_list_round_trips_and_rejects_truncation() {
    let refs = vec![sample_ref(), sample_ref()];
    let bytes = enc_ref_list(&refs);
    let (back, used) = dec_ref_list(&bytes, 0).expect("decode failed");
    assert_eq!(used, bytes.len());
    assert_eq!(back, refs);

    let truncated: Vec<u8> = bytes[..bytes.len() - 1].to_vec();
    assert!(dec_ref_list(&truncated, 0).is_none());
}

#[test]
fn unknown_discriminants_are_rejected() {
    let refs = vec![sample_ref()];
    let mut bytes = enc_ref_list(&refs);
    // corrupt the packing discriminant (the byte after name, blob name
    // and two integers): flip every byte that holds the Snappy tag
    for b in bytes.iter_mut() {
        if *b == 115 {
            *b = 113;
        }
    }
    assert!(dec_ref_list(&bytes, 0).is_none());
}
