//! Directory listings, names, and the filesystem view.

use hat_backup::backend::{MemoryBackend, StoreBackend};
use hat_backup::family::{dir_write, fetch_dir_data, snapshots_read, snapshots_write};
use hat_backup::fs::FileReader;
use hat_backup::models::{
    Content, Entry, FileInfo, FileName, HashRef, LeafType, Owner, Permissions, Snapshot,
};
use hat_backup::tree::{write_bytes, LeafIterator};
use hat_backup::vfs::{Filesystem, List};

fn master_key() -> Vec<u8> {
    (100u8..132).collect()
}

fn info(name: &str, byte_length: i64) -> FileInfo {
    FileInfo {
        name: FileName::from_bytes(name.as_bytes().to_vec()),
        created_ts: 11,
        modified_ts: 22,
        accessed_ts: 33,
        byte_length,
        owner: Owner::Absent,
        permissions: Permissions::Absent,
        snapshot_ts_utc: 0,
    }
}

#[test]
fn file_name_round_trip() {
    for bytes in [
        b"".to_vec(),
        b"plain".to_vec(),
        "snowman \u{2603}".as_bytes().to_vec(),
        vec![0xff, 0xfe, 0xfd],
        vec![0x2f, 0x00, 0x80],
    ] {
        let name = FileName::from_bytes(bytes.clone());
        let back: Vec<u8> = name.into_bytes();
        assert_eq!(back, bytes);
    }
}

#[test]
fn non_utf8_name_round_trips_with_lossy_alias() {
    let name = FileName::from_bytes(vec![0xff, 0xfe, 0xfd]);
    assert_eq!(
        name,
        FileName::RawAndLossyUtf8(vec![0xff, 0xfe, 0xfd], "\u{FFFD}\u{FFFD}\u{FFFD}".to_string())
    );
    assert!(!name.is_empty());

    // and survives a directory round trip
    let mut b = MemoryBackend::new();
    let master = master_key();
    let mut i = info("x", 3);
    i.name = FileName::from_bytes(vec![0xff, 0xfe, 0xfd]);
    let entries = vec![(Entry { info: i.clone() }, Content::SymbolicLink(vec![1, 2]))];
    let root = dir_write(&mut b, &master, entries, 777, 4096, 4).unwrap();
    let got = fetch_dir_data(&mut b, &master, &root).unwrap();
    assert_eq!(got.len(), 1);
    assert_eq!(
        got[0].0.info.name,
        FileName::RawAndLossyUtf8(vec![0xff, 0xfe, 0xfd], "\u{FFFD}\u{FFFD}\u{FFFD}".to_string())
    );
    assert!(!got[0].0.info.name.is_empty());
}

#[test]
fn directory_round_trip_modulo_snapshot_ts() {
    let mut b = MemoryBackend::new();
    let master = master_key();

    let file_data: Vec<u8> = b"body".to_vec();
    let file_root = write_bytes(&mut b, &master, &file_data, 4096, 4, LeafType::FileChunk)
        .unwrap();

    let entries = vec![
        (Entry { info: info("a.txt", 4) }, Content::Data(file_root.clone())),
        (Entry { info: info("b", -1) }, Content::SymbolicLink(b"target".to_vec())),
    ];
    let root = dir_write(&mut b, &master, entries.clone(), 424242, 4096, 4).unwrap();
    let got = fetch_dir_data(&mut b, &master, &root).unwrap();

    assert_eq!(got.len(), entries.len());
    for (g, w) in got.iter().zip(entries.iter()) {
        let mut want = w.0.info.clone();
        want.snapshot_ts_utc = g.0.info.snapshot_ts_utc;
        assert_eq!(g.0.info, want);
        assert_eq!(g.0.info.snapshot_ts_utc, 424242);
        assert_eq!(g.1, w.1);
    }
}

#[test]
fn snapshot_roster_round_trip() {
    let mut b = MemoryBackend::new();
    let master = master_key();
    let data: Vec<u8> = b"roster body".to_vec();
    let href = write_bytes(&mut b, &master, &data, 4096, 4, LeafType::FileChunk).unwrap();
    let snaps = vec![
        Snapshot {
            id: 1,
            hash_ref: href.clone(),
            family_name: "familyname".to_string(),
            msg: "first".to_string(),
            created_ts_utc: 7,
        },
        Snapshot {
            id: 2,
            hash_ref: href,
            family_name: "other".to_string(),
            msg: String::new(),
            created_ts_utc: 8,
        },
    ];
    let root = snapshots_write(&mut b, &master, &snaps, 4096, 4).unwrap();
    let got = snapshots_read(&mut b, &master, &root).unwrap();
    assert_eq!(got, snaps);
}

fn one_file_fs(name: &str, data: &[u8]) -> (Filesystem<MemoryBackend>, HashRef) {
    let mut b = MemoryBackend::new();
    let master = master_key();
    let file_root = write_bytes(&mut b, &master, &data.to_vec(), 4096, 4, LeafType::FileChunk)
        .unwrap();
    let entries = vec![
        (Entry { info: info(name, data.len() as i64) }, Content::Data(file_root.clone())),
    ];
    let dir_root = dir_write(&mut b, &master, entries, 99, 4096, 4).unwrap();
    b.flush().unwrap();
    let snaps = vec![Snapshot {
        id: 1,
        hash_ref: dir_root,
        family_name: "familyname".to_string(),
        msg: String::new(),
        created_ts_utc: 5,
    }];
    (Filesystem::new(snaps, b, master), file_root)
}

#[test]
fn empty_file_listing_and_read() {
    let (mut fs, file_root) = one_file_fs("empty", b"");
    match fs.ls("familyname/1").unwrap() {
        Some(List::Dir(files)) => {
            assert_eq!(files.len(), 1);
            assert_eq!(files[0].0.info.name.utf8(), "empty");
            assert_eq!(files[0].0.info.byte_length, 0);
            match &files[0].1 {
                Content::Data(h) => assert_eq!(h, &file_root),
                other => panic!("expected file content, got {:?}", other),
            }
        },
        other => panic!("expected a directory listing, got {:?}", other),
    }
    // reading the file yields zero bytes
    let mut backend = fs.backend;
    let master = fs.master;
    let got = hat_backup::tree::read_tree_bytes(&mut backend, &master, &file_root).unwrap();
    assert_eq!(got.len(), 0);
}

#[test]
fn single_small_file_read() {
    let (mut fs, file_root) = one_file_fs("hello.txt", b"Hello, world!");
    match fs.ls("familyname/1").unwrap() {
        Some(List::Dir(files)) => {
            assert_eq!(files.len(), 1);
            assert_eq!(files[0].0.info.name.utf8(), "hello.txt");
        },
        other => panic!("expected a directory listing, got {:?}", other),
    }
    let mut backend = fs.backend;
    let master = fs.master;
    let it = LeafIterator::new(&mut backend, &master, &file_root).unwrap();
    let mut reader = FileReader::new_from_iter(Some(it));
    let got = reader.read(0, 100).expect("expected bytes");
    assert_eq!(&got[..], b"Hello, world!");
    assert_eq!(got.len(), 13);
    assert!(reader.read(13, 100).is_none());
}

#[test]
fn ls_levels_and_missing_paths() {
    let (mut fs, _) = one_file_fs("hello.txt", b"hi");
    match fs.ls("").unwrap() {
        Some(List::Root(snaps)) => assert_eq!(snaps.len(), 1),
        other => panic!("expected the root listing, got {:?}", other),
    }
    match fs.ls("/").unwrap() {
        Some(List::Root(_)) => {},
        other => panic!("expected the root listing, got {:?}", other),
    }
    match fs.ls("familyname").unwrap() {
        Some(List::Snapshots(snaps)) => {
            assert_eq!(snaps.len(), 1);
            assert_eq!(snaps[0].id, 1);
        },
        other => panic!("expected the family listing, got {:?}", other),
    }
    match fs.ls("nosuchfamily").unwrap() {
        Some(List::Snapshots(snaps)) => assert_eq!(snaps.len(), 0),
        other => panic!("expected an empty family listing, got {:?}", other),
    }
    assert!(fs.ls("familyname/2").unwrap().is_none());
    assert!(fs.ls("familyname/01").unwrap().is_none());
    assert!(fs.ls("familyname/1/missing").unwrap().is_none());
    match fs.ls("familyname/1/hello.txt").unwrap() {
        Some(List::Dir(files)) => {
            assert_eq!(files.len(), 1);
            assert_eq!(files[0].0.info.name.utf8(), "hello.txt");
        },
        other => panic!("expected a single-entry listing, got {:?}", other),
    }
    assert!(fs.ls("familyname/1/hello.txt/deeper").unwrap().is_none());
}

#[test]
fn ls_walks_subdirectories() {
    let mut b = MemoryBackend::new();
    let master = master_key();
    let file_root = write_bytes(&mut b, &master, &b"inner".to_vec(), 4096, 4, LeafType::FileChunk)
        .unwrap();
    let inner = vec![
        (Entry { info: info("inner.txt", 5) }, Content::Data(file_root)),
    ];
    let inner_root = dir_write(&mut b, &master, inner, 1, 4096, 4).unwrap();
    let outer = vec![(Entry { info: info("sub", -1) }, Content::Directory(inner_root))];
    let outer_root = dir_write(&mut b, &master, outer, 1, 4096, 4).unwrap();
    b.flush().unwrap();
    let snaps = vec![Snapshot {
        id: 3,
        hash_ref: outer_root,
        family_name: "fam".to_string(),
        msg: String::new(),
        created_ts_utc: 0,
    }];
    let mut fs = Filesystem::new(snaps, b, master);
    match fs.ls("fam/3/sub").unwrap() {
        Some(List::Dir(files)) => {
            assert_eq!(files.len(), 1);
            assert_eq!(files[0].0.info.name.utf8(), "inner.txt");
        },
        other => panic!("expected the subdirectory listing, got {:?}", other),
    }
}
