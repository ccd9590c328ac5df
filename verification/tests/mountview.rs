//! The mounted view: population, the hidden roster family, lazy
//! directory materialization, and reads through file handles.

use hat_backup::backend::{MemoryBackend, StoreBackend};
use hat_backup::family::dir_write;
use hat_backup::fuse::{Fuse, NodeKind};
use hat_backup::models::{
    Content, Entry, FileInfo, FileName, LeafType, Owner, Permissions, Snapshot,
};
use hat_backup::tree::write_bytes;

fn master_key() -> Vec<u8> {
    (200u8..232).collect()
}

fn info(name: &str, byte_length: i64) -> FileInfo {
    FileInfo {
        name: FileName::from_bytes(name.as_bytes().to_vec()),
        created_ts: 1,
        modified_ts: 2,
        accessed_ts: 3,
        byte_length,
        owner: Owner::Absent,
        permissions: Permissions::Mode(0o644),
        snapshot_ts_utc: 0,
    }
}

fn snap(id: u64, family: &str, root: hat_backup::models::HashRef) -> Snapshot {
    Snapshot {
        id,
        hash_ref: root,
        family_name: family.to_string(),
        msg: String::new(),
        created_ts_utc: 1234,
    }
}

fn mounted() -> Fuse<MemoryBackend> {
    let mut b = MemoryBackend::new();
    let master = master_key();
    let file_root = write_bytes(&mut b, &master, &b"mounted body".to_vec(), 4096, 4,
        LeafType::FileChunk).unwrap();
    let entries = vec![
        (Entry { info: info("body.txt", 12) }, Content::Data(file_root)),
        (Entry { info: info("link", -1) }, Content::SymbolicLink(b"body.txt".to_vec())),
    ];
    let dir_root = dir_write(&mut b, &master, entries, 77, 4096, 4).unwrap();
    b.flush().unwrap();
    let snaps = vec![
        snap(1, "alpha", dir_root.clone()),
        snap(1, "__hat__roots__", dir_root.clone()),
        snap(2, "alpha", dir_root.clone()),
        snap(1, "beta", dir_root),
    ];
    Fuse::new(snaps, b, master).unwrap()
}

#[test]
fn reserved_family_is_hidden_from_the_root_listing() {
    let mut fs = mounted();
    let listing = fs.readdir(1, 0).unwrap().expect("root must list");
    let names: Vec<String> = listing
        .iter()
        .map(|(_, _, nm)| String::from_utf8_lossy(nm).to_string())
        .collect();
    assert!(names.contains(&"alpha".to_string()));
    assert!(names.contains(&"beta".to_string()));
    assert!(!names.contains(&"__hat__roots__".to_string()));
    // "." first, then the family directories
    assert_eq!(names[0], ".");
    for (_, kind, nm) in &listing {
        if nm != b"." {
            assert_eq!(*kind, NodeKind::Directory);
        }
    }
}

#[test]
fn lookup_open_read_release() {
    let mut fs = mounted();
    let (alpha_ino, _) = fs.lookup(1, &b"alpha".to_vec()).unwrap().expect("family missing");
    let (snap_ino, snap_attr) = fs.lookup(alpha_ino, &b"1".to_vec()).unwrap().expect(
        "snapshot missing",
    );
    assert_eq!(snap_attr.ctime, 1234);
    assert_eq!(snap_attr.mtime, 1234);

    let (file_ino, file_attr) = fs.lookup(snap_ino, &b"body.txt".to_vec()).unwrap().expect(
        "file missing",
    );
    assert_eq!(file_attr.kind, NodeKind::RegularFile);
    assert_eq!(file_attr.size, 12);
    assert_eq!(file_attr.perm, 0o644);
    assert_eq!(fs.getattr(file_ino).unwrap().kind, NodeKind::RegularFile);

    let (link_ino, link_attr) = fs.lookup(snap_ino, &b"link".to_vec()).unwrap().expect(
        "link missing",
    );
    assert_eq!(link_attr.kind, NodeKind::Symlink);
    assert_eq!(fs.readlink(link_ino).unwrap(), b"body.txt".to_vec());
    assert!(fs.readlink(file_ino).is_none());

    let fh = fs.open(file_ino).unwrap().expect("open failed");
    let head = fs.read(fh, 0, 8).expect("read failed");
    assert_eq!(&head[..], b"mounted ");
    let tail = fs.read(fh, 8, 100).expect("tail read failed");
    assert_eq!(&tail[..], b"body");
    assert!(fs.read(fh, 12, 1).is_none());
    // a second handle serves the whole stream
    let fh2 = fs.open(file_ino).unwrap().expect("open failed");
    let got = fs.read(fh2, 0, 100).expect("read failed");
    assert_eq!(&got[..], b"mounted body");
    fs.release(fh2);
    fs.release(fh);
    assert!(fs.read(fh, 0, 1).is_none());

    // directories and links do not open as files
    assert!(fs.open(snap_ino).unwrap().is_none());
    assert!(fs.open(link_ino).unwrap().is_none());
}

#[test]
fn readdir_honors_the_offset_cursor() {
    let mut fs = mounted();
    let full = fs.readdir(1, 0).unwrap().expect("root must list");
    let tail = fs.readdir(1, 1).unwrap().expect("root must list");
    assert_eq!(tail.len() + 1, full.len());
    for (a, b) in tail.iter().zip(full.iter().skip(1)) {
        assert_eq!(a.0, b.0);
        assert_eq!(a.2, b.2);
    }
    assert!(fs.readdir(999, 0).unwrap().is_none());
}

#[test]
fn snapshot_directories_materialize_lazily() {
    let mut fs = mounted();
    let (alpha_ino, _) = fs.lookup(1, &b"alpha".to_vec()).unwrap().expect("family missing");
    let snaps = fs.childs(alpha_ino).unwrap();
    assert_eq!(snaps.len(), 2);
    let listing = fs.readdir(snaps[0], 0).unwrap().expect("snapshot must list");
    let names: Vec<Vec<u8>> = listing.iter().map(|(_, _, nm)| nm.clone()).collect();
    assert!(names.contains(&b"body.txt".to_vec()));
    assert!(names.contains(&b"link".to_vec()));
}
