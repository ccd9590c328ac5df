//! The store contract, the read cache, the retry queue, and the helper
//! line protocol.

use hat_backup::backend::{MemoryBackend, StoreBackend};
use hat_backup::cmd::{
    helper_hex_arg, parse_hex_name, parse_list_output, CacheVal, PutDecision, ReadCache,
    StoreQueue,
};

#[test]
fn store_flush_retrieve_round_trip() {
    let mut b = MemoryBackend::new();
    let name = vec![1u8, 2, 3];
    let bytes = vec![9u8, 8, 7, 6];
    b.store(name.clone(), bytes.clone()).unwrap();
    b.flush().unwrap();
    assert_eq!(b.retrieve(&name).unwrap(), Some(bytes.clone()));
    // retrieve is idempotent
    assert_eq!(b.retrieve(&name).unwrap(), Some(bytes.clone()));

    b.delete(&name).unwrap();
    assert_eq!(b.retrieve(&name).unwrap(), None);
    assert_eq!(b.retrieve(&name).unwrap(), None);
}

#[test]
fn store_overwrites_and_lists() {
    let mut b = MemoryBackend::new();
    b.store(vec![1], vec![10]).unwrap();
    b.store(vec![2], vec![20]).unwrap();
    b.store(vec![1], vec![11]).unwrap();
    b.flush().unwrap();
    assert_eq!(b.retrieve(&vec![1]).unwrap(), Some(vec![11]));
    let mut names = b.list().unwrap();
    names.sort();
    assert_eq!(names, vec![vec![1u8], vec![2u8]]);
}

#[test]
fn cache_hits_misses_and_reset_on_full() {
    let mut c = ReadCache::new(2);
    assert!(c.get(&vec![1]).is_none());
    c.put(vec![1], CacheVal::Found(vec![10]));
    c.put(vec![2], CacheVal::Missing);
    assert_eq!(c.get(&vec![1]), Some(&CacheVal::Found(vec![10])));
    assert_eq!(c.get(&vec![2]), Some(&CacheVal::Missing));
    // inserting into a full cache clears it whole
    c.put(vec![3], CacheVal::Found(vec![30]));
    assert!(c.get(&vec![1]).is_none());
    assert!(c.get(&vec![2]).is_none());
    assert_eq!(c.get(&vec![3]), Some(&CacheVal::Found(vec![30])));
}

#[test]
fn cache_invalidate_hides_deleted_values() {
    let mut c = ReadCache::new(10);
    c.put(vec![5], CacheVal::Found(vec![55]));
    c.invalidate(&vec![5]);
    assert!(c.get(&vec![5]).is_none());
    // a fresh miss may be recorded afterwards
    c.put(vec![5], CacheVal::Missing);
    assert_eq!(c.get(&vec![5]), Some(&CacheVal::Missing));
}

#[test]
fn delete_then_retrieve_does_not_resurrect() {
    let mut b = MemoryBackend::new();
    b.store(vec![7], vec![70, 71]).unwrap();
    b.flush().unwrap();
    b.delete(&vec![7]).unwrap();
    assert_ne!(b.retrieve(&vec![7]).unwrap(), Some(vec![70, 71]));
    assert_eq!(b.retrieve(&vec![7]).unwrap(), None);
}

#[test]
fn retry_fires_done_exactly_once() {
    // a helper that fails on its first run and succeeds on the second
    let mut q = StoreQueue::new(5);
    assert!(q.has_capacity());
    let _id = q.accept_put();

    let mut done_count = 0;
    // first poll: still running
    assert_eq!(q.on_poll(0, None), PutDecision::Keep);
    // second poll: exited with failure; restart, no callback
    assert_eq!(q.on_poll(0, Some(false)), PutDecision::Restart);
    // third poll: success; retire and fire the callback
    match q.on_poll(0, Some(true)) {
        PutDecision::Retire => done_count += 1,
        other => panic!("expected the store to retire, got {:?}", other),
    }
    assert_eq!(done_count, 1);
    // the queue has drained: a flush would stop polling here
    assert!(q.has_capacity());
}

#[test]
fn hex_arguments_are_lowercase_pairs() {
    assert_eq!(helper_hex_arg(&vec![0xde, 0xad, 0xbe, 0xef]), "deadbeef");
    assert_eq!(helper_hex_arg(&vec![]), "");
    assert_eq!(helper_hex_arg(&vec![0x00, 0x0f, 0xa0]), "000fa0");
}

#[test]
fn hex_names_decode_either_case() {
    assert_eq!(parse_hex_name(&b"00ff".to_vec()), Some(vec![0x00, 0xff]));
    assert_eq!(parse_hex_name(&b"DEadBEef".to_vec()), Some(vec![0xde, 0xad, 0xbe, 0xef]));
    assert_eq!(parse_hex_name(&b"abc".to_vec()), None);
    assert_eq!(parse_hex_name(&b"zz".to_vec()), None);
}

#[test]
fn list_output_skips_unparseable_lines() {
    let text = b"deadbeef\nnot-hex\n00ff\n\nodd1\n".to_vec();
    let names = parse_list_output(&text);
    assert_eq!(names, vec![vec![0xde, 0xad, 0xbe, 0xef], vec![0x00, 0xff]]);
}

#[test]
fn list_output_accepts_crlf_line_endings() {
    let text = b"deadbeef\r\n00ff\r\nzz\r\n".to_vec();
    let names = parse_list_output(&text);
    assert_eq!(names, vec![vec![0xde, 0xad, 0xbe, 0xef], vec![0x00, 0xff]]);
}

#[test]
fn store_queue_ids_start_at_zero_and_grow() {
    let mut q = StoreQueue::new(2);
    assert!(q.ids_remaining());
    let a = q.accept_put();
    let b = q.accept_put();
    assert_eq!(a, 0);
    assert_eq!(b, 1);
    assert!(!q.has_capacity());
}
