use audioserve::file_cache::{
    cache_key_from_random, decode_index, encode_index, entry_path_helper, unix_mod_time, CacheError, CacheIndex,
    FileEntry, FileModTime, IndexError, IndexRecord, Lookup,
};

fn rec(k: &str, m: u64, f: &str) -> IndexRecord {
    IndexRecord { key: k.into(), mtime: m, file_key: f.into() }
}

#[test]
fn index_round_trip() {
    let recs = vec![rec("a/b.mp3", 1234, "xyz"), rec("čřž", u64::MAX, "k2")];
    let bytes = encode_index(&recs);
    assert_eq!(&bytes[..2], &[0, 7]);
    assert_eq!(bytes.len(), 2 + 7 + 8 + 2 + 3 + 2 + 6 + 8 + 2 + 2);
    let (back, err) = decode_index(&bytes);
    assert!(err.is_none());
    assert_eq!(back.len(), 2);
    assert_eq!(back[0].key, "a/b.mp3");
    assert_eq!(back[0].mtime, 1234);
    assert_eq!(back[0].file_key, "xyz");
    assert_eq!(back[1].key, "čřž");
    assert_eq!(back[1].mtime, u64::MAX);
}

#[test]
fn index_errors() {
    let (r, e) = decode_index(&[0]);
    assert!(r.is_empty() && e.is_none());
    let (r, e) = decode_index(&[0x10, 0x01]);
    assert!(r.is_empty());
    assert_eq!(e, Some(IndexError::InvalidIndex));
    let (r, e) = decode_index(&[0, 3, b'a']);
    assert!(r.is_empty());
    assert_eq!(e, Some(IndexError::UnexpectedEof));
    let (_, e) = decode_index(&[0, 1, 0xff, 0, 0, 0, 0, 0, 0, 0, 0, 0, 0]);
    assert_eq!(e, Some(IndexError::InvalidIndex));
    let mut bytes = encode_index(&vec![rec("k", 1, "f")]);
    bytes.extend_from_slice(&[0, 1, b'x', 0, 0, 0, 0, 0, 0, 0, 1, 0, 65]);
    let (r, e) = decode_index(&bytes);
    assert_eq!(r.len(), 1);
    assert_eq!(e, Some(IndexError::InvalidIndex));
}

#[test]
fn file_entries_and_paths() {
    let e = FileEntry::new("key1".into(), FileModTime::Unix(42));
    assert_eq!(e.mtime, 42);
    assert_eq!(FileModTime::Unix(7).as_millis(), 7);
    assert!(FileModTime::now().as_millis() > 1_600_000_000_000);
    assert_eq!(entry_path_helper("/cache", "abc"), "/cache/entries/abc");
    assert_eq!(unix_mod_time(10, 500_000_000, 9, 0), 10_500);
    assert_eq!(unix_mod_time(10, 1_000_000, 10, 2_000_000), 10_002);
    assert_eq!(unix_mod_time(-5, 0, -6, 0), 0);
}

#[test]
fn cache_index_lru() {
    let mut c = CacheIndex::new(100, 2);
    assert_eq!(c.check_new_key("a", false), Ok(()));
    assert_eq!(c.check_new_key("a", true), Err(CacheError::KeyOpened));
    let long: String = std::iter::repeat('x').take(4097).collect();
    assert_eq!(c.check_new_key(&long, false), Err(CacheError::InvalidKey));
    assert!(!c.needs_room(50));
    c.add_finished("a".into(), FileEntry { key: "fa".into(), mtime: 10 }, 50);
    c.add_finished("b".into(), FileEntry { key: "fb".into(), mtime: 10 }, 30);
    assert_eq!(c.check_new_key("a", false), Err(CacheError::KeyAlreadyExists));
    assert!(c.needs_room(10));
    assert_eq!(c.fits(101), Err(CacheError::FileTooBig));
    assert_eq!(c.lookup("a", 5), Lookup::Found("fa".into()));
    assert_eq!(c.lookup("b", 20), Lookup::Stalled);
    assert_eq!(c.lookup("zz", 0), Lookup::Missing);
    let (k, e) = c.pop_oldest().unwrap();
    assert_eq!(k, "a");
    assert_eq!(e.key, "fa");
    c.release(50);
    assert_eq!(c.num_files, 1);
    assert_eq!(c.size, 30);
    assert!(c.remove_entry("b").is_some());
    c.release(30);
    assert!(c.pop_oldest().is_none());
    assert!(c.admits(100));
    assert!(!c.admits(101));
    assert!(c.records().is_empty());
}

#[test]
fn cache_keys_from_random_bytes() {
    assert_eq!(cache_key_from_random(&[0u8; 32]), "A".repeat(43));
    let bytes: Vec<u8> = (0..32u8).map(|i| i.wrapping_mul(37).wrapping_add(0xf8)).collect();
    let key = cache_key_from_random(&bytes);
    assert_eq!(key.len(), 43);
    assert_eq!(key, data_encoding::BASE64URL_NOPAD.encode(&bytes));
    let ff = cache_key_from_random(&[0xffu8; 32]);
    assert_eq!(ff, format!("{}8", "_".repeat(42)));
}

#[test]
fn evict_step_takes_oldest_until_room() {
    let mut c = CacheIndex::new(100, 2);
    c.add_finished("a".into(), FileEntry { key: "fa".into(), mtime: 10 }, 50);
    c.add_finished("b".into(), FileEntry { key: "fb".into(), mtime: 10 }, 30);
    // two files already: a third needs room
    let (key, entry) = c.evict_step(10).expect("room needed");
    assert_eq!(key, "a");
    assert_eq!(entry.key, "fa");
    c.release(50);
    assert!(c.evict_step(10).is_none());
    assert_eq!(c.num_files, 1);
    assert_eq!(c.size, 30);
}

fn as_tuples(v: &[IndexRecord]) -> Vec<(String, u64, String)> {
    v.iter().map(|r| (r.key.clone(), r.mtime, r.file_key.clone())).collect()
}

#[test]
fn restore_skips_missing_and_refuses_over_limit() {
    let mut c = CacheIndex::new(100, 5);
    let recs = vec![rec("a", 1, "fa"), rec("b", 2, "fb"), rec("c", 3, "fc")];
    let kept = c.restore(&recs, &vec![Some(40), None, Some(70)]);
    assert_eq!(kept, vec![true, false, false]);
    assert_eq!(c.num_files, 1);
    assert_eq!(c.size, 40);
    assert_eq!(as_tuples(&c.records()), vec![("a".to_string(), 1, "fa".to_string())]);
}

#[test]
fn saved_index_restores_whole() {
    let mut c = CacheIndex::new(1000, 3);
    c.add_finished("x".into(), FileEntry { key: "fx".into(), mtime: 5 }, 100);
    c.add_finished("y".into(), FileEntry { key: "fy".into(), mtime: 6 }, 200);
    let saved = encode_index(&c.records());
    let (recs, err) = decode_index(&saved);
    assert!(err.is_none());
    let mut d = CacheIndex::new(1000, 3);
    let kept = d.restore(&recs, &vec![Some(100), Some(200)]);
    assert_eq!(kept, vec![true, true]);
    assert_eq!(as_tuples(&d.records()), as_tuples(&c.records()));
    assert_eq!(d.size, 300);
}
