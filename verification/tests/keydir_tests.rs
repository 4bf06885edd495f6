use rscask::keydir::{hash_key, HashMapKeyDir, KeyDir, KeyDirEntry};
use rscask::storage::LogPointer;

fn entry(n: u64) -> KeyDirEntry {
    KeyDirEntry {
        pointer: LogPointer { file_id: 1, offset: n, len: 1 },
        timestamp: n,
    }
}

#[test]
fn fnv_hash_known_values() {
    assert_eq!(hash_key(b""), 0xcbf29ce484222325);
    assert_eq!(hash_key(b"a"), 0xaf63dc4c8601ec8c);
    assert_eq!(hash_key(b"foobar"), 0x85944171f73967e8);
}

#[test]
fn keydir_insert_get_remove() {
    let mut d = HashMapKeyDir::new();
    assert!(d.is_empty());
    d.insert(b"a".to_vec(), entry(1));
    d.insert(b"b".to_vec(), entry(2));
    d.insert(b"a".to_vec(), entry(3));
    assert_eq!(d.len(), 2);
    assert_eq!(d.get(b"a"), Some(entry(3)));
    assert_eq!(d.get(b"c"), None);
    assert!(d.remove(b"a"));
    assert!(!d.remove(b"a"));
    assert_eq!(d.len(), 1);
    let mut keys = d.keys();
    keys.sort();
    assert_eq!(keys, vec![b"b".to_vec()]);
    d.clear();
    assert!(d.is_empty());
    assert_eq!(d.get(b"b"), None);
}

#[test]
fn keydir_entries_lists_everything_once() {
    let mut d = HashMapKeyDir::default();
    for i in 0..100u64 {
        d.insert(format!("key-{i}").into_bytes(), entry(i));
    }
    let mut entries = d.entries();
    assert_eq!(entries.len(), 100);
    entries.sort_by(|x, y| x.1.timestamp.cmp(&y.1.timestamp));
    for (i, (k, e)) in entries.iter().enumerate() {
        assert_eq!(k, &format!("key-{i}").into_bytes());
        assert_eq!(*e, entry(i as u64));
    }
}
