use rscask::memlog::MemLogStore;
use rscask::storage::LogStore;
use rscask::{Bitcask, Options};

fn fresh() -> Bitcask<MemLogStore, rscask::keydir::HashMapKeyDir> {
    Bitcask::open(MemLogStore::new(Options::default().max_segment_size)).unwrap()
}

#[test]
fn put_get_roundtrip() {
    let mut db = fresh();
    db.put(b"alpha", b"one").unwrap();
    assert_eq!(db.get(b"alpha").unwrap(), Some(b"one".to_vec()));
    assert!(db.contains_key(b"alpha"));
    assert_eq!(db.len(), 1);
}

#[test]
fn bitcask_update_overwrites_value() {
    let mut db = fresh();
    db.put(b"key", b"v1").unwrap();
    db.put(b"key", b"v2").unwrap();
    assert_eq!(db.get(b"key").unwrap(), Some(b"v2".to_vec()));
}

#[test]
fn bitcask_delete_removes_key() {
    let mut db = fresh();
    db.put(b"temp", b"value").unwrap();
    assert!(db.delete(b"temp").unwrap());
    assert!(!db.contains_key(b"temp"));
    assert_eq!(db.get(b"temp").unwrap(), None);
    assert!(!db.delete(b"missing").unwrap());
}

#[test]
fn bitcask_merge_compacts_segments() {
    let options = Options {
        max_segment_size: 64,
        ..Options::default()
    };
    let mut db = Bitcask::open_with_options(MemLogStore::new(64), options).unwrap();
    db.put(b"a", b"1").unwrap();
    db.put(b"a", b"2").unwrap();
    db.put(b"b", b"3").unwrap();
    db.delete(b"b").unwrap();
    db.merge().unwrap();
    assert_eq!(db.get(b"a").unwrap(), Some(b"2".to_vec()));
    assert_eq!(db.get(b"b").unwrap(), None);
    // After merge: one compacted segment + one fresh active segment.
    assert_eq!(db.into_log().segment_count(), 2);
}

#[test]
fn merge_produces_hint_file() {
    let mut db = fresh();
    db.put(b"a", b"1").unwrap();
    db.put(b"b", b"2").unwrap();
    let log = db.into_log();
    assert_eq!(log.hint_count(), 0);
    let mut db = Bitcask::open(log).unwrap();
    db.merge().unwrap();
    assert_eq!(db.into_log().hint_count(), 1);
}

#[test]
fn recovery_uses_hint_files() {
    let log = {
        let mut db = fresh();
        db.put(b"x", b"1").unwrap();
        db.put(b"y", b"2").unwrap();
        db.merge().unwrap();
        // Write more after merge: these go into the active segment,
        // which has no hint segment.
        db.put(b"z", b"3").unwrap();
        db.into_log()
    };
    // Reopen: segment with hints + active segment without.
    let db = Bitcask::open(log).unwrap();
    assert_eq!(db.get(b"x").unwrap(), Some(b"1".to_vec()));
    assert_eq!(db.get(b"y").unwrap(), Some(b"2".to_vec()));
    assert_eq!(db.get(b"z").unwrap(), Some(b"3".to_vec()));
    assert_eq!(db.len(), 3);
}

#[test]
fn double_merge_keeps_hint_files_consistent() {
    let mut db = fresh();
    db.put(b"a", b"1").unwrap();
    db.merge().unwrap();
    db.put(b"b", b"2").unwrap();
    db.merge().unwrap();
    assert_eq!(db.get(b"a").unwrap(), Some(b"1".to_vec()));
    assert_eq!(db.get(b"b").unwrap(), Some(b"2".to_vec()));
    assert_eq!(db.into_log().hint_count(), 1);
}

#[test]
fn is_empty_and_keys() {
    let mut db = fresh();
    assert!(db.is_empty());
    db.put(b"a", b"1").unwrap();
    db.put(b"b", b"2").unwrap();
    assert!(!db.is_empty());
    let mut keys = db.keys();
    keys.sort();
    assert_eq!(keys, vec![b"a".to_vec(), b"b".to_vec()]);
}

#[test]
fn stats_reports_key_count() {
    let mut db = fresh();
    assert_eq!(db.stats().num_keys, 0);
    db.put(b"a", b"1").unwrap();
    assert_eq!(db.stats().num_keys, 1);
    db.put(b"b", b"2").unwrap();
    assert_eq!(db.stats().num_keys, 2);
    db.delete(b"a").unwrap();
    assert_eq!(db.stats().num_keys, 1);
}

#[test]
fn put_get_persists() {
    let log = {
        let mut db = fresh();
        db.put(b"alpha", b"one").unwrap();
        db.into_log()
    };
    {
        let db = Bitcask::open(log).unwrap();
        assert_eq!(db.get(b"alpha").unwrap(), Some(b"one".to_vec()));
    }
}

#[test]
fn bitcask_tests_update_overwrites_value() {
    let mut db = fresh();
    db.put(b"key", b"v1").unwrap();
    db.put(b"key", b"v2").unwrap();
    assert_eq!(db.get(b"key").unwrap(), Some(b"v2".to_vec()));
}

#[test]
fn bitcask_tests_delete_removes_key() {
    let log = {
        let mut db = fresh();
        db.put(b"temp", b"value").unwrap();
        assert!(db.delete(b"temp").unwrap());
        db.into_log()
    };
    {
        let db = Bitcask::open(log).unwrap();
        assert_eq!(db.get(b"temp").unwrap(), None);
    }
}

#[test]
fn rotates_and_reopens() {
    let options = Options {
        max_segment_size: 64,
        ..Options::default()
    };
    let log = {
        let mut db = Bitcask::open_with_options(MemLogStore::new(64), options).unwrap();
        db.put(b"k1", b"value1").unwrap();
        db.put(b"k2", b"value2").unwrap();
        db.put(b"k3", b"value3").unwrap();
        db.into_log()
    };
    assert!(log.segment_count() >= 2);
    let db = Bitcask::open_with_options(log, options).unwrap();
    assert_eq!(db.get(b"k1").unwrap(), Some(b"value1".to_vec()));
    assert_eq!(db.get(b"k2").unwrap(), Some(b"value2".to_vec()));
    assert_eq!(db.get(b"k3").unwrap(), Some(b"value3".to_vec()));
}

#[test]
fn bitcask_tests_merge_compacts_segments() {
    let mut db = fresh();
    db.put(b"a", b"1").unwrap();
    db.put(b"a", b"2").unwrap();
    db.put(b"b", b"3").unwrap();
    db.delete(b"b").unwrap();
    db.merge().unwrap();
    assert_eq!(db.get(b"a").unwrap(), Some(b"2".to_vec()));
    assert_eq!(db.get(b"b").unwrap(), None);
    // After merge: one compacted segment + one fresh active segment.
    assert_eq!(db.into_log().segment_count(), 2);
}

#[test]
fn reopen_after_merge_and_more_writes_recovers_everything() {
    let log = {
        let mut db = fresh();
        db.put(b"a", b"1").unwrap();
        db.put(b"b", b"2").unwrap();
        db.delete(b"a").unwrap();
        db.merge().unwrap();
        db.put(b"c", b"3").unwrap();
        db.delete(b"b").unwrap();
        db.put(b"a", b"4").unwrap();
        db.into_log()
    };
    let db = Bitcask::open(log).unwrap();
    let mut keys = db.keys();
    keys.sort();
    assert_eq!(keys, vec![b"a".to_vec(), b"c".to_vec()]);
    assert_eq!(db.get(b"a").unwrap(), Some(b"4".to_vec()));
    assert_eq!(db.get(b"b").unwrap(), None);
    assert_eq!(db.get(b"c").unwrap(), Some(b"3".to_vec()));
}

#[test]
fn merge_keeps_contents_and_empty_merge() {
    let mut db = fresh();
    db.merge().unwrap();
    assert!(db.is_empty());
    db.put(b"k", b"v").unwrap();
    db.merge().unwrap();
    db.merge().unwrap();
    assert_eq!(db.get(b"k").unwrap(), Some(b"v".to_vec()));
    assert_eq!(db.len(), 1);
}

#[test]
fn with_store_rebuilds_from_log() {
    let log = {
        let mut db = fresh();
        db.put(b"p", b"q").unwrap();
        db.into_log()
    };
    let db = Bitcask::with_store(log, rscask::keydir::HashMapKeyDir::new()).unwrap();
    assert_eq!(db.get(b"p").unwrap(), Some(b"q".to_vec()));
}

#[test]
fn default_options() {
    let o = Options::default();
    assert_eq!(o.max_segment_size, 1024 * 1024);
    assert!(o.sync_on_write);
}

#[test]
fn merge_leaves_exactly_the_live_records() {
    let mut db = Bitcask::open_with_options(
        MemLogStore::new(64),
        rscask::Options { max_segment_size: 64, sync_on_write: true },
    )
    .unwrap();
    db.put(b"a", b"1").unwrap();
    db.put(b"a", b"2").unwrap();
    db.put(b"b", b"3").unwrap();
    db.delete(b"b").unwrap();
    db.merge().unwrap();
    let log = db.into_log();
    assert_eq!(log.segment_count(), 2);
    assert_eq!(log.hint_count(), 1);
    let all = log.scan().unwrap();
    assert_eq!(all.len(), 1);
    assert_eq!(all[0].1.key, b"a");
    assert_eq!(all[0].1.value, b"2");
    assert!(!all[0].1.tombstone);
}
