use rscask::memlog::MemLogStore;
use rscask::record::Record;
use rscask::segment::{
    append_position, encode_hints, encode_segment, scan_data_segment, scan_segment,
    scan_segment_keys,
};
use rscask::storage::{parse_segment_id, LogPointer, LogStore};

fn rec(key: &[u8], value: &[u8], timestamp: u64, tombstone: bool) -> Record {
    Record {
        key: key.to_vec(),
        value: value.to_vec(),
        timestamp,
        tombstone,
    }
}

#[test]
fn segment_ids_parse() {
    assert_eq!(parse_segment_id("data_42.log"), Some(42));
    assert_eq!(parse_segment_id("data_1.log"), Some(1));
    assert_eq!(parse_segment_id("data_007.log"), Some(7));
    assert_eq!(parse_segment_id("data_+7.log"), Some(7));
    assert_eq!(parse_segment_id("data_18446744073709551615.log"), Some(u64::MAX));
    assert_eq!(parse_segment_id("data_18446744073709551616.log"), None);
    assert_eq!(parse_segment_id("data_.log"), None);
    assert_eq!(parse_segment_id("data_+.log"), None);
    assert_eq!(parse_segment_id("data_-1.log"), None);
    assert_eq!(parse_segment_id("data_1x.log"), None);
    assert_eq!(parse_segment_id("data_5.hint"), None);
    assert_eq!(parse_segment_id("other_5.log"), None);
    assert_eq!(parse_segment_id("data_5.log.log"), None);
}

#[test]
fn segment_ids_are_sorted_and_skip_other_files() {
    let names = ["data_3.log", "data_10.log", "data_3.hint", "notes.txt", "data_1.log", "data_2.log"];
    assert_eq!(rscask::storage::segment_ids(&names), vec![1, 2, 3, 10]);
    assert_eq!(rscask::storage::segment_ids(&[]), Vec::<u64>::new());
}

#[test]
fn append_position_rotates_only_a_full_nonempty_segment() {
    let (rotate, p) = append_position(3, 0, 10, 50);
    assert!(!rotate);
    assert_eq!(p, LogPointer { file_id: 3, offset: 0, len: 50 });
    let (rotate, p) = append_position(3, 40, 64, 30);
    assert!(rotate);
    assert_eq!(p, LogPointer { file_id: 4, offset: 0, len: 30 });
    let (rotate, p) = append_position(3, 40, 70, 30);
    assert!(!rotate);
    assert_eq!(p, LogPointer { file_id: 3, offset: 40, len: 30 });
}

#[test]
fn encoded_segment_scans_back() {
    let records = vec![rec(b"a", b"1", 1, false), rec(b"bb", b"", 2, true), rec(b"c", b"333", 3, false)];
    let (data, pointers) = encode_segment(5, &records);
    assert_eq!(pointers[0], LogPointer { file_id: 5, offset: 0, len: 23 });
    assert_eq!(pointers[1], LogPointer { file_id: 5, offset: 23, len: 23 });
    assert_eq!(pointers[2], LogPointer { file_id: 5, offset: 46, len: 25 });
    assert_eq!(data.len(), 71);
    let scanned = scan_segment(5, &data).unwrap();
    assert_eq!(scanned.len(), 3);
    for (i, (p, r)) in scanned.iter().enumerate() {
        assert_eq!(*p, pointers[i]);
        assert_eq!(r.key, records[i].key);
        assert_eq!(r.value, records[i].value);
        assert_eq!(r.tombstone, records[i].tombstone);
    }
    let keys = scan_data_segment(5, &data).unwrap();
    assert!(keys[1].tombstone);
    assert_eq!(keys[2].pointer, pointers[2]);
}

#[test]
fn scan_stops_at_truncated_tail_and_fails_on_corruption() {
    let records = vec![rec(b"a", b"1", 1, false), rec(b"b", b"2", 2, false)];
    let (data, _) = encode_segment(1, &records);
    let scanned = scan_segment(1, &data[..data.len() - 3]).unwrap();
    assert_eq!(scanned.len(), 1);
    let mut bad = data.clone();
    bad[30] ^= 0x01;
    assert!(scan_segment(1, &bad).is_err());
}

#[test]
fn key_scan_prefers_hints_and_falls_back_to_data() {
    let records = vec![rec(b"x", b"1", 1, false), rec(b"y", b"2", 2, false)];
    let (data, pointers) = encode_segment(9, &records);
    let hints = encode_hints(&records, &pointers);
    let from_hints = scan_segment_keys(9, &data, Some(&hints)).unwrap();
    let from_data = scan_segment_keys(9, &data, None).unwrap();
    assert_eq!(from_hints.len(), 2);
    for i in 0..2 {
        assert_eq!(from_hints[i].key, from_data[i].key);
        assert_eq!(from_hints[i].pointer, from_data[i].pointer);
        assert_eq!(from_hints[i].timestamp, from_data[i].timestamp);
        assert_eq!(from_hints[i].tombstone, from_data[i].tombstone);
    }
    // A corrupt hint segment is ignored in favour of the data.
    let mut bad = hints.clone();
    bad[6] ^= 0x10;
    let fallback = scan_segment_keys(9, &data, Some(&bad)).unwrap();
    assert_eq!(fallback.len(), 2);
    assert_eq!(fallback[1].key, b"y");
}

#[test]
fn mem_log_store_append_read_scan() {
    let mut log = MemLogStore::new(64);
    let p1 = log.append(&rec(b"k1", b"value1", 1, false)).unwrap();
    let p2 = log.append(&rec(b"k2", b"value2", 2, false)).unwrap();
    let p3 = log.append(&rec(b"k3", b"value3", 3, false)).unwrap();
    assert_eq!(p1, LogPointer { file_id: 1, offset: 0, len: 29 });
    assert_eq!(p2, LogPointer { file_id: 1, offset: 29, len: 29 });
    assert_eq!(p3, LogPointer { file_id: 2, offset: 0, len: 29 });
    assert_eq!(log.segment_count(), 2);
    assert_eq!(log.read(&p2).unwrap().value, b"value2");
    let all = log.scan().unwrap();
    assert_eq!(all.len(), 3);
    assert_eq!(all[2].0, p3);
    log.sync().unwrap();
    let keys = log.scan_keys().unwrap();
    assert_eq!(keys[0].key, b"k1");
}

#[test]
fn mem_log_store_compaction_writes_hints() {
    let mut log = MemLogStore::new(1 << 20);
    log.append(&rec(b"a", b"1", 1, false)).unwrap();
    log.append(&rec(b"b", b"2", 2, false)).unwrap();
    let live = vec![rec(b"b", b"2", 2, false)];
    let result = log.compact(&live).unwrap();
    assert_eq!(result.pointers, vec![LogPointer { file_id: 2, offset: 0, len: 23 }]);
    assert_eq!(log.segment_count(), 2);
    assert_eq!(log.hint_count(), 1);
    assert_eq!(log.read(&result.pointers[0]).unwrap().key, b"b");
    let keys = log.scan_keys().unwrap();
    assert_eq!(keys.len(), 1);
    assert_eq!(keys[0].pointer, result.pointers[0]);
    let next = log.append(&rec(b"c", b"3", 3, false)).unwrap();
    assert_eq!(next.file_id, 3);
}

#[test]
fn mem_log_store_rejects_pointers_it_never_gave_out() {
    let mut log = MemLogStore::new(1 << 20);
    let p = log.append(&rec(b"k", b"v", 1, false)).unwrap();
    match log.read(&LogPointer { file_id: 9, offset: 0, len: 23 }) {
        Err(rscask::Error::Io(m)) => assert_eq!(m, "segment not found"),
        other => panic!("unexpected {other:?}"),
    }
    match log.read(&LogPointer { file_id: p.file_id, offset: 10, len: 100 }) {
        Err(rscask::Error::Io(m)) => assert_eq!(m, "pointer out of range"),
        other => panic!("unexpected {other:?}"),
    }
    match log.read(&LogPointer { file_id: p.file_id, offset: 0, len: 22 }) {
        Err(rscask::Error::Corrupt(m)) => assert_eq!(m, "empty record"),
        other => panic!("unexpected {other:?}"),
    }
}

#[test]
fn partial_hint_segment_falls_back_to_the_data() {
    let records = vec![rec(b"x", b"1", 1, false), rec(b"y", b"2", 2, false)];
    let (data, pointers) = encode_segment(9, &records);
    let hints = encode_hints(&records, &pointers);
    let first_hint_len = 36 + 1;
    // Cut inside the second hint: the whole hint segment is discarded.
    let cut = &hints[..first_hint_len + 5];
    match rscask::segment::scan_hint_segment(cut) {
        Err(rscask::Error::Corrupt(m)) => assert_eq!(m, "truncated hint"),
        other => panic!("unexpected {other:?}"),
    }
    let keys = scan_segment_keys(9, &data, Some(cut)).unwrap();
    assert_eq!(keys.len(), 2);
    assert_eq!(keys[0].key, b"x");
    assert_eq!(keys[1].key, b"y");
    assert_eq!(keys[1].pointer, pointers[1]);
    // A hint segment that ends exactly after a hint is whole.
    let one = scan_segment_keys(9, &data, Some(&hints[..first_hint_len])).unwrap();
    assert_eq!(one.len(), 1);
}

#[test]
fn compaction_ids_and_uneven_hints() {
    assert_eq!(rscask::segment::compaction_ids(4), (5, 6));
    let records = vec![rec(b"x", b"1", 1, false), rec(b"y", b"2", 2, false)];
    let (_, pointers) = encode_segment(9, &records);
    let short = encode_hints(&records, &pointers[..1]);
    assert_eq!(short, encode_hints(&records[..1], &pointers[..1]));
    assert_eq!(short.len(), 36 + 1);
    assert!(encode_hints(&records, &[]).is_empty());
}

#[test]
fn compaction_with_a_tombstone_writes_no_hints() {
    let mut log = MemLogStore::new(1 << 20);
    log.append(&rec(b"a", b"1", 1, false)).unwrap();
    let result = log.compact(&[rec(b"a", b"1", 1, false), rec(b"b", b"", 2, true)]).unwrap();
    assert_eq!(result.pointers.len(), 2);
    assert_eq!(log.segment_count(), 2);
    assert_eq!(log.hint_count(), 0);
    let keys = log.scan_keys().unwrap();
    assert_eq!(keys.len(), 2);
    assert!(keys[1].tombstone);
}

#[test]
fn compaction_supersedes_every_other_segment() {
    assert_eq!(rscask::storage::superseded_ids(&[1, 2, 5, 6, 7], 6), vec![1, 2, 5, 7]);
    assert_eq!(rscask::storage::superseded_ids(&[6], 6), Vec::<u64>::new());
    assert_eq!(rscask::storage::superseded_ids(&[], 6), Vec::<u64>::new());
}

#[test]
fn hints_are_used_only_whole() {
    let records = vec![rec(b"x", b"1", 1, false), rec(b"y", b"2", 2, false)];
    let (_, pointers) = encode_segment(9, &records);
    let hints = encode_hints(&records, &pointers);
    assert_eq!(rscask::segment::usable_hints(Some(&hints)).unwrap().len(), 2);
    assert!(rscask::segment::usable_hints(Some(&hints[..40])).is_none());
    assert!(rscask::segment::usable_hints(None).is_none());
    assert_eq!(rscask::segment::usable_hints(Some(&[])).unwrap().len(), 0);
}
