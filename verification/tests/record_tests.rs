use rscask::record::Record;
use rscask::Error;

fn rec(key: &[u8], value: &[u8], timestamp: u64, tombstone: bool) -> Record {
    Record {
        key: key.to_vec(),
        value: value.to_vec(),
        timestamp,
        tombstone,
    }
}

#[test]
fn record_roundtrip_and_length() {
    let r = rec(b"key", b"value", 77, false);
    let bytes = r.encode();
    assert_eq!(bytes.len(), r.encoded_len());
    assert_eq!(r.encoded_len(), 21 + 3 + 5);
    let mut reader: &[u8] = &bytes;
    let (back, used) = Record::decode_from_reader(&mut reader).unwrap().unwrap();
    assert_eq!(used, bytes.len());
    assert!(reader.is_empty());
    assert_eq!(back.key, b"key");
    assert_eq!(back.value, b"value");
    assert_eq!(back.timestamp, 77);
    assert!(!back.tombstone);
}

#[test]
fn record_layout_and_checksum() {
    let r = rec(b"k", b"vv", 0x0a0b0c0d0e0f1011, true);
    let bytes = r.encode();
    assert_eq!(&bytes[4..12], &[0x0a, 0x0b, 0x0c, 0x0d, 0x0e, 0x0f, 0x10, 0x11]);
    assert_eq!(bytes[12], 1);
    assert_eq!(&bytes[13..17], &[0, 0, 0, 1]);
    assert_eq!(&bytes[17..21], &[0, 0, 0, 2]);
    assert_eq!(&bytes[21..], b"kvv");
    let crc = crc32fast::hash(&bytes[4..]);
    assert_eq!(&bytes[0..4], &crc.to_be_bytes());
}

#[test]
fn tombstone_roundtrip() {
    let r = Record::new_delete(b"gone".to_vec());
    assert!(r.tombstone);
    assert!(r.value.is_empty());
    let back = Record::decode_from_bytes(&r.encode()).unwrap();
    assert!(back.tombstone);
    assert_eq!(back.key, b"gone");
    assert_eq!(back.timestamp, r.timestamp);
}

#[test]
fn new_put_is_live_and_stamped() {
    let r = Record::new_put(b"a".to_vec(), b"b".to_vec());
    assert!(!r.tombstone);
    assert_eq!(r.key, b"a");
    assert_eq!(r.value, b"b");
    assert!(r.timestamp > 0);
}

#[test]
fn decode_from_bytes_errors() {
    match Record::decode_from_bytes(&[]) {
        Err(Error::Corrupt(m)) => assert_eq!(m, "empty record"),
        other => panic!("unexpected {other:?}"),
    }
    let mut bytes = rec(b"key", b"value", 1, false).encode();
    bytes[25] ^= 0x40;
    match Record::decode_from_bytes(&bytes) {
        Err(Error::Corrupt(m)) => assert_eq!(m, "crc mismatch"),
        other => panic!("unexpected {other:?}"),
    }
}

#[test]
fn truncated_record_reads_as_end() {
    let bytes = rec(b"key", b"value", 1, false).encode();
    for cut in 0..bytes.len() {
        let mut reader: &[u8] = &bytes[..cut];
        assert!(Record::decode_from_reader(&mut reader).unwrap().is_none());
    }
}

#[test]
fn decode_reads_only_the_first_record() {
    let a = rec(b"a", b"1", 1, false);
    let b = rec(b"b", b"22", 2, false);
    let mut buf = a.encode();
    buf.extend_from_slice(&b.encode());
    let mut reader: &[u8] = &buf;
    let (first, used) = Record::decode_from_reader(&mut reader).unwrap().unwrap();
    assert_eq!(first.key, b"a");
    assert_eq!(used, a.encoded_len());
    assert_eq!(reader.len(), b.encoded_len());
    let (second, _) = Record::decode_from_reader(&mut reader).unwrap().unwrap();
    assert_eq!(second.value, b"22");
    assert!(reader.is_empty());
    assert!(Record::decode_from_reader(&mut reader).unwrap().is_none());
}

#[test]
fn payload_and_framing() {
    let r = rec(b"k", b"v", 5, false);
    let payload = r.payload();
    assert_eq!(payload.len(), 17 + 2);
    assert_eq!(&payload[0..8], &[0, 0, 0, 0, 0, 0, 0, 5]);
    assert_eq!(payload[8], 0);
    assert_eq!(&payload[17..], b"kv");
    let framed = rscask::codec::frame_checksummed(0x01020304, &payload);
    assert_eq!(&framed[0..4], &[1, 2, 3, 4]);
    assert_eq!(&framed[4..], &payload[..]);
    assert_eq!(r.encode(), rscask::codec::frame_checksummed(crc32fast::hash(&payload), &payload));
}

#[test]
fn framed_len_and_checked_decode() {
    let r = rec(b"key", b"value", 9, true);
    let mut bytes = r.encode();
    bytes.extend_from_slice(b"tail");
    assert_eq!(Record::framed_len(&bytes), Some(29));
    assert_eq!(Record::framed_len(&bytes[..28]), None);
    assert_eq!(Record::framed_len(&bytes[..20]), None);
    let stored = u32::from_be_bytes([bytes[0], bytes[1], bytes[2], bytes[3]]);
    let (back, used) = Record::decode_checked(&bytes, stored).unwrap().unwrap();
    assert_eq!(used, 29);
    assert_eq!(back.key, b"key");
    assert_eq!(back.value, b"value");
    assert_eq!(back.timestamp, 9);
    assert!(back.tombstone);
    match Record::decode_checked(&bytes, stored ^ 1) {
        Err(Error::Corrupt(m)) => assert_eq!(m, "crc mismatch"),
        other => panic!("unexpected {other:?}"),
    }
    assert!(Record::decode_checked(&bytes[..10], 0).unwrap().is_none());
}

#[test]
fn clock_readings_become_stamps() {
    assert_eq!(rscask::record::millis_stamp(None), 0);
    assert_eq!(rscask::record::millis_stamp(Some(1_700_000_000_123)), 1_700_000_000_123);
    assert_eq!(rscask::record::millis_stamp(Some((1u128 << 64) + 5)), 5);
}

#[test]
fn reader_moves_past_what_it_read() {
    let a = rec(b"a", b"1", 1, false);
    let b = rec(b"b", b"22", 2, false);
    let mut buf = a.encode();
    buf[30 - 8] ^= 0x40;
    buf.extend_from_slice(&b.encode());
    let mut reader: &[u8] = &buf;
    // A checksum failure consumes the whole record it read.
    assert!(Record::decode_from_reader(&mut reader).is_err());
    assert_eq!(reader.len(), b.encoded_len());
    let (second, _) = Record::decode_from_reader(&mut reader).unwrap().unwrap();
    assert_eq!(second.key, b"b");
    // A record cut short consumes what is left.
    let whole = b.encode();
    let mut reader: &[u8] = &whole[..10];
    assert!(Record::decode_from_reader(&mut reader).unwrap().is_none());
    assert!(reader.is_empty());
}
