use rscask::hint::HintRecord;
use rscask::segment::scan_hint_segment;
use rscask::storage::LogPointer;

#[test]
fn roundtrip_single() {
    let hr = HintRecord::new(
        b"hello".to_vec(),
        123456,
        LogPointer {
            file_id: 7,
            offset: 42,
            len: 99,
        },
    );
    let bytes = hr.encode();
    let mut reader: &[u8] = &bytes;
    let decoded = HintRecord::decode_from_reader(&mut reader).unwrap().unwrap();
    assert!(reader.is_empty());
    assert_eq!(decoded.key, b"hello");
    assert_eq!(decoded.timestamp, 123456);
    assert_eq!(decoded.pointer.file_id, 7);
    assert_eq!(decoded.pointer.offset, 42);
    assert_eq!(decoded.pointer.len, 99);
}

#[test]
fn roundtrip_multiple() {
    let records: Vec<HintRecord> = (0..5)
        .map(|i| {
            HintRecord::new(
                format!("key-{i}").into_bytes(),
                i * 1000,
                LogPointer {
                    file_id: 1,
                    offset: i * 100,
                    len: 50,
                },
            )
        })
        .collect();

    let mut buf = Vec::new();
    for r in &records {
        buf.extend_from_slice(&r.encode());
    }

    let mut reader: &[u8] = &buf;
    for expected in &records {
        let decoded = HintRecord::decode_from_reader(&mut reader)
            .unwrap()
            .unwrap();
        assert_eq!(decoded.key, expected.key);
        assert_eq!(decoded.timestamp, expected.timestamp);
        assert_eq!(decoded.pointer, expected.pointer);
    }
    // End of the buffer.
    assert!(HintRecord::decode_from_reader(&mut reader)
        .unwrap()
        .is_none());
}

#[test]
fn empty_reader_returns_none() {
    let mut reader: &[u8] = &[];
    assert!(HintRecord::decode_from_reader(&mut reader).unwrap().is_none());
}

#[test]
fn corrupt_crc_is_detected() {
    let hr = HintRecord::new(
        b"key".to_vec(),
        1,
        LogPointer {
            file_id: 1,
            offset: 0,
            len: 10,
        },
    );
    let mut bytes = hr.encode();
    // Flip a byte in the payload (after CRC)
    let last = bytes.len() - 1;
    bytes[last] ^= 0xFF;
    let mut reader: &[u8] = &bytes;
    let result = HintRecord::decode_from_reader(&mut reader);
    assert!(result.is_err());
}

#[test]
fn hint_encoding_layout_and_checksum() {
    let hr = HintRecord::new(
        b"ab".to_vec(),
        0x0102030405060708,
        LogPointer {
            file_id: 9,
            offset: 0x10,
            len: 0x20,
        },
    );
    let bytes = hr.encode();
    assert_eq!(bytes.len(), 36 + 2);
    assert_eq!(&bytes[4..12], &[1, 2, 3, 4, 5, 6, 7, 8]);
    assert_eq!(&bytes[12..16], &[0, 0, 0, 2]);
    assert_eq!(&bytes[16..24], &[0, 0, 0, 0, 0, 0, 0, 9]);
    assert_eq!(&bytes[24..32], &[0, 0, 0, 0, 0, 0, 0, 0x10]);
    assert_eq!(&bytes[32..36], &[0, 0, 0, 0x20]);
    assert_eq!(&bytes[36..], b"ab");
    let crc = crc32fast::hash(&bytes[4..]);
    assert_eq!(&bytes[0..4], &crc.to_be_bytes());
}

#[test]
fn truncated_hint_reads_as_end() {
    let hr = HintRecord::new(b"key".to_vec(), 5, LogPointer { file_id: 2, offset: 3, len: 4 });
    let bytes = hr.encode();
    for cut in 0..bytes.len() {
        let mut reader: &[u8] = &bytes[..cut];
        assert!(HintRecord::decode_from_reader(&mut reader).unwrap().is_none());
        assert!(reader.is_empty());
    }
}

#[test]
fn hint_segment_scan_reports_live_entries() {
    let a = HintRecord::new(b"a".to_vec(), 1, LogPointer { file_id: 3, offset: 0, len: 22 });
    let b = HintRecord::new(b"bb".to_vec(), 2, LogPointer { file_id: 3, offset: 22, len: 23 });
    let mut buf = a.encode();
    buf.extend_from_slice(&b.encode());
    let entries = scan_hint_segment(&buf).unwrap();
    assert_eq!(entries.len(), 2);
    assert_eq!(entries[0].key, b"a");
    assert_eq!(entries[1].key, b"bb");
    assert_eq!(entries[1].pointer, LogPointer { file_id: 3, offset: 22, len: 23 });
    assert!(!entries[0].tombstone && !entries[1].tombstone);
    let mut bad = buf.clone();
    bad[5] ^= 1;
    match scan_hint_segment(&bad) {
        Err(rscask::Error::Corrupt(m)) => assert_eq!(m, "hint crc mismatch"),
        other => panic!("unexpected {other:?}"),
    }
}

#[test]
fn hint_payload_framed_len_and_checked_decode() {
    let hr = HintRecord::new(
        b"ab".to_vec(),
        3,
        LogPointer {
            file_id: 4,
            offset: 5,
            len: 6,
        },
    );
    let payload = hr.payload();
    assert_eq!(payload.len(), 32 + 2);
    assert_eq!(&payload[32..], b"ab");
    let bytes = hr.encode();
    assert_eq!(bytes, rscask::codec::frame_checksummed(crc32fast::hash(&payload), &payload));
    assert_eq!(HintRecord::framed_len(&bytes), Some(38));
    assert_eq!(HintRecord::framed_len(&bytes[..37]), None);
    let stored = u32::from_be_bytes([bytes[0], bytes[1], bytes[2], bytes[3]]);
    let (back, used) = HintRecord::decode_checked(&bytes, stored).unwrap().unwrap();
    assert_eq!(used, 38);
    assert_eq!(back.key, b"ab");
    assert_eq!(back.pointer.file_id, 4);
    assert_eq!(back.pointer.offset, 5);
    assert_eq!(back.pointer.len, 6);
    match HintRecord::decode_checked(&bytes, stored.wrapping_add(1)) {
        Err(rscask::Error::Corrupt(m)) => assert_eq!(m, "hint crc mismatch"),
        other => panic!("unexpected {other:?}"),
    }
}
