use rscask::memlog::MemLogStore;
use rscask::protocol::handle_request;
use rscask::{Bitcask, Request, Response};

fn fresh() -> Bitcask<MemLogStore, rscask::keydir::HashMapKeyDir> {
    Bitcask::open(MemLogStore::new(1 << 20)).unwrap()
}

#[test]
fn insert_refuses_existing_key() {
    let mut db = fresh();
    let r = handle_request(&mut db, Request::Insert { key: b"k".to_vec(), value: b"v".to_vec() }).unwrap();
    assert!(matches!(r, Response::Done));
    let r = handle_request(&mut db, Request::Insert { key: b"k".to_vec(), value: b"w".to_vec() }).unwrap();
    match r {
        Response::Error(m) => assert_eq!(m, "key already exists"),
        other => panic!("unexpected {other:?}"),
    }
    assert_eq!(db.get(b"k").unwrap(), Some(b"v".to_vec()));
}

#[test]
fn update_and_delete_need_the_key() {
    let mut db = fresh();
    match handle_request(&mut db, Request::Update { key: b"k".to_vec(), value: b"v".to_vec() }).unwrap() {
        Response::Error(m) => assert_eq!(m, "key not found"),
        other => panic!("unexpected {other:?}"),
    }
    match handle_request(&mut db, Request::Delete { key: b"k".to_vec() }).unwrap() {
        Response::Error(m) => assert_eq!(m, "key not found"),
        other => panic!("unexpected {other:?}"),
    }
    db.put(b"k", b"v").unwrap();
    assert!(matches!(
        handle_request(&mut db, Request::Update { key: b"k".to_vec(), value: b"w".to_vec() }).unwrap(),
        Response::Done
    ));
    assert_eq!(db.get(b"k").unwrap(), Some(b"w".to_vec()));
    assert!(matches!(
        handle_request(&mut db, Request::Delete { key: b"k".to_vec() }).unwrap(),
        Response::Done
    ));
    assert!(!db.contains_key(b"k"));
}

#[test]
fn get_stats_merge_shutdown() {
    let mut db = fresh();
    db.put(b"a", b"1").unwrap();
    match handle_request(&mut db, Request::Get { key: b"a".to_vec() }).unwrap() {
        Response::Value(v) => assert_eq!(v, Some(b"1".to_vec())),
        other => panic!("unexpected {other:?}"),
    }
    match handle_request(&mut db, Request::Get { key: b"z".to_vec() }).unwrap() {
        Response::Value(v) => assert_eq!(v, None),
        other => panic!("unexpected {other:?}"),
    }
    match handle_request(&mut db, Request::Stats).unwrap() {
        Response::Stats { keys } => assert_eq!(keys, 1),
        other => panic!("unexpected {other:?}"),
    }
    assert!(matches!(handle_request(&mut db, Request::Merge).unwrap(), Response::Done));
    assert!(matches!(handle_request(&mut db, Request::Shutdown).unwrap(), Response::Done));
    assert_eq!(db.get(b"a").unwrap(), Some(b"1".to_vec()));
}

#[test]
fn framed_message_announces_its_length() {
    let payload = b"some request bytes".to_vec();
    let framed = rscask::protocol::frame_message(&payload);
    assert_eq!(&framed[0..4], &[0, 0, 0, 18]);
    assert_eq!(rscask::protocol::message_len(&framed[0..4]), payload.len());
    assert_eq!(&framed[4..], &payload[..]);
    assert_eq!(rscask::protocol::frame_message(&[]), vec![0, 0, 0, 0]);
    assert_eq!(rscask::protocol::message_len(&[0, 1, 0, 2, 9]), 65538);
}
