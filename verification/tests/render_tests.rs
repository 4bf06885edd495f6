use rscask::render::{decimal_bytes, hex_bytes, render_bytes, render_with, response_text, response_text_with};
use rscask::{Error, Response};

#[test]
fn text_values_show_as_they_are() {
    assert_eq!(render_bytes(b"hello"), b"hello".to_vec());
    assert_eq!(render_bytes("h\u{e9}".as_bytes()), "h\u{e9}".as_bytes().to_vec());
    assert_eq!(render_bytes(b""), Vec::<u8>::new());
}

#[test]
fn binary_values_show_in_hex() {
    assert_eq!(render_bytes(&[0xff, 0x00, 0x1a]), b"ff001a".to_vec());
    assert_eq!(hex_bytes(&[0xab, 0x09]), b"ab09".to_vec());
    assert_eq!(render_with(b"ok", false), b"6f6b".to_vec());
    assert_eq!(render_with(&[0xff], true), vec![0xff]);
}

#[test]
fn decimal_spelling() {
    assert_eq!(decimal_bytes(0), b"0".to_vec());
    assert_eq!(decimal_bytes(7), b"7".to_vec());
    assert_eq!(decimal_bytes(10), b"10".to_vec());
    assert_eq!(decimal_bytes(12345), b"12345".to_vec());
    assert_eq!(decimal_bytes(usize::MAX), usize::MAX.to_string().into_bytes());
}

#[test]
fn response_lines() {
    assert_eq!(response_text(Response::Done).unwrap(), b"ok".to_vec());
    assert_eq!(response_text(Response::Value(None)).unwrap(), b"not found".to_vec());
    assert_eq!(response_text(Response::Value(Some(b"v1".to_vec()))).unwrap(), b"v1".to_vec());
    assert_eq!(response_text(Response::Value(Some(vec![0x80]))).unwrap(), b"80".to_vec());
    assert_eq!(response_text(Response::Stats { keys: 42 }).unwrap(), b"42".to_vec());
    match response_text(Response::Error("key not found".to_string())) {
        Err(Error::Invalid(m)) => assert_eq!(m, "key not found"),
        other => panic!("unexpected {other:?}"),
    }
    assert_eq!(response_text_with(Response::Value(Some(vec![0x80])), true).unwrap(), vec![0x80]);
}

#[test]
fn malformed_utf8_shows_in_hex() {
    // An overlong encoding and an encoded surrogate are not UTF-8.
    assert_eq!(render_bytes(&[0xc0, 0x80]), b"c080".to_vec());
    assert_eq!(render_bytes(&[0xed, 0xa0, 0x80]), b"eda080".to_vec());
    assert_eq!(render_bytes("\u{10ffff}".as_bytes()), "\u{10ffff}".as_bytes().to_vec());
}
