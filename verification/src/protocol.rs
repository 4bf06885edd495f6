use vstd::prelude::*;
use vstd::string::StringExecFns;

use crate::bitcask::{merged, write_logged, Bitcask};
use crate::codec::{be32_bytes, be32_value, extend_bytes, lemma_be32_roundtrip, push_be32, read_be32};
use crate::error::Error;
use crate::keydir::KeyDir;
use crate::record::RecordView;
use crate::storage::{LogOp, LogStore};

verus! {

/// A request to the store, as the daemon receives it.
#[derive(Debug)]
pub enum Request {
    Insert { key: Vec<u8>, value: Vec<u8> },
    Update { key: Vec<u8>, value: Vec<u8> },
    Delete { key: Vec<u8> },
    Get { key: Vec<u8> },
    Merge,
    Stats,
    Shutdown,
}

/// The answer to a request.
#[derive(Debug)]
pub enum Response {
    Done,
    Value(Option<Vec<u8>>),
    Stats { keys: usize },
    Error(String),
}

/// Whether `r` is the refusal with message `msg`.
pub open spec fn refused_with(r: Result<Response, Error>, msg: Seq<char>) -> bool {
    r matches Ok(Response::Error(m)) && m@ == msg
}

/// Whether a reliable store `log` is sure to carry out `request`: it must allow the append
/// of the record that a write or delete makes, whatever its time stamp, and, for a merge,
/// a compaction.
pub open spec fn request_owed<L: LogStore>(log: L, request: Request) -> bool {
    match request {
        Request::Insert { key, value } => forall|t: u64|
            #[trigger] log.allows(
                seq![LogOp::Append(RecordView { key: key@, value: value@, timestamp: t, tombstone: false })],
            ),
        Request::Update { key, value } => forall|t: u64|
            #[trigger] log.allows(
                seq![LogOp::Append(RecordView { key: key@, value: value@, timestamp: t, tombstone: false })],
            ),
        Request::Delete { key } => forall|t: u64|
            #[trigger] log.allows(
                seq![LogOp::Append(RecordView { key: key@, value: Seq::empty(), timestamp: t, tombstone: true })],
            ),
        Request::Merge => log.allows(seq![LogOp::Compact]),
        _ => true,
    }
}

/// Carries out `request` on `store`.
///
/// An insert of a key that is stored, and an update or delete of a key that is not,
/// are refused with a message and change nothing; a failure of the store underneath
/// is returned as an error and changes nothing either.
pub fn handle_request<L: LogStore, K: KeyDir>(store: &mut Bitcask<L, K>, request: Request) -> (r:
    Result<Response, Error>)
    requires
        old(store).wf(),
        request is Insert ==> old(store)@.len() < usize::MAX,
    ensures
        final(store).wf(),
        match request {
            Request::Insert { key, value } => if old(store)@.contains_key(key@) {
                &&& refused_with(r, "key already exists"@)
                &&& final(store)@ == old(store)@
            } else {
                match r {
                    Ok(resp) => resp is Done && final(store)@ == old(store)@.insert(key@, value@),
                    Err(_) => final(store)@ == old(store)@,
                }
            },
            Request::Update { key, value } => if !old(store)@.contains_key(key@) {
                &&& refused_with(r, "key not found"@)
                &&& final(store)@ == old(store)@
            } else {
                match r {
                    Ok(resp) => resp is Done && final(store)@ == old(store)@.insert(key@, value@),
                    Err(_) => final(store)@ == old(store)@,
                }
            },
            Request::Delete { key } => match r {
                Ok(resp) => {
                    &&& final(store)@ == old(store)@.remove(key@)
                    &&& if old(store)@.contains_key(key@) {
                        resp is Done
                    } else {
                        refused_with(r, "key not found"@)
                    }
                },
                Err(_) => final(store)@ == old(store)@,
            },
            Request::Get { key } => {
                &&& final(store)@ == old(store)@
                &&& match r {
                    Ok(Response::Value(Some(v))) => old(store)@.contains_key(key@) && v@ == old(
                        store,
                    )@[key@],
                    Ok(Response::Value(None)) => !old(store)@.contains_key(key@),
                    Ok(_) => false,
                    Err(_) => old(store)@.contains_key(key@),
                }
            },
            Request::Merge => {
                &&& final(store)@ == old(store)@
                &&& r is Ok ==> r == Ok::<Response, Error>(Response::Done)
            },
            Request::Stats => {
                &&& final(store)@ == old(store)@
                &&& r == Ok::<Response, Error>(Response::Stats { keys: old(store)@.len() as usize })
            },
            Request::Shutdown => {
                &&& final(store)@ == old(store)@
                &&& r == Ok::<Response, Error>(Response::Done)
            },
        },
        old(store).log_store().reliable() && request_owed(old(store).log_store(), request) ==> r is Ok,
        old(store).log_store().reliable() ==> final(store).log_store().reliable(),
        match request {
            Request::Insert { key, value } => if old(store)@.contains_key(key@) {
                *final(store) == *old(store)
            } else {
                r is Ok ==> write_logged(*old(store), *final(store), key@, value@, false)
            },
            Request::Update { key, value } => if !old(store)@.contains_key(key@) {
                *final(store) == *old(store)
            } else {
                r is Ok ==> write_logged(*old(store), *final(store), key@, value@, false)
            },
            Request::Delete { key } => r is Ok ==> write_logged(
                *old(store),
                *final(store),
                key@,
                Seq::empty(),
                true,
            ),
            Request::Merge => r is Ok ==> merged(*old(store), *final(store)),
            _ => *final(store) == *old(store),
        },
{
    match request {
        Request::Insert { key, value } => {
            if store.contains_key(key.as_slice()) {
                return Ok(Response::Error(String::from_str("key already exists")));
            }
            store.put(key.as_slice(), value.as_slice())?;
            Ok(Response::Done)
        },
        Request::Update { key, value } => {
            if !store.contains_key(key.as_slice()) {
                return Ok(Response::Error(String::from_str("key not found")));
            }
            store.put(key.as_slice(), value.as_slice())?;
            Ok(Response::Done)
        },
        Request::Delete { key } => {
            if !store.delete(key.as_slice())? {
                return Ok(Response::Error(String::from_str("key not found")));
            }
            Ok(Response::Done)
        },
        Request::Get { key } => {
            let value = store.get(key.as_slice())?;
            Ok(Response::Value(value))
        },
        Request::Merge => {
            store.merge()?;
            Ok(Response::Done)
        },
        Request::Stats => Ok(Response::Stats { keys: store.len() }),
        Request::Shutdown => Ok(Response::Done),
    }
}

/// A message as it travels between client and daemon: the big-endian length of the
/// payload in four bytes, then the payload. A length beyond 32 bits is stored truncated.
pub fn frame_message(payload: &[u8]) -> (out: Vec<u8>)
    ensures
        out@ == be32_bytes(payload@.len() as u32) + payload@,
{
    let mut out: Vec<u8> = Vec::new();
    push_be32(&mut out, payload.len() as u32);
    extend_bytes(&mut out, payload);
    out
}

/// The payload length that a message header announces.
pub fn message_len(header: &[u8]) -> (n: usize)
    requires
        header@.len() >= 4,
    ensures
        n == be32_value(header@.subrange(0, 4)),
{
    read_be32(header, 0) as usize
}

/// The header of a framed message announces the length of its payload, which follows it,
/// for any payload of at most `u32::MAX` bytes.
pub proof fn lemma_frame_roundtrip(payload: Seq<u8>)
    requires
        payload.len() <= u32::MAX,
    ensures
        ({
            let framed = be32_bytes(payload.len() as u32) + payload;
            &&& be32_value(framed.subrange(0, 4)) == payload.len()
            &&& framed.subrange(4, framed.len() as int) == payload
        }),
{
    let framed = be32_bytes(payload.len() as u32) + payload;
    lemma_be32_roundtrip(payload.len() as u32);
    assert(framed.subrange(0, 4) =~= be32_bytes(payload.len() as u32));
    assert(framed.subrange(4, framed.len() as int) =~= payload);
}

} // verus!
