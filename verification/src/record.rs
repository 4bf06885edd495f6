use vstd::prelude::*;
use vstd::slice::{slice_subrange, slice_to_vec};
use vstd::string::StringExecFns;

use crate::codec::{
    be32_bytes, be32_value, be64_bytes, be64_value, crc32, crc32_of, extend_bytes, frame_checksummed,
    lemma_be32_roundtrip, lemma_be64_roundtrip, push_be32, push_be64, read_be32, read_be64,
};
use crate::error::Error;

verus! {

/// Length of the fixed part of a record: checksum, timestamp, flags and the two lengths.
pub const FIXED_HEADER_LEN: usize = 4 + 8 + 1 + 4 + 4;

/// Length of the fixed part that the checksum covers.
pub const HEADER_WITHOUT_CRC_LEN: usize = FIXED_HEADER_LEN - 4;

/// Flag bit that marks a record as a deletion.
pub const TOMBSTONE_FLAG: u8 = 0x01;

/// One entry of the log: a write of `value` under `key`, or a deletion of `key`.
#[derive(Debug, Clone)]
pub struct Record {
    pub key: Vec<u8>,
    pub value: Vec<u8>,
    pub timestamp: u64,
    pub tombstone: bool,
}

/// A record as a mathematical value.
pub ghost struct RecordView {
    pub key: Seq<u8>,
    pub value: Seq<u8>,
    pub timestamp: u64,
    pub tombstone: bool,
}

impl View for Record {
    type V = RecordView;

    open spec fn view(&self) -> RecordView {
        RecordView {
            key: self.key@,
            value: self.value@,
            timestamp: self.timestamp,
            tombstone: self.tombstone,
        }
    }
}

/// Whether both lengths of the record fit in the format's 32-bit length fields.
pub open spec fn record_encodable(r: RecordView) -> bool {
    r.key.len() <= u32::MAX && r.value.len() <= u32::MAX
}

/// The flags byte of a record.
pub open spec fn record_flags(tombstone: bool) -> u8 {
    if tombstone {
        TOMBSTONE_FLAG
    } else {
        0u8
    }
}

/// The bytes that the checksum of a record covers:
/// `[timestamp:8][flags:1][key_size:4][value_size:4][key][value]`, integers big-endian.
/// A length that does not fit in 32 bits is stored truncated.
pub open spec fn record_payload(r: RecordView) -> Seq<u8> {
    be64_bytes(r.timestamp) + seq![record_flags(r.tombstone)] + be32_bytes(r.key.len() as u32)
        + be32_bytes(r.value.len() as u32) + r.key + r.value
}

/// The encoding of a record: the big-endian CRC-32 of the payload, then the payload.
#[verifier::opaque]
pub open spec fn record_bytes(r: RecordView) -> Seq<u8> {
    be32_bytes(crc32(record_payload(r))) + record_payload(r)
}

/// The length of the record at the front of `b`, as its header gives it.
pub open spec fn record_total(b: Seq<u8>) -> int {
    FIXED_HEADER_LEN as int + be32_value(b.subrange(13, 17)) as int + be32_value(b.subrange(17, 21)) as int
}

/// What reading one record from the front of `b` gives when `crc` is the checksum
/// computed over the bytes after the stored one:
/// `None` when `crc` differs from the stored checksum, `Some(None)` when `b` ends before
/// the record does, and `Some(Some((r, n)))` when the first `n` bytes hold record `r`.
pub open spec fn parse_record_checked(b: Seq<u8>, crc: u32) -> Option<Option<(RecordView, nat)>> {
    if b.len() < FIXED_HEADER_LEN {
        Some(None)
    } else {
        let key_len = be32_value(b.subrange(13, 17)) as int;
        let total = record_total(b);
        if b.len() < total {
            Some(None)
        } else if crc != be32_value(b.subrange(0, 4)) {
            None
        } else {
            Some(
                Some(
                    (
                        RecordView {
                            timestamp: be64_value(b.subrange(4, 12)),
                            tombstone: b[12] & TOMBSTONE_FLAG != 0,
                            key: b.subrange(21, 21 + key_len),
                            value: b.subrange(21 + key_len, total),
                        },
                        total as nat,
                    ),
                ),
            )
        }
    }
}

/// What reading one record from the front of `b` gives: as `parse_record_checked`, with
/// the CRC-32 of the bytes between the stored checksum and the end of the record.
pub open spec fn parse_record(b: Seq<u8>) -> Option<Option<(RecordView, nat)>> {
    parse_record_checked(b, crc32(b.subrange(4, record_total(b))))
}

/// Whether an executable decoding result is the one that `parse_record` describes.
pub open spec fn decoded_as(
    r: Result<Option<(Record, usize)>, Error>,
    p: Option<Option<(RecordView, nat)>>,
) -> bool {
    match p {
        None => r matches Err(Error::Corrupt(m)) && m@ == "crc mismatch"@,
        Some(None) => r == Ok::<Option<(Record, usize)>, Error>(None),
        Some(Some((rv, n))) => r matches Ok(Some((rec, m))) && rec@ == rv && m == n,
    }
}

/// The system clock's time, `std::time::SystemTime`.
#[verifier::external_type_specification]
#[verifier::external_body]
pub struct ExSystemTime(std::time::SystemTime);

/// The error of a time before the epoch, `std::time::SystemTimeError`.
#[verifier::external_type_specification]
#[verifier::external_body]
pub struct ExSystemTimeError(std::time::SystemTimeError);

/// Reads the system clock with `SystemTime::now`.
///
/// Trusted: nothing is claimed of the value, which depends on the clock.
#[verifier::external_body]
fn system_now() -> std::time::SystemTime {
    std::time::SystemTime::now()
}

/// How long after the Unix epoch `t` is, by `SystemTime::duration_since`; an error for a
/// time before the epoch.
///
/// Trusted: nothing is claimed of the result beyond its type.
#[verifier::external_body]
fn since_epoch(t: &std::time::SystemTime) -> Result<std::time::Duration, std::time::SystemTimeError> {
    t.duration_since(std::time::UNIX_EPOCH)
}

/// The whole milliseconds of `d`, by `Duration::as_millis`.
///
/// Trusted: nothing is claimed of the value, as `Duration` is opaque here.
#[verifier::external_body]
fn duration_millis(d: &std::time::Duration) -> u128 {
    d.as_millis()
}

/// The time stamp that a clock reading gives: 0 for a clock set before the epoch
/// (`None`), and otherwise the low 64 bits of the milliseconds since the epoch.
pub fn millis_stamp(reading: Option<u128>) -> (t: u64)
    ensures
        t == match reading {
            None => 0u64,
            Some(ms) => ms as u64,
        },
{
    match reading {
        None => 0,
        Some(ms) => ms as u64,
    }
}

/// The time in milliseconds since the Unix epoch, from the system clock, as
/// `millis_stamp` makes a stamp of it.
fn now_millis() -> u64 {
    let now = system_now();
    let reading = match since_epoch(&now) {
        Ok(d) => Some(duration_millis(&d)),
        Err(_) => None,
    };
    millis_stamp(reading)
}

impl Record {
    /// A record that writes `value` under `key`, stamped with the current time.
    pub fn new_put(key: Vec<u8>, value: Vec<u8>) -> (r: Record)
        ensures
            r.key == key,
            r.value == value,
            !r.tombstone,
    {
        Record { key, value, timestamp: now_millis(), tombstone: false }
    }

    /// A record that deletes `key`, stamped with the current time.
    pub fn new_delete(key: Vec<u8>) -> (r: Record)
        ensures
            r.key == key,
            r.value@ == Seq::<u8>::empty(),
            r.tombstone,
    {
        Record { key, value: Vec::new(), timestamp: now_millis(), tombstone: true }
    }

    /// The number of bytes that `encode` produces.
    pub fn encoded_len(&self) -> (n: usize)
        requires
            FIXED_HEADER_LEN + self.key@.len() + self.value@.len() <= usize::MAX,
        ensures
            n == FIXED_HEADER_LEN + self.key@.len() + self.value@.len(),
            n == record_bytes(self@).len(),
    {
        proof {
            lemma_record_bytes_len(self@);
        }
        FIXED_HEADER_LEN + self.key.len() + self.value.len()
    }

    /// The bytes of this record that its checksum covers.
    pub fn payload(&self) -> (out: Vec<u8>)
        ensures
            out@ == record_payload(self@),
    {
        let key_len = self.key.len() as u32;
        let value_len = self.value.len() as u32;
        let mut payload: Vec<u8> = Vec::new();
        push_be64(&mut payload, self.timestamp);
        payload.push(if self.tombstone { TOMBSTONE_FLAG } else { 0 });
        push_be32(&mut payload, key_len);
        push_be32(&mut payload, value_len);
        extend_bytes(&mut payload, self.key.as_slice());
        extend_bytes(&mut payload, self.value.as_slice());
        assert(payload@ =~= record_payload(self@));
        payload
    }

    /// The bytes of this record in the log format.
    pub fn encode(&self) -> (out: Vec<u8>)
        ensures
            out@ == record_bytes(self@),
            ({
                let b = out@;
                let r = self@;
            &&& b.len() == 21 + r.key.len() + r.value.len()
            &&& be32_value(b.subrange(0, 4)) == crc32(b.subrange(4, b.len() as int))
            &&& be64_value(b.subrange(4, 12)) == r.timestamp
            &&& b[12] == (if r.tombstone { 1u8 } else { 0u8 })
            &&& be32_value(b.subrange(13, 17)) == r.key.len() as u32
            &&& be32_value(b.subrange(17, 21)) == r.value.len() as u32
            &&& b.subrange(21, 21 + r.key.len() as int) == r.key
            &&& b.subrange(21 + r.key.len() as int, b.len() as int) == r.value
            }),
    {
        proof {
            lemma_record_layout(self@);
        }
        let payload = self.payload();
        let crc = crc32_of(payload.as_slice());
        proof {
            reveal(record_bytes);
        }
        frame_checksummed(crc, payload.as_slice())
    }

    /// The length of the record at the front of `bytes`, if all of it is there.
    pub fn framed_len(bytes: &[u8]) -> (r: Option<usize>)
        ensures
            r == (if bytes@.len() < FIXED_HEADER_LEN || bytes@.len() < record_total(bytes@) {
                None::<usize>
            } else {
                Some(record_total(bytes@) as usize)
            }),
            r matches Some(t) ==> t == record_total(bytes@) && FIXED_HEADER_LEN <= t <= bytes@.len(),
    {
        if bytes.len() < FIXED_HEADER_LEN {
            return None;
        }
        let key_len = read_be32(bytes, 13) as usize;
        let value_len = read_be32(bytes, 17) as usize;
        if bytes.len() - FIXED_HEADER_LEN < key_len {
            return None;
        }
        if bytes.len() - FIXED_HEADER_LEN - key_len < value_len {
            return None;
        }
        Some(FIXED_HEADER_LEN + key_len + value_len)
    }

    /// Reads one record from the front of `bytes`, given the checksum `computed` over the
    /// bytes between the stored checksum and the end of the record.
    pub fn decode_checked(bytes: &[u8], computed: u32) -> (r: Result<Option<(Record, usize)>, Error>)
        ensures
            decoded_as(r, parse_record_checked(bytes@, computed)),
    {
        let total = match Self::framed_len(bytes) {
            None => return Ok(None),
            Some(t) => t,
        };
        let stored_crc = read_be32(bytes, 0);
        if computed != stored_crc {
            return Err(Error::Corrupt(String::from_str("crc mismatch")));
        }
        let timestamp = read_be64(bytes, 4);
        let flags = bytes[12];
        let key_len = read_be32(bytes, 13) as usize;
        let key = slice_to_vec(slice_subrange(bytes, FIXED_HEADER_LEN, FIXED_HEADER_LEN + key_len));
        let value = slice_to_vec(slice_subrange(bytes, FIXED_HEADER_LEN + key_len, total));
        let record = Record { key, value, timestamp, tombstone: flags & TOMBSTONE_FLAG != 0 };
        Ok(Some((record, total)))
    }

    /// Reads one record from the front of `reader` and moves `reader` past the bytes it read.
    ///
    /// Returns `Ok(None)` when the bytes end before a whole record, having read them all;
    /// an error when the checksum does not match, having read the whole record; and
    /// otherwise the record with the number of bytes it took.
    pub fn decode_from_reader(reader: &mut &[u8]) -> (r: Result<Option<(Record, usize)>, Error>)
        ensures
            decoded_as(r, parse_record(old(reader)@)),
            match parse_record(old(reader)@) {
                None => final(reader)@ == old(reader)@.subrange(
                    record_total(old(reader)@),
                    old(reader)@.len() as int,
                ),
                Some(None) => final(reader)@.len() == 0,
                Some(Some((_, n))) => final(reader)@ == old(reader)@.subrange(
                    n as int,
                    old(reader)@.len() as int,
                ),
            },
    {
        let bytes: &[u8] = *reader;
        match Self::framed_len(bytes) {
            None => {
                *reader = slice_subrange(bytes, bytes.len(), bytes.len());
                Ok(None)
            },
            Some(total) => {
                let computed = crc32_of(slice_subrange(bytes, 4, total));
                let r = Self::decode_checked(bytes, computed);
                *reader = slice_subrange(bytes, total, bytes.len());
                r
            },
        }
    }

    /// Decodes a buffer that holds exactly one record.
    pub fn decode_from_bytes(bytes: &[u8]) -> (r: Result<Record, Error>)
        ensures
            match parse_record(bytes@) {
                None => r matches Err(Error::Corrupt(m)) && m@ == "crc mismatch"@,
                Some(None) => r matches Err(Error::Corrupt(m)) && m@ == "empty record"@,
                Some(Some((rv, _))) => r matches Ok(rec) && rec@ == rv,
            },
    {
        let mut reader: &[u8] = bytes;
        match Self::decode_from_reader(&mut reader) {
            Err(e) => Err(e),
            Ok(Some((record, _))) => Ok(record),
            Ok(None) => Err(Error::Corrupt(String::from_str("empty record"))),
        }
    }
}

/// The layout of an encoded record: the big-endian checksum of the rest, the time stamp,
/// the flags byte (1 for a tombstone), the key and value lengths (truncated to 32 bits),
/// then the key and the value.
pub proof fn lemma_record_layout(r: RecordView)
    ensures
        ({
            let b = record_bytes(r);
            &&& b.len() == 21 + r.key.len() + r.value.len()
            &&& be32_value(b.subrange(0, 4)) == crc32(b.subrange(4, b.len() as int))
            &&& be64_value(b.subrange(4, 12)) == r.timestamp
            &&& b[12] == (if r.tombstone { 1u8 } else { 0u8 })
            &&& be32_value(b.subrange(13, 17)) == r.key.len() as u32
            &&& be32_value(b.subrange(17, 21)) == r.value.len() as u32
            &&& b.subrange(21, 21 + r.key.len() as int) == r.key
            &&& b.subrange(21 + r.key.len() as int, b.len() as int) == r.value
        }),
{
    reveal(record_bytes);
    let payload = record_payload(r);
    let b = record_bytes(r);
    let kl = r.key.len() as int;
    lemma_be32_roundtrip(crc32(payload));
    lemma_be32_roundtrip(r.key.len() as u32);
    lemma_be32_roundtrip(r.value.len() as u32);
    lemma_be64_roundtrip(r.timestamp);
    assert(b.subrange(0, 4) =~= be32_bytes(crc32(payload)));
    assert(b.subrange(4, b.len() as int) =~= payload);
    assert(b.subrange(4, 12) =~= be64_bytes(r.timestamp));
    assert(b.subrange(13, 17) =~= be32_bytes(r.key.len() as u32));
    assert(b.subrange(17, 21) =~= be32_bytes(r.value.len() as u32));
    assert(b.subrange(21, 21 + kl) =~= r.key);
    assert(b.subrange(21 + kl, b.len() as int) =~= r.value);
}

/// The encoding of a record is as long as its fixed header, key and value together.
pub proof fn lemma_record_bytes_len(r: RecordView)
    ensures
        record_payload(r).len() == HEADER_WITHOUT_CRC_LEN + r.key.len() + r.value.len(),
        record_bytes(r).len() == FIXED_HEADER_LEN + r.key.len() + r.value.len(),
{
    reveal(record_bytes);
    lemma_be32_roundtrip(0);
    lemma_be64_roundtrip(0);
}

/// Decoding the encoding of a record, whatever follows it, gives the record back
/// together with the length of its encoding.
pub proof fn lemma_record_roundtrip(r: RecordView, rest: Seq<u8>)
    requires
        record_encodable(r),
    ensures
        parse_record(record_bytes(r) + rest) == Some(Some((r, record_bytes(r).len()))),
{
    reveal(record_bytes);
    let payload = record_payload(r);
    let b = record_bytes(r) + rest;
    let klen = r.key.len() as int;
    let vlen = r.value.len() as int;
    lemma_record_bytes_len(r);
    lemma_be32_roundtrip(crc32(payload));
    lemma_be32_roundtrip(klen as u32);
    lemma_be32_roundtrip(vlen as u32);
    lemma_be64_roundtrip(r.timestamp);
    let total = FIXED_HEADER_LEN as int + klen + vlen;
    assert(b.subrange(0, 4) =~= be32_bytes(crc32(payload)));
    assert(b.subrange(4, 12) =~= be64_bytes(r.timestamp));
    assert(b[12] == record_flags(r.tombstone));
    assert(b.subrange(13, 17) =~= be32_bytes(klen as u32));
    assert(b.subrange(17, 21) =~= be32_bytes(vlen as u32));
    assert(b.subrange(4, total as int) =~= payload);
    assert(b.subrange(21, 21 + klen) =~= r.key);
    assert(b.subrange(21 + klen, total as int) =~= r.value);
    let f = record_flags(r.tombstone);
    assert(f == 1u8 || f == 0u8);
    assert(f == 1u8 ==> f & 1u8 != 0) by (bit_vector);
    assert(f == 0u8 ==> f & 1u8 == 0) by (bit_vector);
}

/// A record appended to the bytes `data` of a segment reads back from its pointer: the
/// bytes from the old end, as long as its encoding, decode to the record.
pub proof fn lemma_append_reads_back(data: Seq<u8>, r: RecordView)
    requires
        record_encodable(r),
    ensures
        ({
            let all = data + record_bytes(r);
            let n = record_bytes(r).len();
            &&& all.subrange(data.len() as int, (data.len() + n) as int) == record_bytes(r)
            &&& parse_record(all.subrange(data.len() as int, (data.len() + n) as int)) == Some(Some((r, n)))
        }),
{
    let all = data + record_bytes(r);
    let n = record_bytes(r).len();
    assert(all.subrange(data.len() as int, (data.len() + n) as int) =~= record_bytes(r));
    lemma_record_roundtrip(r, Seq::empty());
    assert(record_bytes(r) + Seq::<u8>::empty() =~= record_bytes(r));
}

} // verus!
