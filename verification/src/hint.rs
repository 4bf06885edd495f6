use vstd::prelude::*;
use vstd::slice::{slice_subrange, slice_to_vec};
use vstd::string::StringExecFns;

use crate::codec::{
    be32_bytes, be32_value, be64_bytes, be64_value, crc32, crc32_of, extend_bytes, frame_checksummed,
    lemma_be32_roundtrip, lemma_be64_roundtrip, push_be32, push_be64, read_be32, read_be64,
};
use crate::error::Error;
use crate::storage::LogPointer;

verus! {

/// Length of a hint's fixed part after its checksum:
/// `timestamp(8) + key_size(4) + file_id(8) + offset(8) + len(4)`.
pub const HINT_HEADER_WITHOUT_CRC: usize = 8 + 4 + 8 + 8 + 4;

/// Length of a hint's fixed part, checksum included.
pub const HINT_HEADER_LEN: usize = 4 + HINT_HEADER_WITHOUT_CRC;

/// One entry of a hint segment: a key, when it was written, and where its record lives.
///
/// Hint segments hold the key-to-pointer map of a compacted segment without the
/// values, so that the key directory can be rebuilt without reading them. Only
/// live records get a hint.
#[derive(Debug, Clone)]
pub struct HintRecord {
    pub key: Vec<u8>,
    pub timestamp: u64,
    pub pointer: LogPointer,
}

/// A hint as a mathematical value.
pub ghost struct HintView {
    pub key: Seq<u8>,
    pub timestamp: u64,
    pub pointer: LogPointer,
}

impl View for HintRecord {
    type V = HintView;

    open spec fn view(&self) -> HintView {
        HintView { key: self.key@, timestamp: self.timestamp, pointer: self.pointer }
    }
}

/// The bytes that the checksum of a hint covers:
/// `[timestamp:8][key_size:4][file_id:8][offset:8][len:4][key]`, integers big-endian.
pub open spec fn hint_payload(h: HintView) -> Seq<u8> {
    be64_bytes(h.timestamp) + be32_bytes(h.key.len() as u32) + be64_bytes(h.pointer.file_id)
        + be64_bytes(h.pointer.offset) + be32_bytes(h.pointer.len) + h.key
}

/// The encoding of a hint: the big-endian CRC-32 of the payload, then the payload.
#[verifier::opaque]
pub open spec fn hint_bytes(h: HintView) -> Seq<u8> {
    be32_bytes(crc32(hint_payload(h))) + hint_payload(h)
}

/// The length of the hint at the front of `b`, as its header gives it.
pub open spec fn hint_total(b: Seq<u8>) -> int {
    HINT_HEADER_LEN as int + be32_value(b.subrange(12, 16)) as int
}

/// What reading one hint from the front of `b` gives when `crc` is the checksum computed
/// over the bytes after the stored one: `None` when `crc` differs from the stored checksum,
/// `Some(None)` when `b` ends before the hint does, and `Some(Some((h, n)))` when the first
/// `n` bytes hold hint `h`.
pub open spec fn parse_hint_checked(b: Seq<u8>, crc: u32) -> Option<Option<(HintView, nat)>> {
    if b.len() < HINT_HEADER_LEN {
        Some(None)
    } else {
        let total = hint_total(b);
        if b.len() < total {
            Some(None)
        } else if crc != be32_value(b.subrange(0, 4)) {
            None
        } else {
            Some(
                Some(
                    (
                        HintView {
                            timestamp: be64_value(b.subrange(4, 12)),
                            pointer: LogPointer {
                                file_id: be64_value(b.subrange(16, 24)),
                                offset: be64_value(b.subrange(24, 32)),
                                len: be32_value(b.subrange(32, 36)),
                            },
                            key: b.subrange(36, total),
                        },
                        total as nat,
                    ),
                ),
            )
        }
    }
}

/// What reading one hint from the front of `b` gives: as `parse_hint_checked`, with the
/// CRC-32 of the bytes between the stored checksum and the end of the hint.
pub open spec fn parse_hint(b: Seq<u8>) -> Option<Option<(HintView, nat)>> {
    parse_hint_checked(b, crc32(b.subrange(4, hint_total(b))))
}

/// Whether an executable decoding result is the one that `parse_hint` describes.
pub open spec fn hint_decoded_as(
    r: Result<Option<(HintRecord, usize)>, Error>,
    p: Option<Option<(HintView, nat)>>,
) -> bool {
    match p {
        None => r matches Err(Error::Corrupt(m)) && m@ == "hint crc mismatch"@,
        Some(None) => r == Ok::<Option<(HintRecord, usize)>, Error>(None),
        Some(Some((hv, n))) => r matches Ok(Some((h, m))) && h@ == hv && m == n,
    }
}

impl HintRecord {
    /// A hint for `key`, written at `timestamp`, whose record lives at `pointer`.
    pub fn new(key: Vec<u8>, timestamp: u64, pointer: LogPointer) -> (h: HintRecord)
        ensures
            h.key == key,
            h.timestamp == timestamp,
            h.pointer == pointer,
    {
        HintRecord { key, timestamp, pointer }
    }

    /// The bytes of this hint that its checksum covers.
    pub fn payload(&self) -> (out: Vec<u8>)
        ensures
            out@ == hint_payload(self@),
    {
        let key_len = self.key.len() as u32;
        let mut payload: Vec<u8> = Vec::new();
        push_be64(&mut payload, self.timestamp);
        push_be32(&mut payload, key_len);
        push_be64(&mut payload, self.pointer.file_id);
        push_be64(&mut payload, self.pointer.offset);
        push_be32(&mut payload, self.pointer.len);
        extend_bytes(&mut payload, self.key.as_slice());
        assert(payload@ =~= hint_payload(self@));
        payload
    }

    /// The bytes of this hint in the hint-segment format.
    pub fn encode(&self) -> (out: Vec<u8>)
        ensures
            out@ == hint_bytes(self@),
            ({
                let b = out@;
                let h = self@;
            &&& b.len() == 36 + h.key.len()
            &&& be32_value(b.subrange(0, 4)) == crc32(b.subrange(4, b.len() as int))
            &&& be64_value(b.subrange(4, 12)) == h.timestamp
            &&& be32_value(b.subrange(12, 16)) == h.key.len() as u32
            &&& be64_value(b.subrange(16, 24)) == h.pointer.file_id
            &&& be64_value(b.subrange(24, 32)) == h.pointer.offset
            &&& be32_value(b.subrange(32, 36)) == h.pointer.len
            &&& b.subrange(36, b.len() as int) == h.key
            }),
    {
        proof {
            lemma_hint_layout(self@);
        }
        let payload = self.payload();
        let crc = crc32_of(payload.as_slice());
        proof {
            reveal(hint_bytes);
        }
        frame_checksummed(crc, payload.as_slice())
    }

    /// The length of the hint at the front of `bytes`, if all of it is there.
    pub fn framed_len(bytes: &[u8]) -> (r: Option<usize>)
        ensures
            r == (if bytes@.len() < HINT_HEADER_LEN || bytes@.len() < hint_total(bytes@) {
                None::<usize>
            } else {
                Some(hint_total(bytes@) as usize)
            }),
            r matches Some(t) ==> t == hint_total(bytes@) && HINT_HEADER_LEN <= t <= bytes@.len(),
    {
        if bytes.len() < HINT_HEADER_LEN {
            return None;
        }
        let key_len = read_be32(bytes, 12) as usize;
        if bytes.len() - HINT_HEADER_LEN < key_len {
            return None;
        }
        Some(HINT_HEADER_LEN + key_len)
    }

    /// Reads one hint from the front of `bytes`, given the checksum `computed` over the
    /// bytes between the stored checksum and the end of the hint.
    pub fn decode_checked(bytes: &[u8], computed: u32) -> (r: Result<Option<(HintRecord, usize)>, Error>)
        ensures
            hint_decoded_as(r, parse_hint_checked(bytes@, computed)),
    {
        let total = match Self::framed_len(bytes) {
            None => return Ok(None),
            Some(t) => t,
        };
        let stored_crc = read_be32(bytes, 0);
        if computed != stored_crc {
            return Err(Error::Corrupt(String::from_str("hint crc mismatch")));
        }
        let timestamp = read_be64(bytes, 4);
        let file_id = read_be64(bytes, 16);
        let offset = read_be64(bytes, 24);
        let len = read_be32(bytes, 32);
        let key = slice_to_vec(slice_subrange(bytes, HINT_HEADER_LEN, total));
        Ok(Some((HintRecord { key, timestamp, pointer: LogPointer { file_id, offset, len } }, total)))
    }

    /// Reads one hint from the front of `reader` and moves `reader` past the bytes it read.
    ///
    /// Returns `Ok(None)` when the bytes end before a whole hint, having read them all, and
    /// an error when the checksum does not match, having read the whole hint.
    pub fn decode_from_reader(reader: &mut &[u8]) -> (r: Result<Option<HintRecord>, Error>)
        ensures
            match parse_hint(old(reader)@) {
                None => {
                    &&& r matches Err(Error::Corrupt(m)) && m@ == "hint crc mismatch"@
                    &&& final(reader)@ == old(reader)@.subrange(hint_total(old(reader)@), old(reader)@.len() as int)
                },
                Some(None) => {
                    &&& r == Ok::<Option<HintRecord>, Error>(None)
                    &&& final(reader)@.len() == 0
                },
                Some(Some((hv, n))) => {
                    &&& r matches Ok(Some(h)) && h@ == hv
                    &&& final(reader)@ == old(reader)@.subrange(n as int, old(reader)@.len() as int)
                },
            },
    {
        let bytes: &[u8] = *reader;
        match Self::framed_len(bytes) {
            None => {
                *reader = slice_subrange(bytes, bytes.len(), bytes.len());
                Ok(None)
            },
            Some(total) => {
                let computed = crc32_of(slice_subrange(bytes, 4, total));
                let r = Self::decode_checked(bytes, computed);
                *reader = slice_subrange(bytes, total, bytes.len());
                match r {
                    Ok(Some((hint, _))) => Ok(Some(hint)),
                    Ok(None) => Ok(None),
                    Err(e) => Err(e),
                }
            },
        }
    }
}

/// Whether the key of a hint fits in the format's 32-bit length field.
pub open spec fn hint_encodable(h: HintView) -> bool {
    h.key.len() <= u32::MAX
}

/// The layout of an encoded hint: the big-endian checksum of the rest, the time stamp,
/// the key length (truncated to 32 bits), the pointer's segment id, offset and length, then
/// the key.
pub proof fn lemma_hint_layout(h: HintView)
    ensures
        ({
            let b = hint_bytes(h);
            &&& b.len() == 36 + h.key.len()
            &&& be32_value(b.subrange(0, 4)) == crc32(b.subrange(4, b.len() as int))
            &&& be64_value(b.subrange(4, 12)) == h.timestamp
            &&& be32_value(b.subrange(12, 16)) == h.key.len() as u32
            &&& be64_value(b.subrange(16, 24)) == h.pointer.file_id
            &&& be64_value(b.subrange(24, 32)) == h.pointer.offset
            &&& be32_value(b.subrange(32, 36)) == h.pointer.len
            &&& b.subrange(36, b.len() as int) == h.key
        }),
{
    reveal(hint_bytes);
    let payload = hint_payload(h);
    let b = hint_bytes(h);
    lemma_be32_roundtrip(crc32(payload));
    lemma_be32_roundtrip(h.key.len() as u32);
    lemma_be32_roundtrip(h.pointer.len);
    lemma_be64_roundtrip(h.timestamp);
    lemma_be64_roundtrip(h.pointer.file_id);
    lemma_be64_roundtrip(h.pointer.offset);
    assert(b.subrange(0, 4) =~= be32_bytes(crc32(payload)));
    assert(b.subrange(4, b.len() as int) =~= payload);
    assert(b.subrange(4, 12) =~= be64_bytes(h.timestamp));
    assert(b.subrange(12, 16) =~= be32_bytes(h.key.len() as u32));
    assert(b.subrange(16, 24) =~= be64_bytes(h.pointer.file_id));
    assert(b.subrange(24, 32) =~= be64_bytes(h.pointer.offset));
    assert(b.subrange(32, 36) =~= be32_bytes(h.pointer.len));
    assert(b.subrange(36, b.len() as int) =~= h.key);
}

/// The encoding of a hint is as long as its fixed header and key together.
pub proof fn lemma_hint_bytes_len(h: HintView)
    ensures
        hint_bytes(h).len() == HINT_HEADER_LEN + h.key.len(),
{
    reveal(hint_bytes);
    lemma_be32_roundtrip(0);
    lemma_be64_roundtrip(0);
}

/// Decoding the encoding of a hint, whatever follows it, gives the hint back together
/// with the length of its encoding.
pub proof fn lemma_hint_roundtrip(h: HintView, rest: Seq<u8>)
    requires
        hint_encodable(h),
    ensures
        parse_hint(hint_bytes(h) + rest) == Some(Some((h, hint_bytes(h).len()))),
{
    reveal(hint_bytes);
    let payload = hint_payload(h);
    let b = hint_bytes(h) + rest;
    let klen = h.key.len() as int;
    lemma_hint_bytes_len(h);
    lemma_be32_roundtrip(crc32(payload));
    lemma_be32_roundtrip(klen as u32);
    lemma_be32_roundtrip(h.pointer.len);
    lemma_be64_roundtrip(h.timestamp);
    lemma_be64_roundtrip(h.pointer.file_id);
    lemma_be64_roundtrip(h.pointer.offset);
    let total = HINT_HEADER_LEN as int + klen;
    assert(b.subrange(0, 4) =~= be32_bytes(crc32(payload)));
    assert(b.subrange(4, 12) =~= be64_bytes(h.timestamp));
    assert(b.subrange(12, 16) =~= be32_bytes(klen as u32));
    assert(b.subrange(16, 24) =~= be64_bytes(h.pointer.file_id));
    assert(b.subrange(24, 32) =~= be64_bytes(h.pointer.offset));
    assert(b.subrange(32, 36) =~= be32_bytes(h.pointer.len));
    assert(b.subrange(4, total) =~= payload);
    assert(b.subrange(36, total) =~= h.key);
}

} // verus!
