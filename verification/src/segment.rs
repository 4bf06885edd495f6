use vstd::prelude::*;
use vstd::string::StringExecFns;

use crate::error::Error;
use crate::codec::extend_bytes;
use crate::hint::{hint_bytes, hint_encodable, lemma_hint_bytes_len, lemma_hint_roundtrip, parse_hint, HintRecord, HintView};
use crate::record::{
    lemma_record_bytes_len, lemma_record_roundtrip, parse_record, record_bytes, Record, RecordView,
    FIXED_HEADER_LEN,
};
use crate::storage::{entries_view, scan_entry_of, scan_view, LogPointer, ScanEntry, ScanEntryView};

verus! {

/// `front` followed by the entries of a successful parse; a failed parse stays failed.
pub open spec fn prepend<T>(front: Seq<T>, o: Option<Seq<T>>) -> Option<Seq<T>> {
    match o {
        None => None,
        Some(t) => Some(front + t),
    }
}

/// The records of a data segment with id `file_id`, decoded from `rest`, which starts at
/// `offset` in the segment, until the bytes run out or end inside a record; `None` when a
/// checksum does not match first.
pub open spec fn parse_segment_from(file_id: u64, rest: Seq<u8>, offset: nat) -> Option<
    Seq<(LogPointer, RecordView)>,
>
    decreases rest.len(),
{
    match parse_record(rest) {
        None => None,
        Some(None) => Some(Seq::empty()),
        Some(Some((r, n))) => if 0 < n <= rest.len() {
            prepend(
                seq![(LogPointer { file_id, offset: offset as u64, len: n as u32 }, r)],
                parse_segment_from(file_id, rest.subrange(n as int, rest.len() as int), offset + n),
            )
        } else {
            Some(Seq::empty())
        },
    }
}

/// The records of the data segment `file_id` whose bytes are `b`, each with its pointer.
pub open spec fn parse_segment(file_id: u64, b: Seq<u8>) -> Option<Seq<(LogPointer, RecordView)>> {
    parse_segment_from(file_id, b, 0)
}

/// The hints decoded from `rest` until the bytes run out; `None` when a checksum does
/// not match or the bytes end inside a hint, so that only a whole hint segment is read.
pub open spec fn parse_hints(rest: Seq<u8>) -> Option<Seq<HintView>>
    decreases rest.len(),
{
    match parse_hint(rest) {
        None => None,
        Some(None) => if rest.len() == 0 {
            Some(Seq::empty())
        } else {
            None
        },
        Some(Some((h, n))) => if 0 < n <= rest.len() {
            prepend(seq![h], parse_hints(rest.subrange(n as int, rest.len() as int)))
        } else {
            Some(Seq::empty())
        },
    }
}

/// Why reading the hint segment `rest` fails, where it does: a checksum that does not
/// match, or bytes that end inside a hint.
pub open spec fn hints_error(rest: Seq<u8>) -> Seq<char>
    decreases rest.len(),
{
    match parse_hint(rest) {
        None => "hint crc mismatch"@,
        Some(Some((h, n))) => if 0 < n <= rest.len() {
            hints_error(rest.subrange(n as int, rest.len() as int))
        } else {
            "truncated hint"@
        },
        Some(None) => "truncated hint"@,
    }
}

/// The scan entry that a hint stands for: hints only describe live records.
pub open spec fn hint_scan_entry(h: HintView) -> ScanEntryView {
    ScanEntryView { key: h.key, pointer: h.pointer, timestamp: h.timestamp, tombstone: false }
}

/// What scanning one segment for keys gives: the hints when a hint segment is present
/// and decodes whole, otherwise (no hint segment, a checksum that does not match, or a
/// hint segment cut off inside a hint) the scan entries of the data segment.
pub open spec fn segment_key_scan(file_id: u64, data: Seq<u8>, hint: Option<Seq<u8>>) -> Option<
    Seq<ScanEntryView>,
> {
    if hint is Some && parse_hints(hint->0) is Some {
        Some(parse_hints(hint->0)->0.map_values(|h: HintView| hint_scan_entry(h)))
    } else {
        match parse_segment(file_id, data) {
            None => None,
            Some(es) => Some(es.map_values(|e: (LogPointer, RecordView)| scan_entry_of(e))),
        }
    }
}

/// The bytes of an optional buffer.
pub open spec fn opt_bytes(b: Option<&[u8]>) -> Option<Seq<u8>> {
    match b {
        None => None,
        Some(s) => Some(s@),
    }
}

/// Decodes every record of the data segment `file_id`, with its pointer, in order.
///
/// Stops at the end of the bytes or where they end inside a record; fails when a
/// checksum does not match.
pub fn scan_segment(file_id: u64, bytes: &[u8]) -> (r: Result<Vec<(LogPointer, Record)>, Error>)
    ensures
        match parse_segment(file_id, bytes@) {
            None => r matches Err(Error::Corrupt(m)) && m@ == "crc mismatch"@,
            Some(es) => r matches Ok(v) && entries_view(v@) == es,
        },
{
    let mut out: Vec<(LogPointer, Record)> = Vec::new();
    let mut offset: usize = 0;
    let mut reader: &[u8] = bytes;
    let len = bytes.len();
    assert(bytes@.subrange(0, bytes@.len() as int) =~= bytes@);
    assert(entries_view(out@) =~= Seq::<(LogPointer, RecordView)>::empty());
    loop
        invariant
            len == bytes@.len(),
            offset <= bytes@.len(),
            reader@ == bytes@.subrange(offset as int, bytes@.len() as int),
            parse_segment(file_id, bytes@) == prepend(
                entries_view(out@),
                parse_segment_from(
                    file_id,
                    bytes@.subrange(offset as int, bytes@.len() as int),
                    offset as nat,
                ),
            ),
        decreases bytes@.len() - offset,
    {
        let ghost rest = reader@;
        match Record::decode_from_reader(&mut reader) {
            Err(e) => {
                return Err(e);
            },
            Ok(None) => {
                assert(entries_view(out@) + Seq::empty() =~= entries_view(out@));
                return Ok(out);
            },
            Ok(Some((record, n))) => {
                proof {
                    assert(rest.len() >= FIXED_HEADER_LEN && rest.len() >= crate::record::record_total(rest));
                    assert(n == crate::record::record_total(rest));
                }
                let ghost before = entries_view(out@);
                let ghost e = (LogPointer { file_id, offset: offset as u64, len: n as u32 }, record@);
                out.push((LogPointer { file_id, offset: offset as u64, len: n as u32 }, record));
                proof {
                    assert(entries_view(out@) =~= before + seq![e]);
                    assert(rest.subrange(n as int, rest.len() as int) =~= bytes@.subrange(
                        offset + n,
                        bytes@.len() as int,
                    ));
                    let tail = parse_segment_from(
                        file_id,
                        bytes@.subrange(offset + n, bytes@.len() as int),
                        (offset + n) as nat,
                    );
                    if tail is Some {
                        assert(before + (seq![e] + tail->0) =~= (before + seq![e]) + tail->0);
                    }
                }
                offset = offset + n;
            },
        }
    }
}

/// Decodes every hint of a hint segment, in order, as the scan entries they stand for.
///
/// Fails when a checksum does not match or the bytes end inside a hint: a hint segment
/// is used whole or not at all.
pub fn scan_hint_segment(bytes: &[u8]) -> (r: Result<Vec<ScanEntry>, Error>)
    ensures
        match parse_hints(bytes@) {
            None => r matches Err(Error::Corrupt(m)) && m@ == hints_error(bytes@),
            Some(hs) => r matches Ok(v) && scan_view(v@) == hs.map_values(
                |h: HintView| hint_scan_entry(h),
            ),
        },
{
    let mut out: Vec<ScanEntry> = Vec::new();
    let ghost mut hints: Seq<HintView> = Seq::empty();
    let mut reader: &[u8] = bytes;
    loop
        invariant
            parse_hints(bytes@) == prepend(hints, parse_hints(reader@)),
            hints_error(bytes@) == hints_error(reader@),
            scan_view(out@) == hints.map_values(|h: HintView| hint_scan_entry(h)),
        decreases reader@.len(),
    {
        let ghost rest = reader@;
        let before_len = reader.len();
        match HintRecord::decode_from_reader(&mut reader) {
            Err(e) => {
                return Err(e);
            },
            Ok(None) => {
                if before_len > 0 {
                    return Err(Error::Corrupt(String::from_str("truncated hint")));
                }
                assert(hints + Seq::empty() =~= hints);
                return Ok(out);
            },
            Ok(Some(hint)) => {
                let ghost before = hints;
                let ghost hv = hint@;
                let ghost out0 = out@;
                out.push(
                    ScanEntry {
                        key: hint.key,
                        pointer: hint.pointer,
                        timestamp: hint.timestamp,
                        tombstone: false,
                    },
                );
                proof {
                    hints = before.push(hv);
                    assert(scan_view(out0) == before.map_values(|h: HintView| hint_scan_entry(h)));
                    assert(out@.len() == out0.len() + 1);
                    assert(out@[out0.len() as int]@ == hint_scan_entry(hv));
                    assert(scan_view(out0).len() == out0.len());
                    assert(before.map_values(|h: HintView| hint_scan_entry(h)).len() == before.len());
                    assert(hints.len() == before.len() + 1);
                    assert(hints.len() == out@.len());
                    assert forall|j: int| 0 <= j < out@.len() implies #[trigger] scan_view(out@)[j]
                        == hints.map_values(|h: HintView| hint_scan_entry(h))[j] by {
                        if j < out0.len() {
                            assert(out@[j] == out0[j]);
                            assert(scan_view(out0)[j] == out0[j]@);
                        }
                    }
                    assert(scan_view(out@) =~= hints.map_values(|h: HintView| hint_scan_entry(h)));
                    let tail = parse_hints(reader@);
                    if tail is Some {
                        assert(before + (seq![hv] + tail->0) =~= before.push(hv) + tail->0);
                    }
                }
            },
        }
    }
}

/// Decodes every record of the data segment `file_id` as the scan entry that describes it.
pub fn scan_data_segment(file_id: u64, bytes: &[u8]) -> (r: Result<Vec<ScanEntry>, Error>)
    ensures
        match parse_segment(file_id, bytes@) {
            None => r matches Err(Error::Corrupt(m)) && m@ == "crc mismatch"@,
            Some(es) => r matches Ok(v) && scan_view(v@) == es.map_values(
                |e: (LogPointer, RecordView)| scan_entry_of(e),
            ),
        },
{
    let records = scan_segment(file_id, bytes)?;
    let mut out: Vec<ScanEntry> = Vec::new();
    let mut i: usize = 0;
    while i < records.len()
        invariant
            i <= records@.len(),
            out@.len() == i,
            forall|j: int|
                0 <= j < i ==> #[trigger] out@[j]@ == scan_entry_of((records@[j].0, records@[j].1@)),
        decreases records@.len() - i,
    {
        let record = &records[i].1;
        out.push(
            ScanEntry {
                key: record.key.clone(),
                pointer: records[i].0,
                timestamp: record.timestamp,
                tombstone: record.tombstone,
            },
        );
        i = i + 1;
    }
    assert(scan_view(out@) =~= entries_view(records@).map_values(
        |e: (LogPointer, RecordView)| scan_entry_of(e),
    ));
    Ok(out)
}

/// Scans one segment for keys: from its hint segment when there is one that decodes
/// whole, otherwise from its data.
pub fn scan_segment_keys(file_id: u64, data: &[u8], hint: Option<&[u8]>) -> (r: Result<
    Vec<ScanEntry>,
    Error,
>)
    ensures
        match segment_key_scan(file_id, data@, opt_bytes(hint)) {
            None => r matches Err(Error::Corrupt(m)) && m@ == "crc mismatch"@,
            Some(es) => r matches Ok(v) && scan_view(v@) == es,
        },
{
    match usable_hints(hint) {
        Some(entries) => Ok(entries),
        None => scan_data_segment(file_id, data),
    }
}

/// The scan entries of a segment's hint segment, when there is one and it decodes whole;
/// `None` when the data segment must be scanned instead.
pub fn usable_hints(hint: Option<&[u8]>) -> (r: Option<Vec<ScanEntry>>)
    ensures
        match opt_bytes(hint) {
            Some(h) => match parse_hints(h) {
                Some(hs) => r matches Some(v) && scan_view(v@) == hs.map_values(
                    |x: HintView| hint_scan_entry(x),
                ),
                None => r is None,
            },
            None => r is None,
        },
{
    match hint {
        Some(h) => match scan_hint_segment(h) {
            Ok(entries) => Some(entries),
            Err(_) => None,
        },
        None => None,
    }
}

/// Whether a record can be stored in a segment: its encoding fits the 32-bit length of a pointer.
pub open spec fn storable(r: RecordView) -> bool {
    FIXED_HEADER_LEN + r.key.len() + r.value.len() <= u32::MAX
}

/// The bytes of a segment holding `rs`, in order.
pub open spec fn encode_all(rs: Seq<RecordView>) -> Seq<u8>
    decreases rs.len(),
{
    if rs.len() == 0 {
        Seq::empty()
    } else {
        record_bytes(rs[0]) + encode_all(rs.subrange(1, rs.len() as int))
    }
}

/// The pointer of each of `rs` in segment `file_id` when they are stored from `offset` on.
pub open spec fn layout_from(file_id: u64, rs: Seq<RecordView>, offset: nat) -> Seq<
    (LogPointer, RecordView),
>
    decreases rs.len(),
{
    if rs.len() == 0 {
        Seq::empty()
    } else {
        let n = record_bytes(rs[0]).len();
        seq![(LogPointer { file_id, offset: offset as u64, len: n as u32 }, rs[0])] + layout_from(
            file_id,
            rs.subrange(1, rs.len() as int),
            offset + n,
        )
    }
}

/// The entries of segment `file_id` holding `rs`, each with its pointer.
pub open spec fn layout(file_id: u64, rs: Seq<RecordView>) -> Seq<(LogPointer, RecordView)> {
    layout_from(file_id, rs, 0)
}

/// The bytes of a hint segment holding `hs`, in order.
pub open spec fn encode_all_hints(hs: Seq<HintView>) -> Seq<u8>
    decreases hs.len(),
{
    if hs.len() == 0 {
        Seq::empty()
    } else {
        hint_bytes(hs[0]) + encode_all_hints(hs.subrange(1, hs.len() as int))
    }
}

/// The hints of a compacted segment: each record's key and time with its pointer.
pub open spec fn hints_for(entries: Seq<(LogPointer, RecordView)>) -> Seq<HintView> {
    entries.map_values(
        |e: (LogPointer, RecordView)| HintView { key: e.1.key, timestamp: e.1.timestamp, pointer: e.0 },
    )
}

/// The length of the bytes of a segment is the sum of the lengths of its records' encodings.
pub proof fn lemma_encode_all_push(rs: Seq<RecordView>, r: RecordView)
    ensures
        encode_all(rs.push(r)) == encode_all(rs) + record_bytes(r),
    decreases rs.len(),
{
    if rs.len() == 0 {
        let one = rs.push(r);
        assert(one.subrange(1, 1) =~= Seq::<RecordView>::empty());
        assert(one[0] == r);
        assert(encode_all(one.subrange(1, 1)) == Seq::<u8>::empty());
        assert(encode_all(rs) == Seq::<u8>::empty());
        assert(encode_all(one) == record_bytes(r) + encode_all(one.subrange(1, 1)));
        assert(encode_all(one) =~= encode_all(rs) + record_bytes(r));
    } else {
        let tail = rs.subrange(1, rs.len() as int);
        assert(rs.push(r).subrange(1, rs.len() as int + 1) =~= tail.push(r));
        lemma_encode_all_push(tail, r);
        assert(encode_all(rs.push(r)) =~= encode_all(rs) + record_bytes(r));
    }
}

/// Storing one more record adds one entry, right after the others.
pub proof fn lemma_layout_push(file_id: u64, rs: Seq<RecordView>, r: RecordView, offset: nat)
    ensures
        layout_from(file_id, rs.push(r), offset) == layout_from(file_id, rs, offset).push(
            (
                LogPointer {
                    file_id,
                    offset: (offset + encode_all(rs).len()) as u64,
                    len: record_bytes(r).len() as u32,
                },
                r,
            ),
        ),
    decreases rs.len(),
{
    if rs.len() == 0 {
        let one = rs.push(r);
        assert(one.subrange(1, 1) =~= Seq::<RecordView>::empty());
        assert(one[0] == r);
        assert(encode_all(rs) == Seq::<u8>::empty());
        let n = record_bytes(r).len();
        assert(layout_from(file_id, one.subrange(1, 1), offset + n) == Seq::<(LogPointer, RecordView)>::empty());
        assert(layout_from(file_id, rs, offset) == Seq::<(LogPointer, RecordView)>::empty());
        assert(layout_from(file_id, rs.push(r), offset) =~= layout_from(file_id, rs, offset).push(
            (
                LogPointer {
                    file_id,
                    offset: (offset + encode_all(rs).len()) as u64,
                    len: record_bytes(r).len() as u32,
                },
                r,
            ),
        ));
    } else {
        let tail = rs.subrange(1, rs.len() as int);
        let n = record_bytes(rs[0]).len();
        assert(rs.push(r).subrange(1, rs.len() as int + 1) =~= tail.push(r));
        lemma_layout_push(file_id, tail, r, offset + n);
        assert(layout_from(file_id, rs.push(r), offset) =~= layout_from(file_id, rs, offset).push(
            (
                LogPointer {
                    file_id,
                    offset: (offset + encode_all(rs).len()) as u64,
                    len: record_bytes(r).len() as u32,
                },
                r,
            ),
        ));
    }
}

/// A segment holds as many entries as records.
pub proof fn lemma_layout_len(file_id: u64, rs: Seq<RecordView>, offset: nat)
    ensures
        layout_from(file_id, rs, offset).len() == rs.len(),
        forall|i: int| 0 <= i < rs.len() ==> (#[trigger] layout_from(file_id, rs, offset)[i]).1 == rs[i],
    decreases rs.len(),
{
    if rs.len() > 0 {
        let tail = rs.subrange(1, rs.len() as int);
        lemma_layout_len(file_id, tail, offset + record_bytes(rs[0]).len());
        assert forall|i: int| 0 <= i < rs.len() implies (#[trigger] layout_from(file_id, rs, offset)[i]).1 == rs[i] by {
            if i > 0 {
                assert(layout_from(file_id, rs, offset)[i] == layout_from(file_id, tail, offset + record_bytes(rs[0]).len())[i - 1]);
            }
        }
    }
}

/// Scanning the bytes of a segment of storable records finds each record, in order,
/// under the pointer it was stored at.
pub proof fn lemma_parse_encoded(file_id: u64, rs: Seq<RecordView>, offset: nat)
    requires
        forall|i: int| 0 <= i < rs.len() ==> storable(#[trigger] rs[i]),
        offset + encode_all(rs).len() <= u64::MAX,
    ensures
        parse_segment_from(file_id, encode_all(rs), offset) == Some(layout_from(file_id, rs, offset)),
    decreases rs.len(),
{
    if rs.len() == 0 {
    } else {
        let r = rs[0];
        let tail = rs.subrange(1, rs.len() as int);
        assert(storable(r));
        lemma_record_bytes_len(r);
        lemma_record_roundtrip(r, encode_all(tail));
        let n = record_bytes(r).len();
        let b = encode_all(rs);
        assert(b.subrange(n as int, b.len() as int) =~= encode_all(tail));
        assert forall|i: int| 0 <= i < tail.len() implies storable(#[trigger] tail[i]) by {
            assert(tail[i] == rs[i + 1]);
        }
        lemma_parse_encoded(file_id, tail, offset + n);
    }
}

/// Where each record of a segment stored from `offset` lies, and that its bytes are there.
pub proof fn lemma_layout_props(file_id: u64, rs: Seq<RecordView>, offset: nat)
    requires
        forall|i: int| 0 <= i < rs.len() ==> storable(#[trigger] rs[i]),
        offset + encode_all(rs).len() <= u64::MAX,
    ensures
        layout_from(file_id, rs, offset).len() == rs.len(),
        forall|i: int|
            0 <= i < rs.len() ==> {
                let e = #[trigger] layout_from(file_id, rs, offset)[i];
                &&& e.0.file_id == file_id
                &&& e.1 == rs[i]
                &&& e.0.len == record_bytes(rs[i]).len()
                &&& offset <= e.0.offset
                &&& e.0.offset + e.0.len <= offset + encode_all(rs).len()
                &&& encode_all(rs).subrange(e.0.offset - offset, e.0.offset - offset + e.0.len)
                    == record_bytes(rs[i])
            },
        forall|i: int, j: int|
            0 <= i < j < rs.len() ==> (#[trigger] layout_from(file_id, rs, offset)[i]).0.offset
                + layout_from(file_id, rs, offset)[i].0.len <= (#[trigger] layout_from(
                file_id,
                rs,
                offset,
            )[j]).0.offset,
    decreases rs.len(),
{
    if rs.len() > 0 {
        let r = rs[0];
        let tail = rs.subrange(1, rs.len() as int);
        let n = record_bytes(r).len();
        assert(storable(r));
        lemma_record_bytes_len(r);
        assert forall|i: int| 0 <= i < tail.len() implies storable(#[trigger] tail[i]) by {
            assert(tail[i] == rs[i + 1]);
        }
        lemma_layout_props(file_id, tail, offset + n);
        let l = layout_from(file_id, rs, offset);
        let lt = layout_from(file_id, tail, offset + n);
        let b = encode_all(rs);
        let bt = encode_all(tail);
        assert(b == record_bytes(r) + bt);
        assert(l == seq![(LogPointer { file_id, offset: offset as u64, len: n as u32 }, r)] + lt);
        assert forall|i: int| 0 <= i < rs.len() implies {
            let e = #[trigger] l[i];
            &&& e.0.file_id == file_id
            &&& e.1 == rs[i]
            &&& e.0.len == record_bytes(rs[i]).len()
            &&& offset <= e.0.offset
            &&& e.0.offset + e.0.len <= offset + b.len()
            &&& b.subrange(e.0.offset - offset, e.0.offset - offset + e.0.len) == record_bytes(rs[i])
        } by {
            if i == 0 {
                assert(b.subrange(0, n as int) =~= record_bytes(r));
            } else {
                let e = lt[i - 1];
                assert(l[i] == e);
                assert(tail[i - 1] == rs[i]);
                assert(bt.subrange(e.0.offset - (offset + n), e.0.offset - (offset + n) + e.0.len)
                    == record_bytes(rs[i]));
                assert(b.subrange(e.0.offset - offset, e.0.offset - offset + e.0.len) =~= bt.subrange(
                    e.0.offset - (offset + n),
                    e.0.offset - (offset + n) + e.0.len,
                ));
            }
        }
        assert forall|i: int, j: int| 0 <= i < j < rs.len() implies (#[trigger] l[i]).0.offset
            + l[i].0.len <= (#[trigger] l[j]).0.offset by {
            if i == 0 {
                assert(l[j] == lt[j - 1]);
            } else {
                assert(l[i] == lt[i - 1]);
                assert(l[j] == lt[j - 1]);
            }
        }
    }
}

/// Rebuilding from the hint segment of a compacted segment of live records gives the
/// same scan entries as reading the records of the segment itself.
pub proof fn lemma_hints_match_data(file_id: u64, rs: Seq<RecordView>)
    requires
        forall|i: int| 0 <= i < rs.len() ==> storable(#[trigger] rs[i]) && !rs[i].tombstone,
        encode_all(rs).len() <= u64::MAX,
    ensures
        segment_key_scan(file_id, encode_all(rs), Some(encode_all_hints(hints_for(layout(file_id, rs)))))
            == segment_key_scan(file_id, encode_all(rs), None),
        segment_key_scan(file_id, encode_all(rs), None) == Some(
            layout(file_id, rs).map_values(|e: (LogPointer, RecordView)| scan_entry_of(e)),
        ),
{
    lemma_parse_encoded(file_id, rs, 0);
    lemma_layout_props(file_id, rs, 0);
    let le = layout(file_id, rs);
    let hs = hints_for(le);
    assert forall|i: int| 0 <= i < hs.len() implies crate::hint::hint_encodable(#[trigger] hs[i]) by {
        assert(hs[i].key == le[i].1.key);
        assert(le[i].1 == rs[i]);
        assert(storable(rs[i]));
    }
    lemma_parse_hints_encoded(hs);
    let a = hs.map_values(|x: HintView| hint_scan_entry(x));
    let b = le.map_values(|e: (LogPointer, RecordView)| scan_entry_of(e));
    assert forall|i: int| 0 <= i < le.len() implies #[trigger] a[i] == b[i] by {
        assert(le[i].1 == rs[i]);
        assert(!rs[i].tombstone);
    }
    assert(a =~= b);
}

/// Scanning a hint segment of encodable hints finds each hint, in order.
#[verifier::rlimit(50)]
pub proof fn lemma_parse_hints_encoded(hs: Seq<HintView>)
    requires
        forall|i: int| 0 <= i < hs.len() ==> hint_encodable(#[trigger] hs[i]),
    ensures
        parse_hints(encode_all_hints(hs)) == Some(hs),
    decreases hs.len(),
{
    if hs.len() == 0 {
    } else {
        let h = hs[0];
        let tail = hs.subrange(1, hs.len() as int);
        assert(hint_encodable(h));
        lemma_hint_bytes_len(h);
        lemma_hint_roundtrip(h, encode_all_hints(tail));
        let n = hint_bytes(h).len();
        let b = encode_all_hints(hs);
        assert(b == hint_bytes(h) + encode_all_hints(tail));
        assert(b.subrange(n as int, b.len() as int) =~= encode_all_hints(tail));
        assert forall|i: int| 0 <= i < tail.len() implies hint_encodable(#[trigger] tail[i]) by {
            assert(tail[i] == hs[i + 1]);
        }
        lemma_parse_hints_encoded(tail);
        assert(seq![h] + tail =~= hs);
    }
}

/// Appending the encoding of one more hint.
pub proof fn lemma_encode_all_hints_push(hs: Seq<HintView>, h: HintView)
    ensures
        encode_all_hints(hs.push(h)) == encode_all_hints(hs) + hint_bytes(h),
    decreases hs.len(),
{
    if hs.len() == 0 {
        let one = hs.push(h);
        assert(one.subrange(1, 1) =~= Seq::<HintView>::empty());
        assert(one[0] == h);
        assert(encode_all_hints(one.subrange(1, 1)) == Seq::<u8>::empty());
        assert(encode_all_hints(hs) == Seq::<u8>::empty());
        assert(encode_all_hints(one) == hint_bytes(h) + encode_all_hints(one.subrange(1, 1)));
        assert(encode_all_hints(one) =~= encode_all_hints(hs) + hint_bytes(h));
    } else {
        let tail = hs.subrange(1, hs.len() as int);
        assert(hs.push(h).subrange(1, hs.len() as int + 1) =~= tail.push(h));
        lemma_encode_all_hints_push(tail, h);
        assert(encode_all_hints(hs.push(h)) =~= encode_all_hints(hs) + hint_bytes(h));
    }
}

/// Lays out `records` as the data segment `file_id`: their encodings one after the
/// other, and the pointer of each.
pub fn encode_segment(file_id: u64, records: &[Record]) -> (r: (Vec<u8>, Vec<LogPointer>))
    ensures
        r.0@ == encode_all(records@.map_values(|x: Record| x@)),
        r.1@ == layout(file_id, records@.map_values(|x: Record| x@)).map_values(
            |e: (LogPointer, RecordView)| e.0,
        ),
{
    let ghost rv = records@.map_values(|x: Record| x@);
    let mut data: Vec<u8> = Vec::new();
    let mut pointers: Vec<LogPointer> = Vec::new();
    let mut i: usize = 0;
    while i < records.len()
        invariant
            i <= records@.len(),
            rv == records@.map_values(|x: Record| x@),
            data@ == encode_all(rv.subrange(0, i as int)),
            pointers@ == layout(file_id, rv.subrange(0, i as int)).map_values(
                |e: (LogPointer, RecordView)| e.0,
            ),
        decreases records@.len() - i,
    {
        let bytes = records[i].encode();
        let offset = data.len() as u64;
        proof {
            assert(rv.subrange(0, i + 1) =~= rv.subrange(0, i as int).push(rv[i as int]));
            lemma_encode_all_push(rv.subrange(0, i as int), rv[i as int]);
            lemma_layout_push(file_id, rv.subrange(0, i as int), rv[i as int], 0);
        }
        pointers.push(LogPointer { file_id, offset, len: bytes.len() as u32 });
        extend_bytes(&mut data, bytes.as_slice());
        proof {
            let before = layout(file_id, rv.subrange(0, i as int));
            assert(pointers@ =~= layout(file_id, rv.subrange(0, i + 1)).map_values(
                |e: (LogPointer, RecordView)| e.0,
            ));
        }
        i = i + 1;
    }
    assert(rv.subrange(0, i as int) =~= rv);
    (data, pointers)
}

/// The hints of the first `n` records, each with its pointer.
pub open spec fn hints_of(records: Seq<Record>, pointers: Seq<LogPointer>, n: nat) -> Seq<HintView> {
    Seq::new(
        n,
        |i: int| HintView { key: records[i].key@, timestamp: records[i].timestamp, pointer: pointers[i] },
    )
}

/// The hint segment of a compacted segment: one hint per record, with its pointer, for as
/// many records as there are pointers.
pub fn encode_hints(records: &[Record], pointers: &[LogPointer]) -> (out: Vec<u8>)
    ensures
        out@ == encode_all_hints(
            hints_of(
                records@,
                pointers@,
                if records@.len() <= pointers@.len() {
                    records@.len()
                } else {
                    pointers@.len()
                },
            ),
        ),
{
    let n: usize = if records.len() <= pointers.len() {
        records.len()
    } else {
        pointers.len()
    };
    let ghost hs = hints_of(records@, pointers@, n as nat);
    let mut out: Vec<u8> = Vec::new();
    let mut i: usize = 0;
    while i < n
        invariant
            i <= n,
            n <= records@.len(),
            n <= pointers@.len(),
            hs == hints_of(records@, pointers@, n as nat),
            out@ == encode_all_hints(hs.subrange(0, i as int)),
        decreases n - i,
    {
        let hint = HintRecord::new(records[i].key.clone(), records[i].timestamp, pointers[i]);
        let bytes = hint.encode();
        proof {
            assert(hs.subrange(0, i + 1) =~= hs.subrange(0, i as int).push(hs[i as int]));
            lemma_encode_all_hints_push(hs.subrange(0, i as int), hs[i as int]);
        }
        extend_bytes(&mut out, bytes.as_slice());
        i = i + 1;
    }
    assert(hs.subrange(0, i as int) =~= hs);
    out
}

/// The segment ids that compacting a log whose active segment is `active_id` takes: one
/// for the compacted segment, then one for the new, empty active segment.
pub fn compaction_ids(active_id: u64) -> (r: (u64, u64))
    requires
        active_id <= u64::MAX - 2,
    ensures
        r.0 == active_id + 1,
        r.1 == active_id + 2,
{
    (active_id + 1, active_id + 2)
}

/// Where the next record of `record_len` bytes goes, and whether a new segment must be
/// begun for it: a non-empty active segment is closed when the record would take it
/// past `max_segment_size`.
pub fn append_position(active_id: u64, active_size: u64, max_segment_size: u64, record_len: u64) -> (r: (
    bool,
    LogPointer,
))
    requires
        active_id < u64::MAX,
        active_size + record_len <= u64::MAX,
    ensures
        r.0 == (active_size > 0 && active_size + record_len > max_segment_size),
        r.1 == (if r.0 {
            LogPointer { file_id: (active_id + 1) as u64, offset: 0, len: record_len as u32 }
        } else {
            LogPointer { file_id: active_id, offset: active_size, len: record_len as u32 }
        }),
{
    if active_size > 0 && active_size + record_len > max_segment_size {
        (true, LogPointer { file_id: active_id + 1, offset: 0, len: record_len as u32 })
    } else {
        (false, LogPointer { file_id: active_id, offset: active_size, len: record_len as u32 })
    }
}

} // verus!
