use vstd::prelude::*;

use vstd::slice::slice_subrange;
use vstd::string::StringExecFns;

use crate::error::Error;
use crate::record::{lemma_record_bytes_len, parse_record, record_bytes, Record, RecordView, FIXED_HEADER_LEN};
use crate::segment::{
    append_position, compaction_ids, encode_all, encode_all_hints, encode_hints, encode_segment, hints_for, layout,
    layout_from, lemma_encode_all_push, lemma_hints_match_data, lemma_layout_props, lemma_layout_push,
    lemma_parse_encoded, opt_bytes, scan_segment, scan_segment_keys, segment_key_scan, storable,
};
use crate::storage::{
    compacted_entries, compacted_ids, entries_readable, entries_view, held, LogOp, scan_entry_of, scan_view, CompactionResult,
    LogPointer, LogStore, ScanEntry,
};

verus! {

/// Whether pointer `a` comes before pointer `b` in the log: an earlier segment, or an
/// earlier offset in the same segment.
pub open spec fn ptr_before(a: LogPointer, b: LogPointer) -> bool {
    a.file_id < b.file_id || (a.file_id == b.file_id && a.offset < b.offset)
}

/// Whether the pointers of `es` strictly increase.
pub open spec fn ptrs_sorted(es: Seq<(LogPointer, RecordView)>) -> bool {
    forall|i: int, j: int| 0 <= i < j < es.len() ==> ptr_before(#[trigger] es[i].0, #[trigger] es[j].0)
}

/// The map from each pointer of `es` to its record; a later entry wins.
pub open spec fn entries_map(es: Seq<(LogPointer, RecordView)>) -> Map<LogPointer, RecordView>
    decreases es.len(),
{
    if es.len() == 0 {
        Map::empty()
    } else {
        entries_map(es.drop_last()).insert(es.last().0, es.last().1)
    }
}

/// The pointers of a segment's entries strictly increase.
pub proof fn lemma_layout_sorted(file_id: u64, rs: Seq<RecordView>, offset: nat)
    requires
        forall|i: int| 0 <= i < rs.len() ==> storable(#[trigger] rs[i]),
        offset + encode_all(rs).len() <= u64::MAX,
    ensures
        ptrs_sorted(layout_from(file_id, rs, offset)),
{
    lemma_layout_props(file_id, rs, offset);
    let l = layout_from(file_id, rs, offset);
    assert forall|i: int, j: int| 0 <= i < j < l.len() implies ptr_before(#[trigger] l[i].0, #[trigger] l[j].0) by {
        lemma_record_bytes_len(rs[i]);
        assert(l[i].0.offset + l[i].0.len <= l[j].0.offset);
    }
}

/// In a map built from entries with distinct pointers, each entry's pointer gives its record,
/// and only those pointers are keys.
pub proof fn lemma_entries_map(es: Seq<(LogPointer, RecordView)>)
    requires
        ptrs_sorted(es),
    ensures
        forall|i: int|
            0 <= i < es.len() ==> #[trigger] entries_map(es).contains_key(es[i].0) && entries_map(
                es,
            )[es[i].0] == es[i].1,
        forall|p: LogPointer|
            #[trigger] entries_map(es).contains_key(p) ==> exists|i: int| 0 <= i < es.len() && es[i].0 == p,
    decreases es.len(),
{
    if es.len() > 0 {
        let init = es.drop_last();
        assert(ptrs_sorted(init)) by {
            assert forall|i: int, j: int| 0 <= i < j < init.len() implies ptr_before(#[trigger] init[i].0, #[trigger] init[j].0) by {
                assert(ptr_before(es[i].0, es[j].0));
            }
        }
        lemma_entries_map(init);
        let n = es.len() - 1;
        assert(entries_map(es) == entries_map(init).insert(es[n].0, es[n].1));
        assert forall|i: int| 0 <= i < es.len() implies #[trigger] entries_map(es).contains_key(es[i].0)
            && entries_map(es)[es[i].0] == es[i].1 by {
            if i < n {
                assert(ptr_before(es[i].0, es[n].0));
                assert(es[i].0 != es[n].0);
                assert(init[i] == es[i]);
                assert(entries_map(init).contains_key(init[i].0));
            }
        }
        assert forall|p: LogPointer| #[trigger] entries_map(es).contains_key(p) implies exists|i: int|
            0 <= i < es.len() && es[i].0 == p by {
            if p != es[n].0 {
                assert(entries_map(init).contains_key(p));
                let i = choose|i: int| 0 <= i < init.len() && init[i].0 == p;
                assert(es[i].0 == p);
            }
        }
    }
}

/// One segment of an in-memory log: its id, its bytes, the bytes of its hint segment
/// if it has one, and the records it holds.
struct Segment {
    id: u64,
    data: Vec<u8>,
    hint: Option<Vec<u8>>,
    records: Ghost<Seq<RecordView>>,
}

/// The entries of a segment, each with its pointer.
spec fn seg_entries(s: Segment) -> Seq<(LogPointer, RecordView)> {
    layout(s.id, s.records@)
}

/// Whether a segment's bytes are the encodings of its records, and its hint segment,
/// if any, the hints of its records, all of them live.
spec fn seg_ok(s: Segment) -> bool {
    &&& forall|i: int| 0 <= i < s.records@.len() ==> storable(#[trigger] s.records@[i])
    &&& s.data@ == encode_all(s.records@)
    &&& s.data@.len() <= u64::MAX
    &&& s.hint matches Some(h) ==> {
        &&& h@ == encode_all_hints(hints_for(seg_entries(s)))
        &&& forall|i: int| 0 <= i < s.records@.len() ==> !(#[trigger] s.records@[i]).tombstone
    }
}

/// The entries of a sequence of segments, in order.
spec fn all_entries(segs: Seq<Segment>) -> Seq<(LogPointer, RecordView)>
    decreases segs.len(),
{
    if segs.len() == 0 {
        Seq::empty()
    } else {
        all_entries(segs.drop_last()) + seg_entries(segs.last())
    }
}

/// How many of `segs` have a hint segment.
spec fn hinted(segs: Seq<Segment>) -> nat
    decreases segs.len(),
{
    if segs.len() == 0 {
        0
    } else {
        hinted(segs.drop_last()) + if segs.last().hint is Some {
            1nat
        } else {
            0nat
        }
    }
}

/// The ids of those of `segs` that have a hint segment, in order.
spec fn hinted_ids(segs: Seq<Segment>) -> Seq<u64>
    decreases segs.len(),
{
    if segs.len() == 0 {
        Seq::empty()
    } else if segs.last().hint is Some {
        hinted_ids(segs.drop_last()).push(segs.last().id)
    } else {
        hinted_ids(segs.drop_last())
    }
}

/// The active segment after a record of `n` bytes is appended to the active segment `id`
/// holding `size` bytes, when segments are closed beyond `limit` bytes: a new segment is
/// begun when a non-empty one would grow past the limit.
pub open spec fn active_after(id: u64, size: nat, limit: u64, n: nat) -> (u64, nat) {
    if size > 0 && size + n > limit {
        ((id + 1) as u64, n)
    } else {
        (id, size + n)
    }
}

/// Whether a record `r` can be appended to the active segment `id` holding `size` bytes,
/// when segments are closed beyond `limit` bytes: its encoding must fit the 32-bit length of
/// a pointer, the segment must stay within 64 bits, and a new segment needs an id.
pub open spec fn accepts_at(id: u64, size: nat, limit: u64, r: RecordView) -> bool {
    let n = record_bytes(r).len();
    &&& n <= u32::MAX
    &&& size + n <= u64::MAX
    &&& (size > 0 && size + n > limit) ==> id < MAX_ACTIVE_ID
}

/// Whether the operations `ops` all succeed, one after the other, on a log whose active
/// segment `id` holds `size` bytes, when segments are closed beyond `limit` bytes.
pub open spec fn allows_from(id: u64, size: nat, limit: u64, ops: Seq<LogOp>) -> bool
    decreases ops.len(),
{
    if ops.len() == 0 {
        true
    } else {
        match ops[0] {
            LogOp::Append(r) => {
                let (id2, size2) = active_after(id, size, limit, record_bytes(r).len());
                accepts_at(id, size, limit, r) && allows_from(id2, size2, limit, ops.drop_first())
            },
            LogOp::Compact => id <= MAX_ACTIVE_ID - 2 && allows_from(
                (id + 2) as u64,
                0,
                limit,
                ops.drop_first(),
            ),
        }
    }
}

/// Allowing an append and then `ops` is allowing `ops` from where the append leaves the
/// active segment.
pub proof fn lemma_allows_append(id: u64, size: nat, limit: u64, r: RecordView, ops: Seq<LogOp>)
    requires
        accepts_at(id, size, limit, r),
    ensures
        ({
            let (id2, size2) = active_after(id, size, limit, record_bytes(r).len());
            allows_from(id, size, limit, seq![LogOp::Append(r)] + ops) == allows_from(id2, size2, limit, ops)
        }),
{
    let xs = seq![LogOp::Append(r)] + ops;
    assert(xs[0] == LogOp::Append(r));
    assert(xs.drop_first() =~= ops);
}

/// Allowing a compaction and then `ops` is allowing `ops` from the new, empty active segment.
pub proof fn lemma_allows_compact(id: u64, size: nat, limit: u64, ops: Seq<LogOp>)
    requires
        id <= MAX_ACTIVE_ID - 2,
    ensures
        allows_from(id, size, limit, seq![LogOp::Compact] + ops) == allows_from((id + 2) as u64, 0, limit, ops),
{
    let xs = seq![LogOp::Compact] + ops;
    assert(xs[0] == LogOp::Compact);
    assert(xs.drop_first() =~= ops);
}

/// An in-memory log allows the append of a record exactly when its encoding (the fixed
/// header, the key and the value) fits the 32-bit length of a pointer, the active segment
/// stays within 64 bits, and, where the record needs a new segment, an id is left for it:
/// whatever the size of the record otherwise, and whether or not it is a tombstone.
pub proof fn lemma_allows_one_append(log: &MemLogStore, r: RecordView)
    ensures
        log.allows(seq![LogOp::Append(r)]) <==> ({
            let n = FIXED_HEADER_LEN + r.key.len() + r.value.len();
            &&& n <= u32::MAX
            &&& log.active_size() + n <= u64::MAX
            &&& (log.active_size() > 0 && log.active_size() + n > log.segment_limit()) ==> log.active_id()
                < MAX_ACTIVE_ID
        }),
        log.allows(seq![LogOp::Append(r)]) == log.allows(
            seq![LogOp::Append(RecordView { key: r.key, value: r.value, timestamp: r.timestamp, tombstone: !r.tombstone })],
        ),
{
    let flipped = RecordView { key: r.key, value: r.value, timestamp: r.timestamp, tombstone: !r.tombstone };
    lemma_record_bytes_len(r);
    lemma_record_bytes_len(flipped);
    let xs = seq![LogOp::Append(r)];
    let ys = seq![LogOp::Append(flipped)];
    assert(xs[0] == LogOp::Append(r));
    assert(ys[0] == LogOp::Append(flipped));
    assert(xs.drop_first() =~= Seq::<LogOp>::empty());
    assert(ys.drop_first() =~= Seq::<LogOp>::empty());
    reveal_with_fuel(allows_from, 2);
}

/// A write to a store on an in-memory log is owed whatever its time stamp: a reliable log
/// with an id left takes the record of any key and value (live or a tombstone) whose
/// encoding fits the 32-bit length of a pointer and keeps the active segment within 64 bits.
pub proof fn lemma_write_owed(log: &MemLogStore, key: Seq<u8>, value: Seq<u8>, tombstone: bool)
    requires
        FIXED_HEADER_LEN + key.len() + value.len() <= u32::MAX,
        log.active_size() + FIXED_HEADER_LEN + key.len() + value.len() <= u64::MAX,
        log.active_id() < MAX_ACTIVE_ID,
    ensures
        log.reliable(),
        forall|t: u64|
            #[trigger] log.allows(
                seq![LogOp::Append(RecordView { key, value, timestamp: t, tombstone })],
            ),
{
    assert forall|t: u64|
        #[trigger] log.allows(seq![LogOp::Append(RecordView { key, value, timestamp: t, tombstone })]) by {
        lemma_allows_one_append(log, RecordView { key, value, timestamp: t, tombstone });
    }
}

/// The largest id the active segment may have: compaction needs two more.
pub const MAX_ACTIVE_ID: u64 = 0xffff_ffff_ffff_fffc;

/// A log kept in memory, laid out as segment files would be: each segment holds the
/// encodings of its records one after the other, a new segment is begun when the active
/// one would grow past the maximum size, and compaction writes the records it is given into
/// one segment, with a hint segment beside it when all of them are live (a hint only ever
/// stands for a live record).
pub struct MemLogStore {
    max_segment_size: u64,
    segments: Vec<Segment>,
    synced: Ghost<nat>,
}

impl MemLogStore {
    /// Every entry of a consistent log can be read back through its pointer.
    proof fn lemma_readable(&self)
        requires
            self.inv(),
        ensures
            entries_readable(self.log_entries(), self.records()),
    {
        let es = all_entries(self.segments@);
        assert(ptrs_sorted(es));
        lemma_entries_map(es);
    }

    /// An empty log whose segments are closed at `max_segment_size` bytes.
    pub fn new(max_segment_size: u64) -> (s: Self)
        ensures
            s.inv(),
            s.log_entries() == Seq::<(LogPointer, RecordView)>::empty(),
            s.num_segments() == 1,
            s.num_hinted() == 0,
            s.segment_ids() == seq![1u64],
            s.hint_ids() == Seq::<u64>::empty(),
            s.active_id() == 1,
            s.active_size() == 0,
            s.segment_limit() == max_segment_size,
    {
        let mut segments: Vec<Segment> = Vec::new();
        segments.push(Segment { id: 1, data: Vec::new(), hint: None, records: Ghost(Seq::empty()) });
        let s = MemLogStore { max_segment_size, segments, synced: Ghost(0) };
        proof {
            let segs = s.segments@;
            assert(segs.drop_last() =~= Seq::<Segment>::empty());
            assert(all_entries(segs.drop_last()) == Seq::<(LogPointer, RecordView)>::empty());
            assert(seg_entries(segs[0]) == Seq::<(LogPointer, RecordView)>::empty());
            assert(segs.last() == segs[0]);
            assert(all_entries(segs) =~= Seq::<(LogPointer, RecordView)>::empty());
            assert(encode_all(Seq::<RecordView>::empty()) == Seq::<u8>::empty());
            assert(hinted(segs.drop_last()) == 0);
            assert(hinted_ids(segs.drop_last()) == Seq::<u64>::empty());
        }
        s
    }

    /// The id of the active segment, the one that appends go to.
    pub closed spec fn active_id(&self) -> u64 {
        self.segments@.last().id
    }

    /// The number of bytes in the active segment.
    pub closed spec fn active_size(&self) -> nat {
        self.segments@.last().data@.len()
    }

    /// The size beyond which a non-empty active segment is closed.
    pub closed spec fn segment_limit(&self) -> u64 {
        self.max_segment_size
    }

    /// A record that this log holds fits the 32-bit length of a pointer.
    proof fn lemma_held_storable(&self, r: RecordView)
        requires
            self.inv(),
            held(self.records(), r),
        ensures
            storable(r),
    {
        let segs = self.segments@;
        let es = all_entries(segs);
        lemma_entries_map(es);
        let p = choose|p: LogPointer| entries_map(es).contains_key(p) && entries_map(es)[p] == r;
        let i = choose|i: int| 0 <= i < es.len() && es[i].0 == p;
        let k = choose|k: int|
            0 <= k < segs.len() && segs[k].id == es[i].0.file_id && seg_entries(segs[k]).contains(es[i]);
        let sg = segs[k];
        assert(seg_ok(sg));
        lemma_layout_props(sg.id, sg.records@, 0);
        let t = choose|t: int| 0 <= t < seg_entries(sg).len() && seg_entries(sg)[t] == es[i];
        assert(seg_entries(sg)[t].1 == sg.records@[t]);
    }

    /// The number of segments, active one included.
    pub closed spec fn num_segments(&self) -> nat {
        self.segments@.len()
    }

    /// The number of segments, active one included.
    pub fn segment_count(&self) -> (n: usize)
        ensures
            n == self.num_segments(),
    {
        self.segments.len()
    }

    /// The number of segments that have a hint segment.
    pub closed spec fn num_hinted(&self) -> nat {
        hinted(self.segments@)
    }

    /// The number of segments that have a hint segment.
    pub fn hint_count(&self) -> (n: usize)
        ensures
            n == self.num_hinted(),
    {
        let mut n: usize = 0;
        let mut k: usize = 0;
        while k < self.segments.len()
            invariant
                k <= self.segments@.len(),
                n <= k,
                n == hinted(self.segments@.take(k as int)),
            decreases self.segments@.len() - k,
        {
            assert(self.segments@.take(k + 1).drop_last() =~= self.segments@.take(k as int));
            if self.segments[k].hint.is_some() {
                n = n + 1;
            }
            k = k + 1;
        }
        assert(self.segments@.take(k as int) =~= self.segments@);
        n
    }
}

/// The entries of the first `k + 1` segments are those of the first `k` and then those of segment `k`.
proof fn lemma_all_entries_take(segs: Seq<Segment>, k: int)
    requires
        0 <= k < segs.len(),
    ensures
        all_entries(segs.take(k + 1)) == all_entries(segs.take(k)) + seg_entries(segs[k]),
{
    assert(segs.take(k + 1).drop_last() =~= segs.take(k));
}

/// A well-formed segment scans for keys to the scan entries of its entries.
proof fn lemma_seg_key_scan(s: Segment, hint: Option<Seq<u8>>)
    requires
        seg_ok(s),
        hint == (match s.hint {
            None => None,
            Some(h) => Some(h@),
        }),
    ensures
        segment_key_scan(s.id, s.data@, hint) == Some(
            seg_entries(s).map_values(|e: (LogPointer, RecordView)| scan_entry_of(e)),
        ),
{
    lemma_parse_encoded(s.id, s.records@, 0);
    if s.hint is Some {
        lemma_hints_match_data(s.id, s.records@);
    }
}

/// The bytes at the pointer of an entry of a well-formed segment decode to the entry's record.
proof fn lemma_seg_read(s: Segment, j: int)
    requires
        seg_ok(s),
        0 <= j < seg_entries(s).len(),
    ensures
        ({
            let e = seg_entries(s)[j];
            &&& e.0.file_id == s.id
            &&& e.0.offset + e.0.len <= s.data@.len()
            &&& parse_record(s.data@.subrange(e.0.offset as int, e.0.offset + e.0.len)) == Some(
                Some((e.1, e.0.len as nat)),
            )
        }),
{
    lemma_layout_props(s.id, s.records@, 0);
    let e = seg_entries(s)[j];
    assert(storable(s.records@[j]));
    crate::record::lemma_record_roundtrip(e.1, Seq::empty());
    assert(record_bytes(e.1) + Seq::<u8>::empty() =~= record_bytes(e.1));
}

impl LogStore for MemLogStore {
    closed spec fn inv(&self) -> bool {
        let segs = self.segments@;
        let es = all_entries(segs);
        let last = segs.last();
        &&& segs.len() >= 1
        &&& forall|k: int| 0 <= k < segs.len() ==> seg_ok(#[trigger] segs[k])
        &&& forall|k: int, l: int| 0 <= k < l < segs.len() ==> (#[trigger] segs[k]).id < (#[trigger] segs[l]).id
        &&& last.hint is None
        &&& last.id <= MAX_ACTIVE_ID
        &&& ptrs_sorted(es)
        &&& forall|i: int|
            0 <= i < es.len() ==> (#[trigger] es[i]).0.file_id < last.id || (es[i].0.file_id == last.id
                && es[i].0.offset < last.data@.len())
        &&& forall|i: int|
            0 <= i < es.len() ==> exists|k: int|
                0 <= k < segs.len() && segs[k].id == (#[trigger] es[i]).0.file_id && seg_entries(
                    segs[k],
                ).contains(es[i])
    }

    closed spec fn log_entries(&self) -> Seq<(LogPointer, RecordView)> {
        all_entries(self.segments@)
    }

    closed spec fn records(&self) -> Map<LogPointer, RecordView> {
        entries_map(all_entries(self.segments@))
    }

    closed spec fn segment_ids(&self) -> Seq<u64> {
        self.segments@.map_values(|sg: Segment| sg.id)
    }

    closed spec fn hint_ids(&self) -> Seq<u64> {
        hinted_ids(self.segments@)
    }

    /// A sync of an in-memory log covers all that it holds.
    closed spec fn synced_len(&self) -> nat {
        self.synced@
    }

    /// An in-memory log fails only at the limits of its sizes and ids.
    open spec fn reliable(&self) -> bool {
        true
    }

    /// Appends succeed as `accepts_at` says, and compaction while two more segment ids are left.
    open spec fn allows(&self, ops: Seq<LogOp>) -> bool {
        allows_from(self.active_id(), self.active_size(), self.segment_limit(), ops)
    }

    #[verifier::rlimit(80)]
    fn append(&mut self, record: &Record) -> (r: Result<LogPointer, Error>)
        ensures
            final(self).num_hinted() == old(self).num_hinted(),
            r is Err ==> final(self).log_entries() == old(self).log_entries(),
            r is Ok <==> accepts_at(old(self).active_id(), old(self).active_size(), old(self).segment_limit(), record@),
            r is Ok <==> ({
                let n = FIXED_HEADER_LEN + record@.key.len() + record@.value.len();
                &&& n <= u32::MAX
                &&& old(self).active_size() + n <= u64::MAX
                &&& (old(self).active_size() > 0 && old(self).active_size() + n > old(self).segment_limit())
                    ==> old(self).active_id() < MAX_ACTIVE_ID
            }),
            r matches Ok(p) ==> p.len == FIXED_HEADER_LEN + record@.key.len() + record@.value.len(),
            final(self).segment_limit() == old(self).segment_limit(),
            r matches Ok(p) ==> {
                let n = record_bytes(record@).len();
                let rotate = old(self).active_size() > 0 && old(self).active_size() + n > old(
                    self,
                ).segment_limit();
                &&& p == (if rotate {
                    LogPointer { file_id: (old(self).active_id() + 1) as u64, offset: 0, len: n as u32 }
                } else {
                    LogPointer { file_id: old(self).active_id(), offset: old(self).active_size() as u64, len: n as u32 }
                })
                &&& final(self).active_id() == p.file_id
                &&& final(self).active_size() == p.offset + n
                &&& final(self).segment_ids() == if rotate {
                    old(self).segment_ids().push(p.file_id)
                } else {
                    old(self).segment_ids()
                }
            },
            r is Err ==> *final(self) == *old(self),
    {
        let bytes = record.encode();
        proof {
            lemma_record_bytes_len(record@);
        }
        if bytes.len() > 0xffff_ffff {
            return Err(Error::Invalid(String::from_str("record too large")));
        }
        let active = self.segments.len() - 1;
        let active_id = self.segments[active].id;
        let active_size = self.segments[active].data.len() as u64;
        let record_len = bytes.len() as u64;
        if active_size > u64::MAX - record_len {
            return Err(Error::Invalid(String::from_str("segment too large")));
        }
        let (rotate, pointer) = append_position(active_id, active_size, self.max_segment_size, record_len);
        let ghost segs0 = self.segments@;
        let ghost es0 = all_entries(segs0);
        assert(segs0 == old(self).segments@);
        let ghost entry = (pointer, record@);
        if rotate {
            if active_id >= MAX_ACTIVE_ID {
                return Err(Error::Invalid(String::from_str("segment ids exhausted")));
            }
            let ghost rs = seq![record@];
            let seg = Segment { id: active_id + 1, data: bytes, hint: None, records: Ghost(rs) };
            proof {
                let empty = Seq::<RecordView>::empty();
                assert(empty.push(record@) =~= rs);
                lemma_encode_all_push(empty, record@);
                lemma_layout_push((active_id + 1) as u64, empty, record@, 0);
                assert(encode_all(empty) == Seq::<u8>::empty());
                assert(layout_from((active_id + 1) as u64, empty, 0) == Seq::<(LogPointer, RecordView)>::empty());
                assert(encode_all(rs) =~= record_bytes(record@));
                assert(seg_entries(seg) =~= seq![entry]);
            }
            self.segments.push(seg);
            proof {
                assert(self.segments@.drop_last() =~= segs0);
            }
        } else {
            let mut seg = self.segments.pop().unwrap();
            let ghost s0 = seg;
            extend_vec(&mut seg.data, bytes);
            seg.records = Ghost(seg.records@.push(record@));
            proof {
                lemma_encode_all_push(s0.records@, record@);
                lemma_layout_push(s0.id, s0.records@, record@, 0);
                assert(seg_entries(seg) == seg_entries(s0).push(entry));
            }
            self.segments.push(seg);
            proof {
                assert(segs0.drop_last() =~= self.segments@.drop_last());
                assert(segs0.last() == s0);
            }
        }
        proof {
            let segs = self.segments@;
            let es = all_entries(segs);
            assert(es =~= es0.push(entry));
            assert forall|k: int| 0 <= k < segs.len() implies seg_ok(#[trigger] segs[k]) by {
                if k < segs.len() - 1 {
                    assert(segs[k] == segs0[k]);
                }
            }
            assert forall|i: int| 0 <= i < es0.len() implies ptr_before((#[trigger] es0[i]).0, pointer) by {
            }
            assert forall|i: int, j: int| 0 <= i < j < es.len() implies ptr_before(#[trigger] es[i].0, #[trigger] es[j].0) by {
                if j < es0.len() {
                    assert(es[i] == es0[i] && es[j] == es0[j]);
                } else {
                    assert(es[i] == es0[i]);
                }
            }
            assert forall|i: int| 0 <= i < es.len() implies exists|k: int|
                0 <= k < segs.len() && segs[k].id == (#[trigger] es[i]).0.file_id && seg_entries(segs[k]).contains(es[i]) by {
                let n = segs.len() - 1;
                if i == es0.len() {
                    assert(seg_entries(segs[n]).last() == entry);
                    assert(seg_entries(segs[n]).contains(es[i]));
                } else {
                    assert(es[i] == es0[i]);
                    let k = choose|k: int| 0 <= k < segs0.len() && segs0[k].id == es0[i].0.file_id && seg_entries(segs0[k]).contains(es0[i]);
                    if k < segs0.len() - 1 || rotate {
                        assert(segs[k] == segs0[k]);
                    } else {
                        let t = choose|t: int| 0 <= t < seg_entries(segs0[k]).len() && seg_entries(segs0[k])[t] == es0[i];
                        assert(seg_entries(segs[k])[t] == es0[i]);
                    }
                }
            }
            lemma_entries_map(es0);
            assert(!entries_map(es0).contains_key(pointer)) by {
                if entries_map(es0).contains_key(pointer) {
                    let i = choose|i: int| 0 <= i < es0.len() && es0[i].0 == pointer;
                    assert(ptr_before(es0[i].0, pointer));
                }
            }
            assert(es.drop_last() =~= es0);
            assert(self.segments@.drop_last() =~= segs0.drop_last() || self.segments@.drop_last() =~= segs0);
        }
        proof {
            let n = record_bytes(record@).len();
            assert(self.segments@.map_values(|sg: Segment| sg.id) =~= if rotate {
                segs0.map_values(|sg: Segment| sg.id).push(pointer.file_id)
            } else {
                segs0.map_values(|sg: Segment| sg.id)
            });
            assert(active_after(old(self).active_id(), old(self).active_size(), old(self).segment_limit(), n) == (
            self.active_id(), self.active_size()));
            assert forall|ops: Seq<LogOp>| #[trigger] self.allows(ops) == old(self).allows(
                seq![LogOp::Append(record@)] + ops,
            ) by {
                lemma_allows_append(
                    old(self).active_id(),
                    old(self).active_size(),
                    old(self).segment_limit(),
                    record@,
                    ops,
                );
            }
        }
        Ok(pointer)
    }

    fn read(&self, pointer: &LogPointer) -> (r: Result<Record, Error>)
        ensures
            self.records().contains_key(*pointer) ==> r is Ok,
    {
        let mut k: usize = 0;
        while k < self.segments.len()
            invariant
                self.inv(),
                k <= self.segments@.len(),
                forall|l: int| 0 <= l < k ==> (#[trigger] self.segments@[l]).id != pointer.file_id,
            decreases self.segments@.len() - k,
        {
            if self.segments[k].id == pointer.file_id {
                let data = self.segments[k].data.as_slice();
                proof {
                    let es = all_entries(self.segments@);
                    if entries_map(es).contains_key(*pointer) {
                        lemma_entries_map(es);
                        let i = choose|i: int| 0 <= i < es.len() && es[i].0 == *pointer;
                        let kk = choose|kk: int| 0 <= kk < self.segments@.len() && self.segments@[kk].id == es[i].0.file_id && seg_entries(self.segments@[kk]).contains(es[i]);
                        assert(kk == k as int) by {
                            if kk < k {
                                assert(self.segments@[kk].id != pointer.file_id);
                            } else if kk > k {
                                assert(self.segments@[k as int].id < self.segments@[kk].id);
                            }
                        }
                        let s = self.segments@[k as int];
                        let j = choose|j: int| 0 <= j < seg_entries(s).len() && seg_entries(s)[j] == es[i];
                        lemma_seg_read(s, j);
                    }
                }
                if pointer.offset > data.len() as u64 || (pointer.len as u64) > data.len() as u64 - pointer.offset {
                    return Err(Error::Io(String::from_str("pointer out of range")));
                }
                let start = pointer.offset as usize;
                let end = start + pointer.len as usize;
                return Record::decode_from_bytes(slice_subrange(data, start, end));
            }
            k = k + 1;
        }
        proof {
            let es = all_entries(self.segments@);
            if entries_map(es).contains_key(*pointer) {
                lemma_entries_map(es);
                let i = choose|i: int| 0 <= i < es.len() && es[i].0 == *pointer;
                let kk = choose|kk: int| 0 <= kk < self.segments@.len() && self.segments@[kk].id == es[i].0.file_id && seg_entries(self.segments@[kk]).contains(es[i]);
                assert(self.segments@[kk].id != pointer.file_id);
            }
        }
        Err(Error::Io(String::from_str("segment not found")))
    }

    fn scan(&self) -> (r: Result<Vec<(LogPointer, Record)>, Error>)
        ensures
            r is Ok,
    {
        let mut out: Vec<(LogPointer, Record)> = Vec::new();
        let mut k: usize = 0;
        assert(self.segments@.take(0) =~= Seq::<Segment>::empty());
        while k < self.segments.len()
            invariant
                self.inv(),
                k <= self.segments@.len(),
                entries_view(out@) == all_entries(self.segments@.take(k as int)),
            decreases self.segments@.len() - k,
        {
            let seg = &self.segments[k];
            proof {
                lemma_parse_encoded(seg.id, seg.records@, 0);
                lemma_all_entries_take(self.segments@, k as int);
            }
            let mut found = match scan_segment(seg.id, seg.data.as_slice()) {
                Ok(v) => v,
                Err(e) => {
                    return Err(e);
                },
            };
            let ghost before = out@;
            out.append(&mut found);
            proof {
                assert(entries_view(out@) =~= entries_view(before) + seg_entries(*seg));
            }
            k = k + 1;
        }
        assert(self.segments@.take(k as int) =~= self.segments@);
        proof {
            self.lemma_readable();
        }
        Ok(out)
    }

    fn scan_keys(&self) -> (r: Result<Vec<ScanEntry>, Error>)
        ensures
            r is Ok,
    {
        let mut out: Vec<ScanEntry> = Vec::new();
        let mut k: usize = 0;
        assert(self.segments@.take(0) =~= Seq::<Segment>::empty());
        while k < self.segments.len()
            invariant
                self.inv(),
                k <= self.segments@.len(),
                scan_view(out@) == all_entries(self.segments@.take(k as int)).map_values(
                    |e: (LogPointer, RecordView)| scan_entry_of(e),
                ),
            decreases self.segments@.len() - k,
        {
            let seg = &self.segments[k];
            let hint: Option<&[u8]> = match &seg.hint {
                Some(h) => Some(h.as_slice()),
                None => None,
            };
            proof {
                lemma_seg_key_scan(*seg, opt_bytes(hint));
                lemma_all_entries_take(self.segments@, k as int);
            }
            let mut found = match scan_segment_keys(seg.id, seg.data.as_slice(), hint) {
                Ok(v) => v,
                Err(e) => {
                    return Err(e);
                },
            };
            let ghost before = out@;
            out.append(&mut found);
            proof {
                assert(scan_view(out@) =~= scan_view(before) + seg_entries(*seg).map_values(
                    |e: (LogPointer, RecordView)| scan_entry_of(e),
                ));
                assert(all_entries(self.segments@.take(k + 1)).map_values(
                    |e: (LogPointer, RecordView)| scan_entry_of(e),
                ) =~= all_entries(self.segments@.take(k as int)).map_values(
                    |e: (LogPointer, RecordView)| scan_entry_of(e),
                ) + seg_entries(*seg).map_values(|e: (LogPointer, RecordView)| scan_entry_of(e)));
            }
            k = k + 1;
        }
        assert(self.segments@.take(k as int) =~= self.segments@);
        proof {
            self.lemma_readable();
        }
        Ok(out)
    }

    fn sync(&mut self) -> (r: Result<(), Error>)
        ensures
            r is Ok,
    {
        self.synced = Ghost(all_entries(self.segments@).len());
        Ok(())
    }

    fn compact(&mut self, records: &[Record]) -> (r: Result<CompactionResult, Error>)
        ensures
            r is Ok ==> final(self).num_segments() == 2 && final(self).num_hinted() == (if forall|i: int|
                0 <= i < records@.len() ==> !(#[trigger] records@[i]).tombstone {
                1nat
            } else {
                0nat
            }),
            r is Err ==> final(self).log_entries() == old(self).log_entries(),
            r is Ok <==> (forall|i: int| 0 <= i < records@.len() ==> storable(#[trigger] records@[i]@))
                && old(self).active_id() <= MAX_ACTIVE_ID - 2,
            final(self).segment_limit() == old(self).segment_limit(),
            r matches Ok(c) ==> {
                &&& final(self).active_id() == old(self).active_id() + 2
                &&& final(self).active_size() == 0
                &&& final(self).segment_ids() == seq![
                    (old(self).active_id() + 1) as u64,
                    (old(self).active_id() + 2) as u64,
                ]
                &&& forall|i: int|
                    0 <= i < c.pointers@.len() ==> (#[trigger] c.pointers@[i]).file_id == old(self).active_id() + 1
            },
            r is Err ==> *final(self) == *old(self),
    {
        let ghost rv = records@.map_values(|x: Record| x@);
        let ghost all_held = forall|i: int|
            0 <= i < records@.len() ==> held(old(self).records(), #[trigger] records@[i]@);
        proof {
            if all_held {
                assert forall|i: int| 0 <= i < records@.len() implies storable(#[trigger] records@[i]@) by {
                    self.lemma_held_storable(records@[i]@);
                }
            }
        }
        let mut i: usize = 0;
        let mut all_live = true;
        while i < records.len()
            invariant
                old(self).inv(),
                self.segments@ == old(self).segments@,
                i <= records@.len(),
                rv == records@.map_values(|x: Record| x@),
                all_live == forall|t: int| 0 <= t < i ==> !(#[trigger] records@[t]).tombstone,
                forall|t: int| 0 <= t < i ==> storable(#[trigger] rv[t]),
                all_held == (forall|t: int|
                    0 <= t < records@.len() ==> held(old(self).records(), #[trigger] records@[t]@)),
                all_held ==> forall|t: int| 0 <= t < records@.len() ==> storable(#[trigger] records@[t]@),
            decreases records@.len() - i,
        {
            let key_len = records[i].key.len();
            let value_len = records[i].value.len();
            if key_len > 0xffff_ffff || value_len > 0xffff_ffff - key_len || FIXED_HEADER_LEN > 0xffff_ffff
                - key_len - value_len {
                assert(!storable(records@[i as int]@));
                return Err(Error::Invalid(String::from_str("record too large")));
            }
            if records[i].tombstone {
                all_live = false;
            }
            i = i + 1;
        }
        assert forall|t: int| 0 <= t < records@.len() implies storable(#[trigger] records@[t]@) by {
            assert(rv[t] == records@[t]@);
        }
        let active_id = self.segments[self.segments.len() - 1].id;
        if active_id > MAX_ACTIVE_ID - 2 {
            return Err(Error::Invalid(String::from_str("segment ids exhausted")));
        }
        let (compacted_id, next_active_id) = compaction_ids(active_id);
        let (data, pointers) = encode_segment(compacted_id, records);
        let data_len = data.len();
        proof {
            crate::segment::lemma_layout_len(compacted_id, rv, 0);
            assert(data@.len() <= u64::MAX);
        }
        let hint = if all_live {
            Some(encode_hints(records, pointers.as_slice()))
        } else {
            None
        };
        let ghost le = layout(compacted_id, rv);
        proof {
            lemma_layout_props(compacted_id, rv, 0);
            lemma_layout_sorted(compacted_id, rv, 0);
            assert(pointers@.len() == rv.len());
            let hs = crate::segment::hints_of(records@, pointers@, records@.len());
            assert(hs =~= hints_for(le));
        }
        let compacted = Segment { id: compacted_id, data, hint, records: Ghost(rv) };
        let fresh = Segment {
            id: next_active_id,
            data: Vec::new(),
            hint: None,
            records: Ghost(Seq::empty()),
        };
        let mut segments: Vec<Segment> = Vec::new();
        segments.push(compacted);
        segments.push(fresh);
        self.segments = segments;
        self.synced = Ghost(rv.len());
        proof {
            let segs = self.segments@;
            assert(seg_entries(segs[0]) == le);
            assert(encode_all(Seq::<RecordView>::empty()) == Seq::<u8>::empty());
            assert(seg_entries(segs[1]) == Seq::<(LogPointer, RecordView)>::empty());
            assert(segs.drop_last().drop_last() =~= Seq::<Segment>::empty());
            assert(all_entries(segs.drop_last().drop_last()) == Seq::<(LogPointer, RecordView)>::empty());
            assert(hinted(segs.drop_last().drop_last()) == 0);
            assert(hinted(segs.drop_last()) == if all_live { 1nat } else { 0nat });
            assert(hinted_ids(segs.drop_last().drop_last()) == Seq::<u64>::empty());
            assert(hinted_ids(segs.drop_last()) =~= if all_live { seq![compacted_id] } else { Seq::<u64>::empty() });
            assert(hinted_ids(segs) == hinted_ids(segs.drop_last()));
            let olds = old(self).segments@;
            assert(olds.map_values(|sg: Segment| sg.id).last() == olds.last().id);
            assert(segs.map_values(|sg: Segment| sg.id) =~= seq![compacted_id, next_active_id]);
            assert(segs.drop_last().last() == segs[0]);
            assert(all_entries(segs.drop_last()) =~= le);
            assert(all_entries(segs) =~= le);
            assert(le =~= compacted_entries(pointers@, rv));
            assert forall|k: int| 0 <= k < segs.len() implies seg_ok(#[trigger] segs[k]) by {
                if k == 0 && all_live {
                    assert forall|t: int| 0 <= t < rv.len() implies !(#[trigger] rv[t]).tombstone by {
                        assert(rv[t] == records@[t]@);
                        assert(!records@[t].tombstone);
                    }
                }
            }
            assert forall|t: int| 0 <= t < le.len() implies exists|k: int|
                0 <= k < segs.len() && segs[k].id == (#[trigger] le[t]).0.file_id && seg_entries(segs[k]).contains(le[t]) by {
                assert(seg_entries(segs[0]).contains(le[t]));
            }
            self.lemma_readable();
        }
        proof {
            assert forall|ops: Seq<LogOp>| #[trigger] self.allows(ops) == old(self).allows(
                seq![LogOp::Compact] + ops,
            ) by {
                lemma_allows_compact(old(self).active_id(), old(self).active_size(), old(self).segment_limit(), ops);
            }
        }
        Ok(CompactionResult { pointers })
    }
}

/// Moves all of `bytes` onto the end of `out`.
fn extend_vec(out: &mut Vec<u8>, bytes: Vec<u8>)
    ensures
        final(out)@ == old(out)@ + bytes@,
{
    let mut b = bytes;
    out.append(&mut b);
}

} // verus!
