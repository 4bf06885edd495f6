use vstd::prelude::*;

use vstd::string::StringSliceAdditionalSpecFns;

use crate::error::Error;
use crate::record::{Record, RecordView};

verus! {

/// Where a record lives: the segment that holds it, its offset there, and its encoded length.
#[derive(Debug, Clone, Copy, PartialEq, Eq, Structural)]
pub struct LogPointer {
    pub file_id: u64,
    pub offset: u64,
    pub len: u32,
}

/// What a compaction reports: the new pointer of each record, in the order the records were given.
#[derive(Debug)]
pub struct CompactionResult {
    pub pointers: Vec<LogPointer>,
}

/// The information needed to rebuild the key directory from one log entry.
#[derive(Debug, Clone)]
pub struct ScanEntry {
    pub key: Vec<u8>,
    pub pointer: LogPointer,
    pub timestamp: u64,
    pub tombstone: bool,
}

/// A scan entry as a mathematical value.
pub ghost struct ScanEntryView {
    pub key: Seq<u8>,
    pub pointer: LogPointer,
    pub timestamp: u64,
    pub tombstone: bool,
}

impl View for ScanEntry {
    type V = ScanEntryView;

    open spec fn view(&self) -> ScanEntryView {
        ScanEntryView {
            key: self.key@,
            pointer: self.pointer,
            timestamp: self.timestamp,
            tombstone: self.tombstone,
        }
    }
}

/// The scan entry that describes a log entry.
pub open spec fn scan_entry_of(e: (LogPointer, RecordView)) -> ScanEntryView {
    ScanEntryView { key: e.1.key, pointer: e.0, timestamp: e.1.timestamp, tombstone: e.1.tombstone }
}

/// The mathematical value of a list of log entries.
pub open spec fn entries_view(v: Seq<(LogPointer, Record)>) -> Seq<(LogPointer, RecordView)> {
    v.map_values(|e: (LogPointer, Record)| (e.0, e.1@))
}

/// The mathematical value of a list of scan entries.
pub open spec fn scan_view(v: Seq<ScanEntry>) -> Seq<ScanEntryView> {
    v.map_values(|e: ScanEntry| e@)
}

/// An operation that changes a log: appending a record, or compacting.
pub ghost enum LogOp {
    Append(RecordView),
    Compact,
}

/// The segments that a compaction leaves when the log had the segments `ids`: the
/// compacted segment, with the id after the active one, and a new, empty active segment
/// after it.
pub open spec fn compacted_ids(ids: Seq<u64>) -> Seq<u64> {
    seq![(ids.last() + 1) as u64, (ids.last() + 2) as u64]
}

/// Whether `r` is one of the records of `m`.
pub open spec fn held(m: Map<LogPointer, RecordView>, r: RecordView) -> bool {
    exists|p: LogPointer| m.contains_key(p) && m[p] == r
}

/// Whether every record of `before` is still in `after`, unchanged.
pub open spec fn records_kept(
    before: Map<LogPointer, RecordView>,
    after: Map<LogPointer, RecordView>,
) -> bool {
    forall|p: LogPointer| #[trigger]
        before.contains_key(p) ==> after.contains_key(p) && after[p] == before[p]
}

/// Whether every entry of `es` can be read back through its pointer.
pub open spec fn entries_readable(
    es: Seq<(LogPointer, RecordView)>,
    records: Map<LogPointer, RecordView>,
) -> bool {
    forall|i: int|
        0 <= i < es.len() ==> #[trigger] records.contains_key(es[i].0) && records[es[i].0] == es[i].1
}

/// The log that a compaction leaves: each given record under its new pointer, in order.
pub open spec fn compacted_entries(pointers: Seq<LogPointer>, records: Seq<RecordView>) -> Seq<
    (LogPointer, RecordView),
> {
    Seq::new(records.len(), |i: int| (pointers[i], records[i]))
}

/// An append-only, segmented log of records.
///
/// A store is described by the sequence of entries that a scan reports, in log
/// order, and by the map of records that `read` returns, by pointer. A store that
/// Verus checks gives its own definitions of these; the defaults below are only
/// there so that a store written outside Verus can implement the trait. Nothing checks
/// that such a store meets the contracts below, and with the defaults it cannot (an
/// `append` that succeeds would have to change the empty `records`): for such a store
/// the contracts are assumptions, not facts. It is not `reliable`, so no call on it is
/// promised to succeed.
pub trait LogStore {
    /// Whether the state of the store is consistent.
    open spec fn inv(&self) -> bool {
        true
    }

    /// The log in scan order: each record together with the pointer that reads it.
    open spec fn log_entries(&self) -> Seq<(LogPointer, RecordView)> {
        Seq::empty()
    }

    /// The records that `read` returns, by pointer.
    open spec fn records(&self) -> Map<LogPointer, RecordView> {
        Map::empty()
    }

    /// Whether the store is one whose operations fail only where it says so: `read`,
    /// `scan`, `scan_keys` and `sync` then always succeed, and `append` and `compact`
    /// succeed where the store `allows` them.
    open spec fn reliable(&self) -> bool {
        false
    }

    /// How many leading entries of the log a sync has made durable.
    open spec fn synced_len(&self) -> nat {
        0
    }

    /// The ids of the data segments, in order, the active one last.
    open spec fn segment_ids(&self) -> Seq<u64> {
        Seq::empty()
    }

    /// The ids of the segments that have a hint segment beside them, in order.
    open spec fn hint_ids(&self) -> Seq<u64> {
        Seq::empty()
    }

    /// Whether a reliable store is sure to carry out `ops`, one after the other.
    open spec fn allows(&self, ops: Seq<LogOp>) -> bool {
        false
    }

    /// Appends `record` at the end of the log and returns its pointer.
    ///
    /// On failure every record that could be read before can still be read.
    fn append(&mut self, record: &Record) -> (r: Result<LogPointer, Error>)
        requires
            old(self).inv(),
        ensures
            final(self).inv(),
            old(self).reliable() ==> final(self).reliable(),
            old(self).reliable() && old(self).allows(seq![LogOp::Append(record@)]) ==> r is Ok,
            final(self).synced_len() == old(self).synced_len(),
            final(self).hint_ids() == old(self).hint_ids(),
            r is Ok ==> final(self).segment_ids() == old(self).segment_ids() || final(self).segment_ids()
                == old(self).segment_ids().push((old(self).segment_ids().last() + 1) as u64),
            r is Ok ==> (forall|ops: Seq<LogOp>| #[trigger] final(self).allows(ops) == old(self).allows(
                seq![LogOp::Append(record@)] + ops,
            )),
            match r {
                Ok(p) => {
                    &&& !old(self).records().contains_key(p)
                    &&& final(self).records() == old(self).records().insert(p, record@)
                    &&& final(self).log_entries() == old(self).log_entries().push((p, record@))
                },
                Err(_) => records_kept(old(self).records(), final(self).records()),
            },
    ;

    /// Reads the record at `pointer`; what a pointer that the store never gave out reads
    /// as is left open.
    fn read(&self, pointer: &LogPointer) -> (r: Result<Record, Error>)
        requires
            self.inv(),
        ensures
            self.records().contains_key(*pointer) ==> (r matches Ok(rec) ==> rec@
                == self.records()[*pointer]),
            self.reliable() && self.records().contains_key(*pointer) ==> r is Ok,
    ;

    /// Reads the whole log, in order.
    fn scan(&self) -> (r: Result<Vec<(LogPointer, Record)>, Error>)
        requires
            self.inv(),
        ensures
            r matches Ok(v) ==> entries_view(v@) == self.log_entries() && entries_readable(
                self.log_entries(),
                self.records(),
            ),
            self.reliable() ==> r is Ok,
    ;

    /// Reads what is needed to rebuild the key directory: one scan entry per log entry.
    fn scan_keys(&self) -> (r: Result<Vec<ScanEntry>, Error>)
        requires
            self.inv(),
        ensures
            r matches Ok(v) ==> scan_view(v@) == self.log_entries().map_values(
                |e: (LogPointer, RecordView)| scan_entry_of(e),
            ) && entries_readable(self.log_entries(), self.records()),
            self.reliable() ==> r is Ok,
    {
        match self.scan() {
            Err(e) => Err(e),
            Ok(entries) => {
                let mut out: Vec<ScanEntry> = Vec::new();
                let mut i: usize = 0;
                while i < entries.len()
                    invariant
                        i <= entries@.len(),
                        out@.len() == i,
                        forall|j: int|
                            0 <= j < i ==> #[trigger] out@[j]@ == scan_entry_of(
                                (entries@[j].0, entries@[j].1@),
                            ),
                    decreases entries@.len() - i,
                {
                    let record = &entries[i].1;
                    out.push(
                        ScanEntry {
                            key: record.key.clone(),
                            pointer: entries[i].0,
                            timestamp: record.timestamp,
                            tombstone: record.tombstone,
                        },
                    );
                    i = i + 1;
                }
                assert(scan_view(out@) =~= entries_view(entries@).map_values(
                    |e: (LogPointer, RecordView)| scan_entry_of(e),
                ));
                Ok(out)
            },
        }
    }

    /// Makes what was appended durable.
    fn sync(&mut self) -> (r: Result<(), Error>)
        requires
            old(self).inv(),
        ensures
            final(self).inv(),
            final(self).records() == old(self).records(),
            final(self).log_entries() == old(self).log_entries(),
            old(self).reliable() ==> final(self).reliable() && r is Ok,
            r is Ok ==> final(self).synced_len() == final(self).log_entries().len(),
            forall|ops: Seq<LogOp>| #[trigger] final(self).allows(ops) == old(self).allows(ops),
            final(self).segment_ids() == old(self).segment_ids(),
            final(self).hint_ids() == old(self).hint_ids(),
    ;

    /// Replaces the whole log by the given records, in order, and returns their new pointers.
    ///
    /// On failure every record that could be read before can still be read.
    fn compact(&mut self, records: &[Record]) -> (r: Result<CompactionResult, Error>)
        requires
            old(self).inv(),
        ensures
            final(self).inv(),
            old(self).reliable() ==> final(self).reliable(),
            old(self).reliable() && old(self).allows(seq![LogOp::Compact]) && (forall|i: int|
                0 <= i < records@.len() ==> held(old(self).records(), #[trigger] records@[i]@))
                ==> r is Ok,
            match r {
                Ok(c) => {
                    &&& c.pointers@.len() == records@.len()
                    &&& final(self).log_entries() == compacted_entries(
                        c.pointers@,
                        records@.map_values(|x: Record| x@),
                    )
                    &&& entries_readable(final(self).log_entries(), final(self).records())
                    &&& final(self).synced_len() == final(self).log_entries().len()
                    &&& forall|ops: Seq<LogOp>| #[trigger] final(self).allows(ops) == old(self).allows(
                        seq![LogOp::Compact] + ops,
                    )
                    &&& final(self).segment_ids() == compacted_ids(old(self).segment_ids())
                    &&& final(self).hint_ids() == if forall|i: int|
                        0 <= i < records@.len() ==> !(#[trigger] records@[i]).tombstone {
                        seq![compacted_ids(old(self).segment_ids())[0]]
                    } else {
                        Seq::empty()
                    }
                },
                Err(_) => records_kept(old(self).records(), final(self).records()),
            },
    ;
}

/// The bytes of the name prefix of a segment file: `data_`.
pub open spec fn segment_prefix() -> Seq<u8> {
    seq![0x64u8, 0x61u8, 0x74u8, 0x61u8, 0x5fu8]
}

/// The bytes of the name suffix of a segment file: `.log`.
pub open spec fn segment_suffix() -> Seq<u8> {
    seq![0x2eu8, 0x6cu8, 0x6fu8, 0x67u8]
}

/// Whether `c` is an ASCII decimal digit.
pub open spec fn is_digit(c: u8) -> bool {
    0x30 <= c <= 0x39
}

/// The number that the decimal digits `d` spell.
pub open spec fn decimal_value(d: Seq<u8>) -> nat
    decreases d.len(),
{
    if d.len() == 0 {
        0
    } else {
        decimal_value(d.drop_last()) * 10 + (d.last() - 0x30) as nat
    }
}

/// The digits of a number as Rust's `u64` parsing reads them: `s` without a leading `+`.
pub open spec fn digits_part(s: Seq<u8>) -> Seq<u8> {
    if s.len() > 0 && s[0] == 0x2bu8 {
        s.subrange(1, s.len() as int)
    } else {
        s
    }
}

/// Whether every byte of `d` is a decimal digit.
pub open spec fn all_digits(d: Seq<u8>) -> bool {
    forall|i: int| 0 <= i < d.len() ==> is_digit(#[trigger] d[i])
}

/// The unsigned integer that `s` spells the way Rust's `u64` parsing reads it: an optional
/// `+`, then one or more decimal digits, with a value that fits in 64 bits.
pub open spec fn parse_u64_spec(s: Seq<u8>) -> Option<u64> {
    let d = digits_part(s);
    if d.len() > 0 && all_digits(d) && decimal_value(d) <= u64::MAX {
        Some(decimal_value(d) as u64)
    } else {
        None
    }
}

/// The id that a file named `name` has as a segment: `data_<id>.log`.
pub open spec fn segment_id_of(name: Seq<u8>) -> Option<u64> {
    if name.len() >= 9 && name.subrange(0, 5) == segment_prefix() && name.subrange(
        name.len() - 4,
        name.len() as int,
    ) == segment_suffix() {
        parse_u64_spec(name.subrange(5, name.len() - 4))
    } else {
        None
    }
}

/// Extending digits by one more never makes the number smaller.
proof fn lemma_decimal_value_prefix(d: Seq<u8>, j: int)
    requires
        0 <= j <= d.len(),
    ensures
        decimal_value(d.subrange(0, j)) <= decimal_value(d),
    decreases d.len() - j,
{
    if j < d.len() {
        lemma_decimal_value_prefix(d, j + 1);
        assert(d.subrange(0, j + 1).drop_last() =~= d.subrange(0, j));
    } else {
        assert(d.subrange(0, j) =~= d);
    }
}

/// The name of the segment file with id `n`, `data_<n>.log` with `n` in decimal, is read
/// back as `n`.
pub proof fn lemma_segment_name(n: u64)
    ensures
        segment_id_of(segment_prefix() + crate::render::decimal_of(n as nat) + segment_suffix()) == Some(n),
{
    let d = crate::render::decimal_of(n as nat);
    crate::render::lemma_decimal_of(n as nat);
    let name = segment_prefix() + d + segment_suffix();
    assert(name.subrange(0, 5) =~= segment_prefix());
    assert(name.subrange(name.len() - 4, name.len() as int) =~= segment_suffix());
    assert(name.subrange(5, name.len() - 4) =~= d);
    assert(is_digit(d[0]));
    assert(digits_part(d) == d);
}

/// Reads the digits `d` as a `u64` the way Rust's `u64` parsing does.
fn parse_u64(s: &[u8]) -> (r: Option<u64>)
    ensures
        r == parse_u64_spec(s@),
{
    let start: usize = if s.len() > 0 && s[0] == 0x2b { 1 } else { 0 };
    let ghost d = digits_part(s@);
    assert(d =~= s@.subrange(start as int, s@.len() as int));
    if start == s.len() {
        return None;
    }
    let mut value: u64 = 0;
    let mut i: usize = start;
    while i < s.len()
        invariant
            start <= i <= s@.len(),
            d == s@.subrange(start as int, s@.len() as int),
            d == digits_part(s@),
            d.len() > 0,
            forall|t: int| 0 <= t < i - start ==> is_digit(#[trigger] d[t]),
            value == decimal_value(d.subrange(0, i - start)),
        decreases s@.len() - i,
    {
        let c = s[i];
        let ghost j = i - start;
        assert(d[j] == c);
        assert(d.subrange(0, j + 1).drop_last() =~= d.subrange(0, j));
        if c < 0x30 || c > 0x39 {
            assert(!is_digit(d[j]));
            assert(!all_digits(d));
            assert(parse_u64_spec(s@) is None);
            return None;
        }
        let digit = (c - 0x30) as u64;
        if value > (u64::MAX - digit) / 10 {
            proof {
                assert(value * 10 + digit > u64::MAX) by (nonlinear_arith)
                    requires
                        value > (u64::MAX - digit) / 10,
                        digit <= 9,
                ;
                lemma_decimal_value_prefix(d, j + 1);
                assert(d.subrange(0, j + 1).last() == c);
                assert(decimal_value(d.subrange(0, j + 1)) == value * 10 + digit);
                assert(decimal_value(d) > u64::MAX);
                assert(parse_u64_spec(s@) is None);
            }
            return None;
        }
        proof {
            assert(value * 10 + digit <= u64::MAX) by (nonlinear_arith)
                requires
                    value <= (u64::MAX - digit) / 10,
                    digit <= 9,
            ;
        }
        value = value * 10 + digit;
        proof {
            assert(d.subrange(0, j + 1).last() == c);
        }
        i = i + 1;
    }
    assert(d.subrange(0, i - start) =~= d);
    Some(value)
}

/// The id of the segment file named `name`, if it is one: `data_<id>.log`.
pub fn parse_segment_id(name: &str) -> (r: Option<u64>)
    ensures
        r == segment_id_of(name.spec_bytes()),
{
    let b = name.as_bytes();
    let n = b.len();
    if n < 9 {
        return None;
    }
    if !(b[0] == 0x64 && b[1] == 0x61 && b[2] == 0x74 && b[3] == 0x61 && b[4] == 0x5f) {
        assert(b@.subrange(0, 5) != segment_prefix()) by {
            if b@.subrange(0, 5) == segment_prefix() {
                assert(b@.subrange(0, 5)[0] == b@[0]);
                assert(b@.subrange(0, 5)[1] == b@[1]);
                assert(b@.subrange(0, 5)[2] == b@[2]);
                assert(b@.subrange(0, 5)[3] == b@[3]);
                assert(b@.subrange(0, 5)[4] == b@[4]);
            }
        }
        return None;
    }
    if !(b[n - 4] == 0x2e && b[n - 3] == 0x6c && b[n - 2] == 0x6f && b[n - 1] == 0x67) {
        assert(b@.subrange(n - 4, n as int) != segment_suffix()) by {
            if b@.subrange(n - 4, n as int) == segment_suffix() {
                assert(b@.subrange(n - 4, n as int)[0] == b@[n - 4]);
                assert(b@.subrange(n - 4, n as int)[1] == b@[n - 3]);
                assert(b@.subrange(n - 4, n as int)[2] == b@[n - 2]);
                assert(b@.subrange(n - 4, n as int)[3] == b@[n - 1]);
            }
        }
        return None;
    }
    assert(b@.subrange(0, 5) =~= segment_prefix());
    assert(b@.subrange(n - 4, n as int) =~= segment_suffix());
    parse_u64(vstd::slice::slice_subrange(b, 5, n - 4))
}

/// The segment ids that the file names `names` carry, in the order of the names.
pub open spec fn ids_in(names: Seq<&str>) -> Seq<u64>
    decreases names.len(),
{
    if names.len() == 0 {
        Seq::empty()
    } else {
        let front = ids_in(names.drop_last());
        match segment_id_of(names.last().spec_bytes()) {
            Some(id) => front.push(id),
            None => front,
        }
    }
}

/// Whether `s` is in ascending order.
pub open spec fn ascending(s: Seq<u64>) -> bool {
    forall|i: int, j: int| 0 <= i < j < s.len() ==> s[i] <= s[j]
}

/// Sorts `ids` in ascending order with `slice::sort_unstable`.
///
/// Trusted: the result is taken to be an ascending rearrangement of the same ids, as the
/// documentation of the sort states.
#[verifier::external_body]
fn sort_ids(ids: &mut Vec<u64>)
    ensures
        ascending(final(ids)@),
        final(ids)@.to_multiset() == old(ids)@.to_multiset(),
{
    ids.sort_unstable();
}

/// The ids of the segment files among the file names `names`, in ascending order: the
/// order in which the segments were written.
pub fn segment_ids(names: &[&str]) -> (ids: Vec<u64>)
    ensures
        ascending(ids@),
        forall|a: int, b: int| 0 <= a < b < ids@.len() ==> ids@[a] <= ids@[b],
        ids@.to_multiset() == ids_in(names@).to_multiset(),
        forall|i: int|
            0 <= i < names@.len() && #[trigger] segment_id_of(names@[i].spec_bytes()) is Some
                ==> ids@.contains(segment_id_of(names@[i].spec_bytes())->0),
        forall|j: int|
            0 <= j < ids@.len() ==> exists|i: int|
                0 <= i < names@.len() && segment_id_of(names@[i].spec_bytes()) == Some(#[trigger] ids@[j]),
{
    broadcast use vstd::seq_lib::to_multiset_contains;

    let mut ids: Vec<u64> = Vec::new();
    let mut i: usize = 0;
    while i < names.len()
        invariant
            i <= names@.len(),
            ids@ == ids_in(names@.subrange(0, i as int)),
            forall|k: int|
                0 <= k < i && #[trigger] segment_id_of(names@[k].spec_bytes()) is Some ==> ids@.contains(
                    segment_id_of(names@[k].spec_bytes())->0,
                ),
            forall|j: int|
                0 <= j < ids@.len() ==> exists|k: int|
                    0 <= k < i && segment_id_of(names@[k].spec_bytes()) == Some(#[trigger] ids@[j]),
        decreases names@.len() - i,
    {
        assert(names@.subrange(0, i + 1).drop_last() =~= names@.subrange(0, i as int));
        let ghost before = ids@;
        if let Some(id) = parse_segment_id(names[i]) {
            ids.push(id);
            assert(ids@[before.len() as int] == id);
        }
        assert forall|k: int|
            0 <= k < i + 1 && #[trigger] segment_id_of(names@[k].spec_bytes()) is Some implies ids@.contains(
                segment_id_of(names@[k].spec_bytes())->0,
            ) by {
            if k < i {
                let j = choose|j: int| 0 <= j < before.len() && before[j] == segment_id_of(names@[k].spec_bytes())->0;
                assert(ids@[j] == before[j]);
            } else {
                assert(ids@[before.len() as int] == segment_id_of(names@[k].spec_bytes())->0);
            }
        }
        assert forall|j: int| 0 <= j < ids@.len() implies exists|k: int|
            0 <= k < i + 1 && segment_id_of(names@[k].spec_bytes()) == Some(#[trigger] ids@[j]) by {
            if j < before.len() {
                assert(ids@[j] == before[j]);
            } else {
                assert(segment_id_of(names@[i as int].spec_bytes()) == Some(ids@[j]));
            }
        }
        i = i + 1;
    }
    assert(names@.subrange(0, i as int) =~= names@);
    let ghost unsorted = ids@;
    sort_ids(&mut ids);
    assert forall|i: int|
        0 <= i < names@.len() && #[trigger] segment_id_of(names@[i].spec_bytes()) is Some implies ids@.contains(
            segment_id_of(names@[i].spec_bytes())->0,
        ) by {
        let x = segment_id_of(names@[i].spec_bytes())->0;
        assert(unsorted.contains(x));
        assert(unsorted.to_multiset().count(x) > 0);
        assert(ids@.to_multiset().count(x) > 0);
    }
    assert forall|j: int| 0 <= j < ids@.len() implies exists|i: int|
        0 <= i < names@.len() && segment_id_of(names@[i].spec_bytes()) == Some(#[trigger] ids@[j]) by {
        let x = ids@[j];
        assert(ids@.contains(x));
        assert(ids@.to_multiset().count(x) > 0);
        assert(unsorted.to_multiset().count(x) > 0);
        assert(unsorted.contains(x));
        let t = choose|t: int| 0 <= t < unsorted.len() && unsorted[t] == x;
        assert(exists|k: int| 0 <= k < names@.len() && segment_id_of(names@[k].spec_bytes()) == Some(unsorted[t]));
    }
    ids
}

/// `ids` without `x`, in order.
pub open spec fn without(ids: Seq<u64>, x: u64) -> Seq<u64>
    decreases ids.len(),
{
    if ids.len() == 0 {
        Seq::empty()
    } else {
        let front = without(ids.drop_last(), x);
        if ids.last() == x {
            front
        } else {
            front.push(ids.last())
        }
    }
}

/// The segments that a compaction into the segment `compacted_id` supersedes, so that they
/// and their hint segments are removed: all of `ids` but the compacted one.
pub fn superseded_ids(ids: &[u64], compacted_id: u64) -> (out: Vec<u64>)
    ensures
        out@ == without(ids@, compacted_id),
        !out@.contains(compacted_id),
        forall|i: int| 0 <= i < ids@.len() && ids@[i] != compacted_id ==> out@.contains(#[trigger] ids@[i]),
        forall|j: int| 0 <= j < out@.len() ==> ids@.contains(#[trigger] out@[j]),
{
    let mut out: Vec<u64> = Vec::new();
    let mut i: usize = 0;
    while i < ids.len()
        invariant
            i <= ids@.len(),
            out@ == without(ids@.subrange(0, i as int), compacted_id),
            forall|j: int| 0 <= j < out@.len() ==> #[trigger] out@[j] != compacted_id,
            forall|k: int| 0 <= k < i && ids@[k] != compacted_id ==> out@.contains(#[trigger] ids@[k]),
            forall|j: int| 0 <= j < out@.len() ==> exists|k: int| 0 <= k < i && ids@[k] == #[trigger] out@[j],
        decreases ids@.len() - i,
    {
        assert(ids@.subrange(0, i + 1).drop_last() =~= ids@.subrange(0, i as int));
        let ghost before = out@;
        if ids[i] != compacted_id {
            out.push(ids[i]);
            assert(out@[before.len() as int] == ids@[i as int]);
        }
        assert forall|k: int| 0 <= k < i + 1 && ids@[k] != compacted_id implies out@.contains(#[trigger] ids@[k]) by {
            if k < i {
                let j = choose|j: int| 0 <= j < before.len() && before[j] == ids@[k];
                assert(out@[j] == ids@[k]);
            } else {
                assert(out@[before.len() as int] == ids@[k]);
            }
        }
        assert forall|j: int| 0 <= j < out@.len() implies exists|k: int| 0 <= k < i + 1 && ids@[k] == #[trigger] out@[j] by {
            if j < before.len() {
                assert(out@[j] == before[j]);
            } else {
                assert(out@[j] == ids@[i as int]);
            }
        }
        i = i + 1;
    }
    assert(ids@.subrange(0, i as int) =~= ids@);
    assert forall|j: int| 0 <= j < out@.len() implies ids@.contains(#[trigger] out@[j]) by {
        let k = choose|k: int| 0 <= k < ids@.len() && ids@[k] == out@[j];
    }
    out
}

} // verus!
