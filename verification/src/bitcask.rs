use vstd::prelude::*;
use vstd::slice::slice_to_vec;
use vstd::string::StringExecFns;

use crate::codec::bytes_equal;
use crate::error::Error;
use crate::keydir::{lists_contents, lists_keys, HashMapKeyDir, KeyDir, KeyDirEntry};
use crate::record::{Record, RecordView};
use crate::storage::{
    compacted_entries, compacted_ids, records_kept, LogOp, scan_entry_of, scan_view, CompactionResult, LogPointer, LogStore,
    ScanEntryView,
};

verus! {

/// Database statistics.
#[derive(Debug, Clone)]
pub struct Stats {
    pub num_keys: usize,
}

/// How a store behaves.
#[derive(Debug, Clone, Copy)]
pub struct Options {
    /// Size beyond which a segment is closed and a new one begun.
    pub max_segment_size: u64,
    /// Whether each write is made durable before it returns.
    pub sync_on_write: bool,
}

impl Default for Options {
    fn default() -> (o: Self)
        ensures
            o.max_segment_size == 1024 * 1024,
            o.sync_on_write,
    {
        Options { max_segment_size: 1048576u64, sync_on_write: true }
    }
}

/// The key directory that replaying `es` in order builds: a live entry sets its key,
/// a tombstone removes it.
pub open spec fn replay(es: Seq<ScanEntryView>) -> Map<Seq<u8>, KeyDirEntry>
    decreases es.len(),
{
    if es.len() == 0 {
        Map::empty()
    } else {
        let m = replay(es.drop_last());
        let e = es.last();
        if e.tombstone {
            m.remove(e.key)
        } else {
            m.insert(e.key, KeyDirEntry { pointer: e.pointer, timestamp: e.timestamp })
        }
    }
}

/// Whether `es[j]` is the last of the entries `es` with key `k`.
pub open spec fn last_entry_of(es: Seq<ScanEntryView>, k: Seq<u8>, j: int) -> bool {
    &&& 0 <= j < es.len()
    &&& es[j].key == k
    &&& forall|t: int| j < t < es.len() ==> es[t].key != k
}

/// Replaying scan entries leaves each key as its last entry says: set to that entry's
/// pointer and time stamp when it is a live record, absent when it is a tombstone, and
/// absent when no entry has the key.
pub proof fn lemma_replay_last(es: Seq<ScanEntryView>, k: Seq<u8>)
    ensures
        forall|j: int|
            #[trigger] last_entry_of(es, k, j) ==> {
                &&& replay(es).contains_key(k) == !es[j].tombstone
                &&& !es[j].tombstone ==> replay(es)[k] == (KeyDirEntry {
                    pointer: es[j].pointer,
                    timestamp: es[j].timestamp,
                })
            },
        (forall|t: int| 0 <= t < es.len() ==> es[t].key != k) ==> !replay(es).contains_key(k),
    decreases es.len(),
{
    if es.len() > 0 {
        let f = es.drop_last();
        let n = es.len() - 1;
        lemma_replay_last(f, k);
        assert forall|j: int| #[trigger] last_entry_of(es, k, j) implies {
            &&& replay(es).contains_key(k) == !es[j].tombstone
            &&& !es[j].tombstone ==> replay(es)[k] == (KeyDirEntry {
                pointer: es[j].pointer,
                timestamp: es[j].timestamp,
            })
        } by {
            if j < n {
                assert(es[n].key != k);
                assert(f[j] == es[j]);
                assert(last_entry_of(f, k, j)) by {
                    assert forall|t: int| j < t < f.len() implies f[t].key != k by {
                        assert(f[t] == es[t]);
                        assert(es[t].key != k);
                    }
                }
            }
        }
        if forall|t: int| 0 <= t < es.len() ==> es[t].key != k {
            assert forall|t: int| 0 <= t < f.len() implies f[t].key != k by {
                assert(f[t] == es[t]);
            }
            assert(es[n].key != k);
        }
    }
}

/// The scan entries of a store's log.
pub open spec fn log_scan<L: LogStore>(log: L) -> Seq<ScanEntryView> {
    log.log_entries().map_values(|e: (LogPointer, RecordView)| scan_entry_of(e))
}

/// The key-value map that rebuilding from a store recovers: each key that replaying the
/// log leaves, with the value of the record it points to.
pub open spec fn recovered_view<L: LogStore>(log: L) -> Map<Seq<u8>, Seq<u8>> {
    replay(log_scan(log)).map_values(|e: KeyDirEntry| log.records()[e.pointer].value)
}

/// Whether the log of `after` is that of `before` with one more record, of `key` with
/// `value` and the tombstone flag `tombstone`, and was synced after it exactly when the
/// options ask for every write to be made durable.
pub open spec fn write_logged<L: LogStore, K: KeyDir>(
    before: Bitcask<L, K>,
    after: Bitcask<L, K>,
    key: Seq<u8>,
    value: Seq<u8>,
    tombstone: bool,
) -> bool {
    let es = after.log_store().log_entries();
    &&& es.len() == before.log_store().log_entries().len() + 1
    &&& es.drop_last() == before.log_store().log_entries()
    &&& es.last().1.key == key
    &&& es.last().1.value == value
    &&& es.last().1.tombstone == tombstone
    &&& before.options().sync_on_write ==> after.log_store().synced_len() == es.len()
    &&& !before.options().sync_on_write ==> after.log_store().synced_len()
        == before.log_store().synced_len()
    &&& forall|ops: Seq<LogOp>| #[trigger] after.log_store().allows(ops) == before.log_store().allows(
        seq![LogOp::Append(es.last().1)] + ops,
    )
    &&& after.log_store().hint_ids() == before.log_store().hint_ids()
    &&& after.log_store().segment_ids() == before.log_store().segment_ids() || after.log_store().segment_ids()
        == before.log_store().segment_ids().push((before.log_store().segment_ids().last() + 1) as u64)
}

/// Whether `after` is `before` merged: its log holds exactly its live records, in one
/// compacted segment with a hint segment beside it and a new, empty active segment after
/// it, and what its log allows next is what `before`'s log allows after a compaction.
pub open spec fn merged<L: LogStore, K: KeyDir>(before: Bitcask<L, K>, after: Bitcask<L, K>) -> bool {
    &&& log_compacted(after)
    &&& forall|ops: Seq<LogOp>| #[trigger] after.log_store().allows(ops) == before.log_store().allows(
        seq![LogOp::Compact] + ops,
    )
    &&& after.log_store().segment_ids() == compacted_ids(before.log_store().segment_ids())
    &&& after.log_store().hint_ids() == seq![compacted_ids(before.log_store().segment_ids())[0]]
}

/// Whether the log of `b` holds exactly its live records, made durable: one entry per
/// stored key, each the record that the directory points to, with the stored value.
pub open spec fn log_compacted<L: LogStore, K: KeyDir>(b: Bitcask<L, K>) -> bool {
    let es = b.log_store().log_entries();
    &&& es.len() == b@.len()
    &&& forall|i: int|
        0 <= i < es.len() ==> {
            let e = #[trigger] es[i];
            &&& !e.1.tombstone
            &&& b.directory().contains_key(e.1.key)
            &&& b.directory()[e.1.key] == (KeyDirEntry { pointer: e.0, timestamp: e.1.timestamp })
            &&& b@.contains_key(e.1.key)
            &&& b@[e.1.key] == e.1.value
        }
    &&& forall|i: int, j: int| 0 <= i < j < es.len() ==> (#[trigger] es[i]).1.key != (#[trigger] es[j]).1.key
    &&& b.log_store().synced_len() == es.len()
}

/// A write to a store, as far as the stored map is concerned.
pub ghost enum StoreOp {
    Put(Seq<u8>, Seq<u8>),
    Delete(Seq<u8>),
    Merge,
}

/// The map that `op` leaves of `m`.
pub open spec fn apply_op(m: Map<Seq<u8>, Seq<u8>>, op: StoreOp) -> Map<Seq<u8>, Seq<u8>> {
    match op {
        StoreOp::Put(k, v) => m.insert(k, v),
        StoreOp::Delete(k) => m.remove(k),
        StoreOp::Merge => m,
    }
}

/// The map that `ops`, one after the other, leave of `m`.
pub open spec fn apply_ops(m: Map<Seq<u8>, Seq<u8>>, ops: Seq<StoreOp>) -> Map<Seq<u8>, Seq<u8>>
    decreases ops.len(),
{
    if ops.len() == 0 {
        m
    } else {
        apply_op(apply_ops(m, ops.drop_last()), ops.last())
    }
}

/// The last write of `k` in `ops`: `Some(Some(v))` for a put of `v`, `Some(None)` for a
/// delete, and `None` when `ops` does not write `k`.
pub open spec fn last_write(ops: Seq<StoreOp>, k: Seq<u8>) -> Option<Option<Seq<u8>>>
    decreases ops.len(),
{
    if ops.len() == 0 {
        None
    } else {
        match ops.last() {
            StoreOp::Put(k2, v) => if k2 == k {
                Some(Some(v))
            } else {
                last_write(ops.drop_last(), k)
            },
            StoreOp::Delete(k2) => if k2 == k {
                Some(None)
            } else {
                last_write(ops.drop_last(), k)
            },
            StoreOp::Merge => last_write(ops.drop_last(), k),
        }
    }
}

/// Whether `after` is what a successful `op` made of `before`: a consistent store holding
/// the map `op` leaves, whose log still replays to it if `before`'s did (and after a merge
/// always).
pub open spec fn op_done<L: LogStore, K: KeyDir>(before: Bitcask<L, K>, after: Bitcask<L, K>, op: StoreOp) -> bool {
    &&& after.wf()
    &&& after@ == apply_op(before@, op)
    &&& before.durable() ==> after.durable()
    &&& op is Merge ==> after.durable()
}

/// After the writes `ops`, each the last of its key, a key holds the value of its last
/// put, is gone after a delete, and is as it was when `ops` do not write it.
pub proof fn lemma_last_write(m: Map<Seq<u8>, Seq<u8>>, ops: Seq<StoreOp>, k: Seq<u8>)
    ensures
        match last_write(ops, k) {
            Some(Some(v)) => apply_ops(m, ops).contains_key(k) && apply_ops(m, ops)[k] == v,
            Some(None) => !apply_ops(m, ops).contains_key(k),
            None => apply_ops(m, ops).contains_key(k) == m.contains_key(k) && (m.contains_key(k)
                ==> apply_ops(m, ops)[k] == m[k]),
        },
    decreases ops.len(),
{
    if ops.len() > 0 {
        lemma_last_write(m, ops.drop_last(), k);
    }
}

/// A run of successful writes: `bs[i + 1]` is what `ops[i]` made of `bs[i]`.
pub open spec fn ops_run<L: LogStore, K: KeyDir>(bs: Seq<Bitcask<L, K>>, ops: Seq<StoreOp>) -> bool {
    &&& bs.len() == ops.len() + 1
    &&& forall|i: int| 0 <= i < ops.len() ==> op_done(#[trigger] bs[i], bs[i + 1], ops[i])
}

/// After a run of successful writes the store holds the map that the writes leave of the
/// first map, and its log still replays to it if the first store's did: reopening the log
/// then recovers that map.
pub proof fn lemma_ops_run<L: LogStore, K: KeyDir>(bs: Seq<Bitcask<L, K>>, ops: Seq<StoreOp>)
    requires
        bs[0].wf(),
        ops_run(bs, ops),
    ensures
        bs.last().wf(),
        bs.last()@ == apply_ops(bs[0]@, ops),
        bs[0].durable() ==> bs.last().durable(),
        bs[0].durable() ==> recovered_view(bs.last().log_store()) == apply_ops(bs[0]@, ops),
    decreases ops.len(),
{
    if ops.len() > 0 {
        let n = ops.len() - 1;
        let front = bs.drop_last();
        assert forall|i: int| 0 <= i < ops.drop_last().len() implies op_done(
            #[trigger] front[i],
            front[i + 1],
            ops.drop_last()[i],
        ) by {
            assert(op_done(bs[i], bs[i + 1], ops[i]));
        }
        lemma_ops_run(front, ops.drop_last());
        assert(op_done(bs[n], bs[n + 1], ops[n]));
        assert(front.last() == bs[n]);
    }
    if bs[0].durable() {
        bs.last().lemma_durable_view();
    }
}

/// A Bitcask store: a log of records and a directory from each live key to its latest record.
pub struct Bitcask<L: LogStore, K: KeyDir> {
    log: L,
    keydir: K,
    options: Options,
}

impl<L: LogStore, K: KeyDir> View for Bitcask<L, K> {
    type V = Map<Seq<u8>, Seq<u8>>;

    /// The stored key-value map: each key of the directory with the value of its record.
    closed spec fn view(&self) -> Map<Seq<u8>, Seq<u8>> {
        self.keydir.contents().map_values(|e: KeyDirEntry| self.log.records()[e.pointer].value)
    }
}

impl<L: LogStore> Bitcask<L, HashMapKeyDir> {
    /// Opens a store on `log` with the default options, rebuilding its directory from the log.
    pub fn open(log: L) -> (r: Result<Self, Error>)
        requires
            log.inv(),
        ensures
            r matches Ok(b) ==> {
                &&& b.wf()
                &&& b.durable()
                &&& b.log_store() == log
                &&& b@ == recovered_view(log)
                &&& b.options() == (Options { max_segment_size: 1048576u64, sync_on_write: true })
            },
            log.reliable() ==> r is Ok,
    {
        Self::open_with_options(log, Options::default())
    }

    /// Opens a store on `log` with `options`, rebuilding its directory from the log.
    pub fn open_with_options(log: L, options: Options) -> (r: Result<Self, Error>)
        requires
            log.inv(),
        ensures
            r matches Ok(b) ==> {
                &&& b.wf()
                &&& b.durable()
                &&& b.log_store() == log
                &&& b@ == recovered_view(log)
                &&& b.options() == options
            },
            log.reliable() ==> r is Ok,
    {
        Self::build(log, HashMapKeyDir::new(), options)
    }
}

impl<L: LogStore, K: KeyDir> Bitcask<L, K> {
    /// The log underneath.
    pub closed spec fn log_store(&self) -> L {
        self.log
    }

    /// The key directory: for each stored key, where its latest record lives and when it
    /// was written.
    pub closed spec fn directory(&self) -> Map<Seq<u8>, KeyDirEntry> {
        self.keydir.contents()
    }

    /// The options in force.
    pub closed spec fn options(&self) -> Options {
        self.options
    }

    /// Whether the store is consistent: log and directory are, and every key of the
    /// directory points to a readable live record of that key.
    pub closed spec fn wf(&self) -> bool {
        &&& self.log.inv()
        &&& self.keydir.inv()
        &&& self.keydir.contents().dom().finite()
        &&& forall|k: Seq<u8>| #[trigger]
            self.keydir.contents().contains_key(k) ==> {
                let p = self.keydir.contents()[k].pointer;
                &&& self.log.records().contains_key(p)
                &&& self.log.records()[p].key == k
                &&& !self.log.records()[p].tombstone
            }
    }

    /// Whether the directory is the one that replaying the log rebuilds, so that
    /// reopening the log recovers the same key-value map.
    pub closed spec fn durable(&self) -> bool {
        self.keydir.contents() == replay(log_scan(self.log))
    }

    /// A store whose log kept every record it could read, and whose directory is unchanged,
    /// stays consistent and holds the same map.
    proof fn lemma_records_kept(old_b: &Self, new_b: &Self)
        requires
            old_b.wf(),
            new_b.log.inv(),
            new_b.keydir == old_b.keydir,
            records_kept(old_b.log.records(), new_b.log.records()),
        ensures
            new_b.wf(),
            new_b@ == old_b@,
    {
        assert forall|k: Seq<u8>| #[trigger] new_b.keydir.contents().contains_key(k) implies {
            let p = new_b.keydir.contents()[k].pointer;
            &&& new_b.log.records().contains_key(p)
            &&& new_b.log.records()[p] == old_b.log.records()[p]
        } by {
            let p = new_b.keydir.contents()[k].pointer;
            assert(old_b.keydir.contents().contains_key(k));
            assert(old_b.log.records().contains_key(p));
        }
        assert(new_b@ =~= old_b@);
    }

    /// A consistent store holds finitely many keys.
    pub proof fn lemma_view_finite(&self)
        requires
            self.wf(),
        ensures
            self@.dom().finite(),
    {
        self.lemma_view_dom();
    }

    /// A consistent store holds exactly the keys of its directory, finitely many.
    proof fn lemma_view_dom(&self)
        requires
            self.wf(),
        ensures
            self@.dom() == self.keydir.contents().dom(),
            self@.dom().finite(),
            self@.len() == self.keydir.contents().len(),
    {
        assert(self@.dom() =~= self.keydir.contents().dom());
    }

    /// Builds a store on `log` and `keydir`, rebuilding the directory from the log.
    pub fn with_store(log: L, keydir: K) -> (r: Result<Self, Error>)
        requires
            log.inv(),
            keydir.inv(),
        ensures
            r matches Ok(b) ==> {
                &&& b.wf()
                &&& b.durable()
                &&& b.log_store() == log
                &&& b@ == recovered_view(log)
                &&& b.options() == (Options { max_segment_size: 1048576u64, sync_on_write: true })
            },
            log.reliable() ==> r is Ok,
    {
        Self::build(log, keydir, Options::default())
    }

    /// Builds a store on `log` and `keydir` with `options`, rebuilding the directory from the log.
    fn build(log: L, keydir: K, options: Options) -> (r: Result<Self, Error>)
        requires
            log.inv(),
            keydir.inv(),
        ensures
            r matches Ok(b) ==> {
                &&& b.wf()
                &&& b.durable()
                &&& b.log_store() == log
                &&& b@ == recovered_view(log)
                &&& b.options() == options
            },
            log.reliable() ==> r is Ok,
    {
        let mut store = Bitcask { log, keydir, options };
        store.rebuild_keydir()?;
        proof {
            store.lemma_durable_view();
        }
        Ok(store)
    }

    /// A durable store holds what rebuilding from its log recovers.
    pub proof fn lemma_durable_view(&self)
        requires
            self.wf(),
            self.durable(),
        ensures
            self@ == recovered_view(self.log_store()),
    {
        assert(self@ =~= recovered_view(self.log_store()));
    }

    /// Writes `value` under `key`.
    pub fn put(&mut self, key: &[u8], value: &[u8]) -> (r: Result<(), Error>)
        requires
            old(self).wf(),
            old(self)@.contains_key(key@) || old(self)@.len() < usize::MAX,
        ensures
            final(self).wf(),
            final(self).options() == old(self).options(),
            match r {
                Ok(()) => {
                    &&& final(self)@ == old(self)@.insert(key@, value@)
                    &&& old(self).durable() ==> final(self).durable()
                },
                Err(_) => final(self)@ == old(self)@,
            },
            old(self).log_store().reliable() && (forall|t: u64|
                #[trigger] old(self).log_store().allows(
                    seq![LogOp::Append(RecordView { key: key@, value: value@, timestamp: t, tombstone: false })],
                )) ==> r is Ok,
            old(self).log_store().reliable() ==> final(self).log_store().reliable(),
            r is Err ==> final(self).directory() == old(self).directory(),
            r is Ok ==> {
                let last = final(self).log_store().log_entries().last();
                &&& write_logged(*old(self), *final(self), key@, value@, false)
                &&& op_done(*old(self), *final(self), StoreOp::Put(key@, value@))
                &&& final(self).directory() == old(self).directory().insert(
                    key@,
                    KeyDirEntry { pointer: last.0, timestamp: last.1.timestamp },
                )
            },
    {
        proof {
            self.lemma_view_dom();
        }
        let key = slice_to_vec(key);
        let value = slice_to_vec(value);
        let record = Record::new_put(key.clone(), value);
        let ghost old_records = self.log.records();
        let ghost old_entries = self.log.log_entries();
        let pointer = match self.log.append(&record) {
            Ok(p) => p,
            Err(e) => {
                proof {
                    Self::lemma_records_kept(old(self), self);
                }
                return Err(e);
            },
        };
        if self.options.sync_on_write {
            match self.log.sync() {
                Ok(()) => {},
                Err(e) => {
                    proof {
                        Self::lemma_records_kept(old(self), self);
                    }
                    return Err(e);
                },
            }
        }
        let ghost mid_keydir = self.keydir.contents();
        self.keydir.insert(key, KeyDirEntry { pointer, timestamp: record.timestamp });
        assert(self@ =~= old(self)@.insert(key@, value@));
        proof {
            let e = (pointer, record@);
            assert(log_scan(self.log) =~= log_scan(old(self).log).push(scan_entry_of(e)));
            assert(log_scan(self.log).drop_last() =~= log_scan(old(self).log));
            assert(self.log.log_entries().drop_last() =~= old(self).log.log_entries());
            assert(self.log.log_entries().last() == e);
            assert(self.directory() =~= old(self).directory().insert(
                key@,
                KeyDirEntry { pointer: e.0, timestamp: e.1.timestamp },
            ));
        }
        Ok(())
    }

    /// The value stored under `key`, if any.
    pub fn get(&self, key: &[u8]) -> (r: Result<Option<Vec<u8>>, Error>)
        requires
            self.wf(),
        ensures
            match r {
                Ok(Some(v)) => self@.contains_key(key@) && v@ == self@[key@],
                Ok(None) => !self@.contains_key(key@),
                Err(_) => self@.contains_key(key@),
            },
            self.log_store().reliable() ==> r is Ok,
    {
        let entry = match self.keydir.get(key) {
            Some(entry) => entry,
            None => return Ok(None),
        };
        let record = self.log.read(&entry.pointer)?;
        if !bytes_equal(record.key.as_slice(), key) {
            return Err(Error::Corrupt(String::from_str("key mismatch")));
        }
        if record.tombstone {
            return Ok(None);
        }
        Ok(Some(record.value))
    }

    /// Deletes `key`; tells whether it was stored.
    pub fn delete(&mut self, key: &[u8]) -> (r: Result<bool, Error>)
        requires
            old(self).wf(),
        ensures
            final(self).wf(),
            final(self).options() == old(self).options(),
            match r {
                Ok(b) => {
                    &&& b == old(self)@.contains_key(key@)
                    &&& final(self)@ == old(self)@.remove(key@)
                    &&& old(self).durable() ==> final(self).durable()
                },
                Err(_) => final(self)@ == old(self)@,
            },
            old(self).log_store().reliable() && (forall|t: u64|
                #[trigger] old(self).log_store().allows(
                    seq![LogOp::Append(RecordView { key: key@, value: Seq::empty(), timestamp: t, tombstone: true })],
                )) ==> r is Ok,
            old(self).log_store().reliable() ==> final(self).log_store().reliable(),
            r is Err ==> final(self).directory() == old(self).directory(),
            r is Ok ==> {
                &&& write_logged(*old(self), *final(self), key@, Seq::empty(), true)
                &&& op_done(*old(self), *final(self), StoreOp::Delete(key@))
                &&& final(self).directory() == old(self).directory().remove(key@)
            },
    {
        let key = slice_to_vec(key);
        let record = Record::new_delete(key.clone());
        match self.log.append(&record) {
            Ok(_) => {},
            Err(e) => {
                proof {
                    Self::lemma_records_kept(old(self), self);
                }
                return Err(e);
            },
        }
        if self.options.sync_on_write {
            match self.log.sync() {
                Ok(()) => {},
                Err(e) => {
                    proof {
                        Self::lemma_records_kept(old(self), self);
                    }
                    return Err(e);
                },
            }
        }
        let removed = self.keydir.remove(key.as_slice());
        assert(self@ =~= old(self)@.remove(key@));
        proof {
            assert(log_scan(self.log).drop_last() =~= log_scan(old(self).log));
            assert(self.log.log_entries().drop_last() =~= old(self).log.log_entries());
            assert(self.log.log_entries().last().1 == record@);
            assert(record@.value =~= Seq::<u8>::empty());
            assert(self.directory() =~= old(self).directory().remove(key@));
        }
        Ok(removed)
    }

    /// Rewrites the live records into a fresh compacted log, keeping the stored map.
    pub fn merge(&mut self) -> (r: Result<(), Error>)
        requires
            old(self).wf(),
        ensures
            final(self).wf(),
            final(self).options() == old(self).options(),
            final(self)@ == old(self)@,
            r is Ok ==> final(self).durable(),
            old(self).log_store().reliable() && old(self).log_store().allows(seq![LogOp::Compact]) ==> r is Ok,
            old(self).log_store().reliable() ==> final(self).log_store().reliable(),
            r is Err ==> final(self).directory() == old(self).directory(),
            r is Ok ==> merged(*old(self), *final(self)),
            r is Ok ==> op_done(*old(self), *final(self), StoreOp::Merge),
    {
        let entries = self.keydir.entries();
        let mut records: Vec<Record> = Vec::new();
        let mut i: usize = 0;
        while i < entries.len()
            invariant
                self == old(self),
                self.wf(),
                i <= entries@.len(),
                lists_contents(entries@, self.keydir.contents()),
                records@.len() == i,
                forall|j: int|
                    0 <= j < i ==> {
                        &&& (#[trigger] records@[j])@ == self.log.records()[self.keydir.contents()[entries@[j].0@].pointer]
                        &&& records@[j].key@ == entries@[j].0@
                        &&& !records@[j].tombstone
                    },
            decreases entries@.len() - i,
        {
            proof {
                let k = entries@[i as int].0@;
                assert(self.keydir.contents().contains_key(k));
                assert(self.log.records().contains_key(self.keydir.contents()[k].pointer));
            }
            let record = self.log.read(&entries[i].1.pointer)?;
            if !bytes_equal(record.key.as_slice(), entries[i].0.as_slice()) {
                return Err(Error::Corrupt(String::from_str("key mismatch")));
            }
            if !record.tombstone {
                records.push(record);
            }
            i = i + 1;
        }
        let ghost recs = records@.map_values(|x: Record| x@);
        let ghost old_keydir = self.keydir.contents();
        let CompactionResult { pointers } = match self.log.compact(records.as_slice()) {
            Ok(c) => c,
            Err(e) => {
                proof {
                    Self::lemma_records_kept(old(self), self);
                }
                return Err(e);
            },
        };
        if pointers.len() != records.len() {
            return Err(Error::Corrupt(String::from_str("compaction mismatch")));
        }
        let ghost zs = log_scan(self.log);
        let ghost compacted_log = self.log;
        proof {
            assert(self.log.log_entries() == compacted_entries(pointers@, recs));
        }
        self.keydir.clear();
        let mut j: usize = 0;
        while j < records.len()
            invariant
                self.log.inv(),
                self.log == compacted_log,
                self.keydir.inv(),
                self.options == old(self).options,
                j <= records@.len(),
                pointers@.len() == records@.len(),
                records@.len() == entries@.len(),
                recs == records@.map_values(|x: Record| x@),
                zs == log_scan(self.log),
                self.log.log_entries() == compacted_entries(pointers@, recs),
                forall|t: int|
                    0 <= t < entries@.len() ==> {
                        &&& (#[trigger] records@[t])@ == old(self).log.records()[old_keydir[entries@[t].0@].pointer]
                        &&& records@[t].key@ == entries@[t].0@
                        &&& !records@[t].tombstone
                    },
                forall|t: int|
                    0 <= t < self.log.log_entries().len() ==> {
                        &&& #[trigger] self.log.records().contains_key(self.log.log_entries()[t].0)
                        &&& self.log.records()[self.log.log_entries()[t].0] == self.log.log_entries()[t].1
                    },
                lists_contents(entries@, old_keydir),
                self.keydir.contents() == replay(zs.take(j as int)),
                self.keydir.contents().dom().finite(),
                self.keydir.contents().len() <= j,
                forall|t: int|
                    0 <= t < j ==> #[trigger] self.keydir.contents().contains_key(entries@[t].0@)
                        && self.keydir.contents()[entries@[t].0@].pointer == pointers@[t]
                        && self.keydir.contents()[entries@[t].0@].timestamp == records@[t].timestamp,
                forall|k: Seq<u8>| #[trigger]
                    self.keydir.contents().contains_key(k) ==> exists|t: int|
                        0 <= t < j && entries@[t].0@ == k,
            decreases records@.len() - j,
        {
            let ghost before = self.keydir.contents();
            self.keydir.insert(
                records[j].key.clone(),
                KeyDirEntry { pointer: pointers[j], timestamp: records[j].timestamp },
            );
            proof {
                assert(zs.take(j + 1).drop_last() =~= zs.take(j as int));
                assert forall|t: int| 0 <= t < j + 1 implies #[trigger] self.keydir.contents().contains_key(entries@[t].0@)
                    && self.keydir.contents()[entries@[t].0@].pointer == pointers@[t]
                    && self.keydir.contents()[entries@[t].0@].timestamp == records@[t].timestamp by {
                    if t < j {
                        assert(entries@[t].0@ != entries@[j as int].0@);
                        assert(before.contains_key(entries@[t].0@));
                    } else {
                        assert(records@[t].key@ == entries@[t].0@);
                    }
                }
            }
            let ghost after = self.keydir.contents();
            j = j + 1;
            assert(forall|t: int|
                0 <= t < j ==> #[trigger] after.contains_key(entries@[t].0@) && after[entries@[t].0@].pointer
                    == pointers@[t] && after[entries@[t].0@].timestamp == records@[t].timestamp);
        }
        assert(zs.take(j as int) =~= zs);
        proof {
            assert forall|k: Seq<u8>| #[trigger] self.keydir.contents().contains_key(k) implies {
                let p = self.keydir.contents()[k].pointer;
                &&& self.log.records().contains_key(p)
                &&& self.log.records()[p].key == k
                &&& !self.log.records()[p].tombstone
            } by {
                let t = choose|t: int| 0 <= t < j && entries@[t].0@ == k;
                assert(self.log.log_entries()[t].0 == pointers@[t]);
            }
            assert(self@.dom() =~= old(self)@.dom());
            assert forall|k: Seq<u8>| #[trigger] self@.contains_key(k) implies self@[k] == old(self)@[k] by {
                let t = choose|t: int| 0 <= t < j && entries@[t].0@ == k;
                assert(self.log.log_entries()[t].0 == pointers@[t]);
            }
            assert(self@ =~= old(self)@);
            let es = self.log.log_entries();
            crate::keydir::lemma_lists_contents_len(entries@, old_keydir);
            old(self).lemma_view_dom();
            assert(es.len() == self@.len());
            assert forall|i: int| 0 <= i < es.len() implies {
                let e = #[trigger] es[i];
                &&& !e.1.tombstone
                &&& self.directory().contains_key(e.1.key)
                &&& self.directory()[e.1.key] == (KeyDirEntry { pointer: e.0, timestamp: e.1.timestamp })
                &&& self@.contains_key(e.1.key)
                &&& self@[e.1.key] == e.1.value
            } by {
                assert(es[i] == (pointers@[i], recs[i]));
                assert(recs[i] == records@[i]@);
                assert(self.keydir.contents().contains_key(entries@[i].0@));
            }
            assert forall|i: int, k: int| 0 <= i < k < es.len() implies (#[trigger] es[i]).1.key != (
            #[trigger] es[k]).1.key by {
                assert(recs[i] == records@[i]@);
                assert(recs[k] == records@[k]@);
                assert(entries@[i].0@ != entries@[k].0@);
            }
        }
        Ok(())
    }

    /// Whether `key` is stored.
    pub fn contains_key(&self, key: &[u8]) -> (b: bool)
        requires
            self.wf(),
        ensures
            b == self@.contains_key(key@),
    {
        self.keydir.get(key).is_some()
    }

    /// The number of stored keys.
    pub fn len(&self) -> (n: usize)
        requires
            self.wf(),
        ensures
            n == self@.len(),
    {
        proof {
            self.lemma_view_dom();
        }
        self.keydir.len()
    }

    /// Whether no key is stored.
    pub fn is_empty(&self) -> (b: bool)
        requires
            self.wf(),
        ensures
            b == (self@.len() == 0),
    {
        proof {
            self.lemma_view_dom();
        }
        self.keydir.is_empty()
    }

    /// Every stored key, in no particular order.
    pub fn keys(&self) -> (r: Vec<Vec<u8>>)
        requires
            self.wf(),
        ensures
            lists_keys(r@, self@.dom()),
            r@.len() == self@.len(),
    {
        proof {
            self.lemma_view_dom();
        }
        self.keydir.keys()
    }

    /// Closes the store and hands back its log, from which it can be opened again.
    pub fn into_log(self) -> (log: L)
        ensures
            log == self.log_store(),
            self.wf() ==> log.inv(),
            self.wf() && self.durable() ==> recovered_view(log) == self@,
    {
        proof {
            if self.wf() && self.durable() {
                self.lemma_durable_view();
            }
        }
        self.log
    }

    /// Database statistics.
    pub fn stats(&self) -> (s: Stats)
        requires
            self.wf(),
        ensures
            s.num_keys == self@.len(),
    {
        Stats { num_keys: self.len() }
    }

    /// Rebuilds the directory by replaying the scan entries of the log.
    fn rebuild_keydir(&mut self) -> (r: Result<(), Error>)
        requires
            old(self).log.inv(),
            old(self).keydir.inv(),
        ensures
            final(self).log == old(self).log,
            final(self).options == old(self).options,
            final(self).keydir.inv(),
            r is Ok ==> final(self).wf() && final(self).durable(),
            old(self).log.reliable() ==> r is Ok,
    {
        self.keydir.clear();
        let entries = self.log.scan_keys()?;
        let ghost es = scan_view(entries@);
        proof {
            assert(es == log_scan(self.log));
        }
        let mut i: usize = 0;
        while i < entries.len()
            invariant
                self.log == old(self).log,
                self.options == old(self).options,
                self.keydir.inv(),
                i <= entries@.len(),
                es == scan_view(entries@),
                es == log_scan(self.log),
                forall|t: int|
                    0 <= t < self.log.log_entries().len() ==> {
                        &&& #[trigger] self.log.records().contains_key(self.log.log_entries()[t].0)
                        &&& self.log.records()[self.log.log_entries()[t].0] == self.log.log_entries()[t].1
                    },
                self.keydir.contents() == replay(es.take(i as int)),
                self.keydir.contents().dom().finite(),
                self.keydir.contents().len() <= i,
                forall|k: Seq<u8>| #[trigger]
                    self.keydir.contents().contains_key(k) ==> {
                        let p = self.keydir.contents()[k].pointer;
                        &&& self.log.records().contains_key(p)
                        &&& self.log.records()[p].key == k
                        &&& !self.log.records()[p].tombstone
                    },
            decreases entries@.len() - i,
        {
            proof {
                assert(es.take(i + 1).drop_last() =~= es.take(i as int));
                assert(es.len() == entries@.len());
                assert(log_scan(self.log).len() == self.log.log_entries().len());
                assert(es[i as int] == log_scan(self.log)[i as int]);
                assert(es[i as int] == scan_entry_of(self.log.log_entries()[i as int]));
            }
            let ghost prev = self.keydir.contents();
            if entries[i].tombstone {
                self.keydir.remove(entries[i].key.as_slice());
            } else {
                self.keydir.insert(
                    entries[i].key.clone(),
                    KeyDirEntry { pointer: entries[i].pointer, timestamp: entries[i].timestamp },
                );
            }
            proof {
                let p0 = self.log.log_entries()[i as int].0;
                assert(self.log.records().contains_key(p0));
                assert forall|k: Seq<u8>| #[trigger] self.keydir.contents().contains_key(k) implies {
                    let p = self.keydir.contents()[k].pointer;
                    &&& self.log.records().contains_key(p)
                    &&& self.log.records()[p].key == k
                    &&& !self.log.records()[p].tombstone
                } by {
                    if k != entries@[i as int].key@ {
                        assert(prev.contains_key(k));
                    }
                }
            }
            i = i + 1;
        }
        assert(es.take(i as int) =~= es);
        Ok(())
    }
}

} // verus!
