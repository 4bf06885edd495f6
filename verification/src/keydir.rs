use vstd::prelude::*;

use std::collections::HashMap;

use vstd::std_specs::iter::IteratorSpec;

use crate::codec::bytes_equal;
use crate::storage::LogPointer;

verus! {

/// Where the latest record of a key lives, and when it was written.
#[derive(Debug, Clone, Copy, PartialEq, Eq, Structural)]
pub struct KeyDirEntry {
    pub pointer: LogPointer,
    pub timestamp: u64,
}

/// Whether `s` lists the map `m`: every pair is in `m`, no key twice, and every key of `m` occurs.
pub open spec fn lists_contents(s: Seq<(Vec<u8>, KeyDirEntry)>, m: Map<Seq<u8>, KeyDirEntry>) -> bool {
    &&& forall|i: int|
        0 <= i < s.len() ==> m.contains_key(#[trigger] s[i].0@) && m[s[i].0@] == s[i].1
    &&& forall|i: int, j: int| 0 <= i < j < s.len() ==> (#[trigger] s[i].0@) != (#[trigger] s[j].0@)
    &&& forall|k: Seq<u8>| #[trigger] m.contains_key(k) ==> exists|i: int| 0 <= i < s.len() && s[i].0@ == k
}

/// A key is in a set exactly when a listing of the set holds it.
pub proof fn lemma_lists_keys_contains(ks: Seq<Vec<u8>>, d: Set<Seq<u8>>, k: Seq<u8>)
    requires
        lists_keys(ks, d),
    ensures
        d.contains(k) <==> exists|i: int| 0 <= i < ks.len() && ks[i]@ == k,
{
}

/// A listing of a map is as long as the map has keys, and the map is finite.
pub proof fn lemma_lists_contents_len(s: Seq<(Vec<u8>, KeyDirEntry)>, m: Map<Seq<u8>, KeyDirEntry>)
    requires
        lists_contents(s, m),
    ensures
        m.dom().finite(),
        s.len() == m.len(),
{
    let ks = s.map_values(|e: (Vec<u8>, KeyDirEntry)| e.0@);
    assert(ks.no_duplicates()) by {
        assert forall|i: int, j: int| 0 <= i < ks.len() && 0 <= j < ks.len() && i != j implies ks[i]
            != ks[j] by {
            if i < j {
                assert(s[i].0@ != s[j].0@);
            } else {
                assert(s[j].0@ != s[i].0@);
            }
        }
    }
    assert(ks.to_set() =~= m.dom()) by {
        assert forall|k: Seq<u8>| ks.to_set().contains(k) <==> m.dom().contains(k) by {
            if m.dom().contains(k) {
                let i = choose|i: int| 0 <= i < s.len() && s[i].0@ == k;
                assert(ks[i] == k);
                assert(ks.contains(k));
            }
            if ks.to_set().contains(k) {
                assert(ks.contains(k));
                let i = choose|i: int| 0 <= i < ks.len() && ks[i] == k;
                assert(m.contains_key(s[i].0@));
            }
        }
    }
    vstd::seq_lib::seq_to_set_is_finite(ks);
    ks.unique_seq_to_set();
}

/// Whether `s` lists the set `d`: every key is in `d`, no key twice, and every member of `d` occurs.
pub open spec fn lists_keys(s: Seq<Vec<u8>>, d: Set<Seq<u8>>) -> bool {
    &&& forall|i: int| 0 <= i < s.len() ==> d.contains(#[trigger] s[i]@)
    &&& forall|i: int, j: int| 0 <= i < j < s.len() ==> (#[trigger] s[i]@) != (#[trigger] s[j]@)
    &&& forall|k: Seq<u8>| #[trigger] d.contains(k) ==> exists|i: int| 0 <= i < s.len() && s[i]@ == k
}

/// The in-memory directory from each live key to its latest record.
pub trait KeyDir {
    /// Whether the state of the directory is consistent.
    open spec fn inv(&self) -> bool {
        true
    }

    /// The directory as a map from key bytes to entries.
    open spec fn contents(&self) -> Map<Seq<u8>, KeyDirEntry> {
        Map::empty()
    }

    /// Sets the entry of `key`, replacing any earlier one.
    fn insert(&mut self, key: Vec<u8>, entry: KeyDirEntry)
        requires
            old(self).inv(),
            old(self).contents().contains_key(key@) || old(self).contents().len() < usize::MAX,
        ensures
            final(self).inv(),
            final(self).contents() == old(self).contents().insert(key@, entry),
            old(self).contents().dom().finite(),
            final(self).contents().dom().finite(),
    ;

    /// The entry of `key`, if it has one.
    fn get(&self, key: &[u8]) -> (r: Option<KeyDirEntry>)
        requires
            self.inv(),
        ensures
            r == (if self.contents().contains_key(key@) {
                Some(self.contents()[key@])
            } else {
                None
            }),
    ;

    /// Removes the entry of `key`; tells whether there was one.
    fn remove(&mut self, key: &[u8]) -> (r: bool)
        requires
            old(self).inv(),
        ensures
            final(self).inv(),
            r == old(self).contents().contains_key(key@),
            final(self).contents() == old(self).contents().remove(key@),
            old(self).contents().dom().finite(),
            final(self).contents().dom().finite(),
    ;

    /// Every key with its entry, in no particular order.
    fn entries(&self) -> (r: Vec<(Vec<u8>, KeyDirEntry)>)
        requires
            self.inv(),
        ensures
            lists_contents(r@, self.contents()),
            self.contents().dom().finite(),
            r@.len() == self.contents().len(),
    ;

    /// Every key, in no particular order.
    fn keys(&self) -> (r: Vec<Vec<u8>>)
        requires
            self.inv(),
        ensures
            lists_keys(r@, self.contents().dom()),
            r@.len() == self.contents().len(),
    {
        let entries = self.entries();
        let mut out: Vec<Vec<u8>> = Vec::new();
        let mut i: usize = 0;
        while i < entries.len()
            invariant
                i <= entries@.len(),
                lists_contents(entries@, self.contents()),
                out@.len() == i,
                forall|j: int| 0 <= j < i ==> (#[trigger] out@[j])@ == entries@[j].0@,
            decreases entries@.len() - i,
        {
            out.push(entries[i].0.clone());
            i = i + 1;
        }
        assert forall|k: Seq<u8>| #[trigger] self.contents().dom().contains(k) implies exists|i: int|
            0 <= i < out@.len() && out@[i]@ == k by {
            let i = choose|i: int| 0 <= i < entries@.len() && entries@[i].0@ == k;
            assert(out@[i]@ == k);
        }
        assert forall|i: int, j: int| 0 <= i < j < out@.len() implies (#[trigger] out@[i]@) != (
        #[trigger] out@[j]@) by {
            assert(entries@[i].0@ != entries@[j].0@);
        }
        out
    }

    /// The number of keys.
    fn len(&self) -> (n: usize)
        requires
            self.inv(),
        ensures
            n == self.contents().len(),
            self.contents().dom().finite(),
    ;

    /// Whether there are no keys.
    fn is_empty(&self) -> (b: bool)
        requires
            self.inv(),
        ensures
            b == (self.contents().len() == 0),
    {
        self.len() == 0
    }

    /// Removes every key.
    fn clear(&mut self)
        requires
            old(self).inv(),
        ensures
            final(self).inv(),
            final(self).contents() == Map::<Seq<u8>, KeyDirEntry>::empty(),
            old(self).contents().dom().finite(),
    ;
}

/// The FNV-1a offset basis.
pub const FNV_OFFSET: u64 = 0xcbf2_9ce4_8422_2325;

/// The FNV-1a prime.
pub const FNV_PRIME: u64 = 0x0000_0100_0000_01b3;

/// The 64-bit FNV-1a hash of `s`.
pub open spec fn key_hash(s: Seq<u8>) -> u64
    decreases s.len(),
{
    if s.len() == 0 {
        FNV_OFFSET
    } else {
        vstd::wrapping::u64_specs::wrapping_mul(key_hash(s.drop_last()) ^ (s.last() as u64), FNV_PRIME)
    }
}

/// Hashes `key` with 64-bit FNV-1a.
pub fn hash_key(key: &[u8]) -> (h: u64)
    ensures
        h == key_hash(key@),
{
    let mut h: u64 = FNV_OFFSET;
    let mut i: usize = 0;
    while i < key.len()
        invariant
            i <= key@.len(),
            h == key_hash(key@.subrange(0, i as int)),
        decreases key@.len() - i,
    {
        let ghost next = key@.subrange(0, i + 1);
        assert(next.drop_last() =~= key@.subrange(0, i as int));
        h = (h ^ (key[i] as u64)).wrapping_mul(FNV_PRIME);
        i = i + 1;
    }
    assert(key@.subrange(0, i as int) =~= key@);
    h
}

/// A bucket of the directory.
pub type Bucket = Vec<(Vec<u8>, KeyDirEntry)>;

/// Whether bucket `b` belongs at hash `h` of a directory holding `m`: all its keys hash to
/// `h`, carry their entry in `m`, and occur once.
pub open spec fn bucket_ok(h: u64, b: Seq<(Vec<u8>, KeyDirEntry)>, m: Map<Seq<u8>, KeyDirEntry>) -> bool {
    &&& forall|i: int|
        0 <= i < b.len() ==> key_hash(#[trigger] b[i].0@) == h && m.contains_key(b[i].0@) && m[b[i].0@]
            == b[i].1
    &&& forall|i: int, j: int| 0 <= i < j < b.len() ==> (#[trigger] b[i].0@) != (#[trigger] b[j].0@)
}

/// Whether bucket `b` holds key `k`.
pub open spec fn bucket_has(b: Seq<(Vec<u8>, KeyDirEntry)>, k: Seq<u8>) -> bool {
    exists|i: int| 0 <= i < b.len() && b[i].0@ == k
}

/// The position of `key` in `bucket`, if it occurs there.
fn find_in_bucket(bucket: &Bucket, key: &[u8]) -> (r: Option<usize>)
    ensures
        match r {
            Some(i) => i < bucket@.len() && bucket@[i as int].0@ == key@,
            None => forall|i: int| 0 <= i < bucket@.len() ==> (#[trigger] bucket@[i]).0@ != key@,
        },
{
    let mut i: usize = 0;
    while i < bucket.len()
        invariant
            i <= bucket@.len(),
            forall|j: int| 0 <= j < i ==> (#[trigger] bucket@[j]).0@ != key@,
        decreases bucket@.len() - i,
    {
        if bytes_equal(bucket[i].0.as_slice(), key) {
            return Some(i);
        }
        i = i + 1;
    }
    None
}

/// Replacing the entry of a key that a bucket holds keeps the bucket well-formed.
proof fn lemma_bucket_replace(
    h: u64,
    b0: Seq<(Vec<u8>, KeyDirEntry)>,
    m0: Map<Seq<u8>, KeyDirEntry>,
    i: int,
    k: Seq<u8>,
    e: KeyDirEntry,
    b1: Seq<(Vec<u8>, KeyDirEntry)>,
)
    requires
        bucket_ok(h, b0, m0),
        0 <= i < b0.len(),
        b0[i].0@ == k,
        b1.len() == b0.len(),
        b1[i].0@ == k,
        b1[i].1 == e,
        forall|t: int| 0 <= t < b0.len() && t != i ==> b1[t] == b0[t],
    ensures
        bucket_ok(h, b1, m0.insert(k, e)),
        bucket_has(b1, k),
        forall|q: Seq<u8>| bucket_has(b0, q) ==> bucket_has(b1, q),
{
    let m1 = m0.insert(k, e);
    assert forall|t: int| 0 <= t < b1.len() implies key_hash(#[trigger] b1[t].0@) == h && m1.contains_key(
        b1[t].0@,
    ) && m1[b1[t].0@] == b1[t].1 by {
        if t != i {
            assert(b0[t].0@ != b0[i].0@);
        }
    }
    assert forall|t: int, u: int| 0 <= t < u < b1.len() implies (#[trigger] b1[t].0@) != (
    #[trigger] b1[u].0@) by {
        assert(b0[t].0@ != b0[u].0@);
    }
    assert forall|q: Seq<u8>| bucket_has(b0, q) implies bucket_has(b1, q) by {
        let t = choose|t: int| 0 <= t < b0.len() && b0[t].0@ == q;
        assert(b1[t].0@ == q);
    }
}

/// Appending an entry for a key that a bucket lacks keeps the bucket well-formed.
proof fn lemma_bucket_push(
    h: u64,
    b0: Seq<(Vec<u8>, KeyDirEntry)>,
    m0: Map<Seq<u8>, KeyDirEntry>,
    k: Seq<u8>,
    e: KeyDirEntry,
    b1: Seq<(Vec<u8>, KeyDirEntry)>,
)
    requires
        bucket_ok(h, b0, m0),
        key_hash(k) == h,
        forall|t: int| 0 <= t < b0.len() ==> (#[trigger] b0[t]).0@ != k,
        b1.len() == b0.len() + 1,
        b1[b0.len() as int].0@ == k,
        b1[b0.len() as int].1 == e,
        forall|t: int| 0 <= t < b0.len() ==> b1[t] == b0[t],
    ensures
        bucket_ok(h, b1, m0.insert(k, e)),
        bucket_has(b1, k),
        !bucket_has(b0, k),
        forall|q: Seq<u8>| bucket_has(b0, q) ==> bucket_has(b1, q),
{
    let m1 = m0.insert(k, e);
    let n = b0.len() as int;
    assert forall|t: int| 0 <= t < b1.len() implies key_hash(#[trigger] b1[t].0@) == h && m1.contains_key(
        b1[t].0@,
    ) && m1[b1[t].0@] == b1[t].1 by {
        if t < n {
            assert(b0[t].0@ != k);
        }
    }
    assert forall|t: int, u: int| 0 <= t < u < b1.len() implies (#[trigger] b1[t].0@) != (
    #[trigger] b1[u].0@) by {
        if u < n {
            assert(b0[t].0@ != b0[u].0@);
        } else {
            assert(b0[t].0@ != k);
        }
    }
    assert(b1[n].0@ == k);
    assert forall|q: Seq<u8>| bucket_has(b0, q) implies bucket_has(b1, q) by {
        let t = choose|t: int| 0 <= t < b0.len() && b0[t].0@ == q;
        assert(b1[t].0@ == q);
    }
    assert(!bucket_has(b0, k)) by {
        if bucket_has(b0, k) {
            let t = choose|t: int| 0 <= t < b0.len() && b0[t].0@ == k;
            assert(b0[t].0@ != k);
        }
    }
}

/// A bucket of another hash is unaffected by setting or removing `k`.
proof fn lemma_bucket_other_insert(
    g: u64,
    b: Seq<(Vec<u8>, KeyDirEntry)>,
    m0: Map<Seq<u8>, KeyDirEntry>,
    k: Seq<u8>,
    e: KeyDirEntry,
)
    requires
        bucket_ok(g, b, m0),
        key_hash(k) != g,
    ensures
        bucket_ok(g, b, m0.insert(k, e)),
        bucket_ok(g, b, m0.remove(k)),
{
    assert forall|t: int| 0 <= t < b.len() implies (#[trigger] b[t]).0@ != k by {
        assert(key_hash(b[t].0@) == g);
    }
}

/// A key directory kept in a hash map from the FNV-1a hash of each key to the
/// bucket of keys with that hash.
pub struct HashMapKeyDir {
    map: HashMap<u64, Bucket>,
    count: usize,
    view: Ghost<Map<Seq<u8>, KeyDirEntry>>,
}

impl Default for HashMapKeyDir {
    fn default() -> (d: Self)
        ensures
            d.inv(),
            d.contents() == Map::<Seq<u8>, KeyDirEntry>::empty(),
    {
        Self::new()
    }
}

impl HashMapKeyDir {
    /// An empty directory.
    pub fn new() -> (d: Self)
        ensures
            d.inv(),
            d.contents() == Map::<Seq<u8>, KeyDirEntry>::empty(),
    {
        let d = HashMapKeyDir { map: HashMap::new(), count: 0, view: Ghost(Map::empty()) };
        assert(d.view@.len() == 0);
        d
    }
}

impl KeyDir for HashMapKeyDir {
    closed spec fn inv(&self) -> bool {
        &&& forall|h: u64| #[trigger]
            self.map@.contains_key(h) ==> bucket_ok(h, self.map@[h]@, self.view@)
        &&& forall|k: Seq<u8>| #[trigger]
            self.view@.contains_key(k) ==> self.map@.contains_key(key_hash(k)) && bucket_has(
                self.map@[key_hash(k)]@,
                k,
            )
        &&& self.view@.dom().finite()
        &&& self.count == self.view@.len()
    }

    closed spec fn contents(&self) -> Map<Seq<u8>, KeyDirEntry> {
        self.view@
    }

    fn insert(&mut self, key: Vec<u8>, entry: KeyDirEntry) {
        broadcast use vstd::std_specs::hash::group_hash_axioms;

        let ghost k = key@;
        let ghost m0 = self.view@;
        let ghost map0 = self.map@;
        let h = hash_key(key.as_slice());
        let mut bucket = match self.map.remove(&h) {
            Some(b) => b,
            None => Vec::new(),
        };
        proof {
            assert(self.map@ == map0.remove(h));
            if map0.contains_key(h) {
                assert(bucket@ == map0[h]@);
            } else {
                assert(bucket@.len() == 0);
            }
        }
        let ghost b0 = bucket@;
        assert(bucket_ok(h, b0, m0));
        let ghost m1 = m0.insert(k, entry);
        match find_in_bucket(&bucket, key.as_slice()) {
            Some(i) => {
                bucket.set(i, (key, entry));
                proof {
                    lemma_bucket_replace(h, b0, m0, i as int, k, entry, bucket@);
                    assert(m1.dom() =~= m0.dom());
                }
            },
            None => {
                bucket.push((key, entry));
                proof {
                    lemma_bucket_push(h, b0, m0, k, entry, bucket@);
                    assert(!m0.contains_key(k)) by {
                        if m0.contains_key(k) {
                            assert(map0.contains_key(h));
                            assert(bucket_has(b0, k));
                        }
                    }
                    assert(m1.dom() == m0.dom().insert(k));
                }
                self.count = self.count + 1;
            },
        }
        let ghost b1 = bucket@;
        self.map.insert(h, bucket);
        self.view = Ghost(m1);
        proof {
            assert(self.map@ == map0.remove(h).insert(h, self.map@[h]));
            assert(self.map@[h]@ == b1);
            assert forall|g: u64| #[trigger] self.map@.contains_key(g) implies bucket_ok(g, self.map@[g]@, m1) by {
                if g != h {
                    assert(map0.contains_key(g) && self.map@[g] == map0[g]);
                    lemma_bucket_other_insert(g, map0[g]@, m0, k, entry);
                }
            }
            assert forall|q: Seq<u8>| #[trigger] m1.contains_key(q) implies self.map@.contains_key(key_hash(q)) && bucket_has(self.map@[key_hash(q)]@, q) by {
                if q != k {
                    assert(m0.contains_key(q));
                    if key_hash(q) == h {
                        assert(bucket_has(b0, q));
                    } else {
                        assert(self.map@[key_hash(q)] == map0[key_hash(q)]);
                    }
                }
            }
        }
    }

    fn get(&self, key: &[u8]) -> (r: Option<KeyDirEntry>) {
        broadcast use vstd::std_specs::hash::group_hash_axioms;

        let h = hash_key(key);
        match self.map.get(&h) {
            None => {
                assert(!self.view@.contains_key(key@));
                None
            },
            Some(bucket) => match find_in_bucket(bucket, key) {
                Some(i) => {
                    assert(bucket_ok(h, bucket@, self.view@));
                    Some(bucket[i].1)
                },
                None => {
                    assert(!self.view@.contains_key(key@)) by {
                        if self.view@.contains_key(key@) {
                            let i = choose|i: int| 0 <= i < bucket@.len() && bucket@[i].0@ == key@;
                            assert(bucket@[i].0@ != key@);
                        }
                    }
                    None
                },
            },
        }
    }

    fn remove(&mut self, key: &[u8]) -> (r: bool) {
        broadcast use vstd::std_specs::hash::group_hash_axioms;

        let ghost m0 = self.view@;
        let h = hash_key(key);
        let mut bucket = match self.map.remove(&h) {
            None => {
                assert(self.view@ =~= m0.remove(key@));
                return false;
            },
            Some(b) => b,
        };
        let ghost b0 = bucket@;
        let ghost map_mid = self.map@;
        assert(map_mid == old(self).map@.remove(h));
        assert(old(self).map@.contains_key(h) && b0 == old(self).map@[h]@);
        assert(bucket_ok(h, b0, m0));
        match find_in_bucket(&bucket, key) {
            None => {
                self.map.insert(h, bucket);
                proof {
                    assert(self.map@ =~= old(self).map@);
                    assert(!m0.contains_key(key@)) by {
                        if m0.contains_key(key@) {
                            let i = choose|i: int| 0 <= i < b0.len() && b0[i].0@ == key@;
                            assert(b0[i].0@ != key@);
                        }
                    }
                    assert(self.view@ =~= m0.remove(key@));
                }
                false
            },
            Some(i) => {
                let _ = bucket.remove(i);
                let ghost m1 = m0.remove(key@);
                proof {
                    assert(m0.contains_key(key@));
                    assert(m1.dom() == m0.dom().remove(key@));
                }
                let ghost bn = bucket@;
                if bucket.len() > 0 {
                    self.map.insert(h, bucket);
                }
                assert(forall|g: u64| g != h ==> (#[trigger] self.map@.contains_key(g)) == old(self).map@.contains_key(g));
                assert(forall|g: u64| g != h && self.map@.contains_key(g) ==> #[trigger] self.map@[g] == old(self).map@[g]);
                assert(self.map@.contains_key(h) ==> self.map@[h]@ == bn);
                self.count = self.count - 1;
                self.view = Ghost(m1);
                proof {
                    assert(forall|t: int| 0 <= t < bn.len() ==> #[trigger] bn[t] == (if t < i { b0[t] } else { b0[t + 1] }));
                    assert forall|g: u64| #[trigger] self.map@.contains_key(g) implies bucket_ok(g, self.map@[g]@, m1) by {
                        if g != h {
                            assert(old(self).map@.contains_key(g));
                            let bg = self.map@[g]@;
                            assert(bg == old(self).map@[g]@);
                            assert(bucket_ok(g, bg, m0));
                            assert forall|t: int| 0 <= t < bg.len() implies key_hash(#[trigger] bg[t].0@) == g && m1.contains_key(bg[t].0@) && m1[bg[t].0@] == bg[t].1 by {
                                assert(key_hash(bg[t].0@) == g);
                                assert(bg[t].0@ != key@);
                            }
                        } else {
                            assert forall|t: int| 0 <= t < bn.len() implies key_hash(#[trigger] bn[t].0@) == g && m1.contains_key(bn[t].0@) && m1[bn[t].0@] == bn[t].1 by {
                                if t < i {
                                    assert(b0[t].0@ != b0[i as int].0@);
                                } else {
                                    assert(b0[i as int].0@ != b0[t + 1].0@);
                                }
                            }
                            assert forall|t: int, u: int| 0 <= t < u < bn.len() implies (#[trigger] bn[t].0@) != (#[trigger] bn[u].0@) by {
                                let t0 = if t < i { t } else { t + 1 };
                                let u0 = if u < i { u } else { u + 1 };
                                assert(b0[t0].0@ != b0[u0].0@);
                            }
                        }
                    }
                    assert forall|q: Seq<u8>| #[trigger] m1.contains_key(q) implies self.map@.contains_key(key_hash(q)) && bucket_has(self.map@[key_hash(q)]@, q) by {
                        assert(m0.contains_key(q));
                        if key_hash(q) == h {
                            let t = choose|t: int| 0 <= t < b0.len() && b0[t].0@ == q;
                            assert(t != i);
                            if t < i {
                                assert(bn[t].0@ == q);
                            } else {
                                assert(bn[t - 1].0@ == q);
                            }
                        }
                    }
                }
                true
            },
        }
    }

    fn entries(&self) -> (r: Vec<(Vec<u8>, KeyDirEntry)>) {
        broadcast use vstd::std_specs::hash::group_hash_axioms;

        let mut ids: Vec<u64> = Vec::new();
        let ghost all = vstd::std_specs::hash::spec_keys_iter(&self.map).remaining();
        for h in it: self.map.keys()
            invariant
                it.seq() == all,
                ids@.len() == it.index(),
                forall|t: int| 0 <= t < it.index() ==> ids@[t] == *(#[trigger] it.seq()[t]),
        {
            ids.push(*h);
        }
        let ghost hs = ids@;
        proof {
            assert(hs.len() == all.len());
            assert(hs =~= all.unref());
            assert forall|g: u64| #[trigger] self.map@.contains_key(g) implies hs.contains(g) by {
                assert(hs.to_set().contains(g));
            }
        }
        let mut out: Vec<(Vec<u8>, KeyDirEntry)> = Vec::new();
        let ghost mut which: Seq<int> = Seq::empty();
        let mut j: usize = 0;
        while j < ids.len()
            invariant
                self.inv(),
                hs == ids@,
                hs.no_duplicates(),
                forall|t: int| 0 <= t < hs.len() ==> self.map@.contains_key(#[trigger] hs[t]),
                j <= hs.len(),
                which.len() == out@.len(),
                forall|i: int|
                    0 <= i < out@.len() ==> {
                        &&& 0 <= #[trigger] which[i] < j
                        &&& key_hash(out@[i].0@) == hs[which[i]]
                        &&& self.view@.contains_key(out@[i].0@)
                        &&& self.view@[out@[i].0@] == out@[i].1
                    },
                forall|i: int, i2: int|
                    0 <= i < i2 < out@.len() ==> (#[trigger] out@[i].0@) != (#[trigger] out@[i2].0@),
                forall|t: int, k: Seq<u8>|
                    0 <= t < j && #[trigger] self.view@.contains_key(k) && key_hash(k) == #[trigger] hs[t]
                        ==> exists|i: int| 0 <= i < out@.len() && out@[i].0@ == k,
            decreases hs.len() - j,
        {
            let ghost g = hs[j as int];
            match self.map.get(&ids[j]) {
                None => {
                    assert(false);
                },
                Some(bucket) => {
                    let ghost out0 = out@;
                    let ghost which0 = which;
                    assert(bucket_ok(g, bucket@, self.view@));
                    let mut u: usize = 0;
                    while u < bucket.len()
                        invariant
                            self.inv(),
                            hs == ids@,
                            hs.no_duplicates(),
                            0 <= j < hs.len(),
                            g == hs[j as int],
                            bucket@ == self.map@[g]@,
                            bucket_ok(g, bucket@, self.view@),
                            u <= bucket@.len(),
                            out@.len() == out0.len() + u,
                            which.len() == out@.len(),
                            forall|i: int| 0 <= i < out0.len() ==> out@[i] == out0[i] && which[i] == which0[i],
                            forall|i: int| 0 <= i < u ==> out@[out0.len() + i].0@ == (#[trigger] bucket@[i]).0@
                                && out@[out0.len() + i].1 == bucket@[i].1 && which[out0.len() + i] == j,
                            forall|i: int|
                                0 <= i < out0.len() ==> {
                                    &&& 0 <= #[trigger] which0[i] < j
                                    &&& key_hash(out0[i].0@) == hs[which0[i]]
                                    &&& self.view@.contains_key(out0[i].0@)
                                    &&& self.view@[out0[i].0@] == out0[i].1
                                },
                            forall|i: int, i2: int|
                                0 <= i < i2 < out0.len() ==> (#[trigger] out0[i].0@) != (#[trigger] out0[i2].0@),
                        decreases bucket@.len() - u,
                    {
                        out.push((bucket[u].0.clone(), bucket[u].1));
                        proof {
                            which = which.push(j as int);
                        }
                        u = u + 1;
                    }
                    proof {
                        assert forall|i: int|
                            0 <= i < out@.len() implies {
                                &&& 0 <= #[trigger] which[i] < j + 1
                                &&& key_hash(out@[i].0@) == hs[which[i]]
                                &&& self.view@.contains_key(out@[i].0@)
                                &&& self.view@[out@[i].0@] == out@[i].1
                            } by {
                            if i >= out0.len() {
                                let b = i - out0.len();
                                assert(out@[out0.len() + b].0@ == bucket@[b].0@);
                            }
                        }
                        assert forall|i: int, i2: int|
                            0 <= i < i2 < out@.len() implies (#[trigger] out@[i].0@) != (#[trigger] out@[i2].0@) by {
                            if i2 >= out0.len() {
                                let b2 = i2 - out0.len();
                                assert(out@[out0.len() + b2].0@ == bucket@[b2].0@);
                                if i >= out0.len() {
                                    let b = i - out0.len();
                                    assert(out@[out0.len() + b].0@ == bucket@[b].0@);
                                    assert(bucket@[b].0@ != bucket@[b2].0@);
                                } else {
                                    assert(out@[i] == out0[i]);
                                    assert(0 <= which0[i] < j);
                                    assert(key_hash(out0[i].0@) == hs[which0[i]]);
                                    assert(hs[which0[i]] != hs[j as int]);
                                    assert(key_hash(bucket@[b2].0@) == g);
                                    assert(key_hash(out@[i].0@) != key_hash(out@[i2].0@));
                                }
                            } else {
                                assert(out@[i] == out0[i]);
                                assert(out@[i2] == out0[i2]);
                            }
                        }
                        assert forall|t: int, k: Seq<u8>|
                            0 <= t < j + 1 && #[trigger] self.view@.contains_key(k) && key_hash(k) == #[trigger] hs[t]
                                implies exists|i: int| 0 <= i < out@.len() && out@[i].0@ == k by {
                            if t == j {
                                assert(bucket_has(self.map@[key_hash(k)]@, k));
                                let b = choose|b: int| 0 <= b < bucket@.len() && bucket@[b].0@ == k;
                                assert(out@[out0.len() + b].0@ == bucket@[b].0@);
                            } else {
                                let i = choose|i: int| 0 <= i < out0.len() && out0[i].0@ == k;
                                assert(out@[i].0@ == k);
                            }
                        }
                    }
                },
            }
            j = j + 1;
        }
        proof {
            assert forall|i: int| 0 <= i < out@.len() implies self.view@.contains_key(#[trigger] out@[i].0@)
                && self.view@[out@[i].0@] == out@[i].1 by {
                assert(0 <= which[i] < j);
            }
            assert forall|k: Seq<u8>| #[trigger] self.view@.contains_key(k) implies exists|i: int|
                0 <= i < out@.len() && out@[i].0@ == k by {
                let g = key_hash(k);
                assert(hs.contains(g));
                let t = choose|t: int| 0 <= t < hs.len() && hs[t] == g;
                assert(self.view@.contains_key(k) && key_hash(k) == hs[t]);
            }
        }
        proof {
            lemma_lists_contents_len(out@, self.view@);
        }
        out
    }

    fn len(&self) -> (n: usize) {
        self.count
    }

    fn is_empty(&self) -> (b: bool) {
        self.count == 0
    }

    fn clear(&mut self) {
        self.map.clear();
        self.count = 0;
        self.view = Ghost(Map::empty());
        assert(self.view@.len() == 0);
    }
}

} // verus!
