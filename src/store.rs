//! The store engine: a map from key to record, with lazy expiry.
//!
//! Times are milliseconds on a monotonic clock that the caller reads once per
//! operation and passes in. A record whose expiry is `t` is still live at `t`
//! and gone at any later time.
//!
//! Records sit in buckets chosen by a hash of the key, so that an operation
//! looks at the few records that share its key's bucket.

use vstd::prelude::*;
use std::collections::HashMap;
use crate::buf::{bytes_eq, copy_range};

verus! {

/// The model of a record: its value and its absolute expiry, if any.
pub struct Rec {
    pub value: Seq<u8>,
    pub expiry: Option<u64>,
}

/// The record is live at time `now`: it has no expiry, or `now` has not passed it.
pub open spec fn live(r: Rec, now: u64) -> bool {
    match r.expiry {
        Some(t) => now <= t,
        None => true,
    }
}

/// What a read of `key` at time `now` gives.
pub open spec fn lookup(m: Map<Seq<u8>, Rec>, key: Seq<u8>, now: u64) -> Option<Seq<u8>> {
    if m.contains_key(key) && live(m[key], now) {
        Some(m[key].value)
    } else {
        None
    }
}

/// The map after a read of `key` at time `now`: an expired record is dropped.
pub open spec fn after_lookup(m: Map<Seq<u8>, Rec>, key: Seq<u8>, now: u64) -> Map<Seq<u8>, Rec> {
    if m.contains_key(key) && !live(m[key], now) {
        m.remove(key)
    } else {
        m
    }
}

/// One stored record.
struct Entry {
    key: Vec<u8>,
    value: Vec<u8>,
    expiry: Option<u64>,
}

spec fn rec_of(e: Entry) -> Rec {
    Rec { value: e.value@, expiry: e.expiry }
}

/// The 64-bit FNV-1a hash of a byte string.
pub open spec fn key_hash(s: Seq<u8>) -> u64
    decreases s.len(),
{
    if s.len() == 0 {
        14695981039346656037u64
    } else {
        (key_hash(s.drop_last()) ^ (s.last() as u64)).wrapping_mul(1099511628211u64)
    }
}

/// The hash of `key`, which picks its bucket.
pub fn hash_key(key: &[u8]) -> (h: u64)
    ensures
        h == key_hash(key@),
{
    let mut h: u64 = 14695981039346656037u64;
    let mut i: usize = 0;
    while i < key.len()
        invariant
            i <= key@.len(),
            h == key_hash(key@.subrange(0, i as int)),
        decreases key@.len() - i,
    {
        assert(key@.subrange(0, i + 1).drop_last() =~= key@.subrange(0, i as int));
        h = (h ^ (key[i] as u64)).wrapping_mul(1099511628211u64);
        i = i + 1;
    }
    assert(key@.subrange(0, i as int) =~= key@);
    h
}

/// `b` holds a record for `k`.
spec fn in_bucket(b: Seq<Entry>, k: Seq<u8>) -> bool {
    exists|i: int| 0 <= i < b.len() && #[trigger] b[i].key@ == k
}

/// Every record of the bucket for hash `h` has a key with that hash, and no
/// key is held twice.
spec fn bucket_ok(b: Seq<Entry>, h: u64) -> bool {
    &&& forall|i: int| 0 <= i < b.len() ==> key_hash(#[trigger] b[i].key@) == h
    &&& forall|i: int, j: int|
        0 <= i < j < b.len() ==> #[trigger] b[i].key@ != #[trigger] b[j].key@
}

/// The buckets `t` hold exactly the records of `m`.
spec fn table_wf(t: Map<u64, Vec<Entry>>, m: Map<Seq<u8>, Rec>) -> bool {
    &&& forall|h: u64| #[trigger] t.contains_key(h) ==> bucket_ok(t[h]@, h)
    &&& forall|h: u64, i: int|
        #![trigger t[h]@[i]]
        t.contains_key(h) && 0 <= i < t[h]@.len() ==> m.contains_key(t[h]@[i].key@) && m[t[h]@[i].key@]
            == rec_of(t[h]@[i])
    &&& forall|k: Seq<u8>|
        #[trigger] m.contains_key(k) ==> t.contains_key(key_hash(k)) && in_bucket(
            t[key_hash(k)]@,
            k,
        )
}

/// Replacing the bucket for `h` by `b` keeps the table exact, given that `b`
/// holds the new records of hash `h` and no other record changed.
proof fn lemma_replace_bucket(
    t: Map<u64, Vec<Entry>>,
    m: Map<Seq<u8>, Rec>,
    h: u64,
    b: Vec<Entry>,
    m2: Map<Seq<u8>, Rec>,
)
    requires
        table_wf(t, m),
        bucket_ok(b@, h),
        forall|i: int|
            0 <= i < b@.len() ==> m2.contains_key(#[trigger] b@[i].key@) && m2[b@[i].key@]
                == rec_of(b@[i]),
        forall|k: Seq<u8>| key_hash(k) == h && #[trigger] m2.contains_key(k) ==> in_bucket(b@, k),
        forall|k: Seq<u8>|
            key_hash(k) != h ==> (#[trigger] m2.contains_key(k) == m.contains_key(k)) && (
            m.contains_key(k) ==> m2[k] == m[k]),
    ensures
        table_wf(t.insert(h, b), m2),
{
    let t2 = t.insert(h, b);
    assert forall|g: u64, i: int| t2.contains_key(g) && 0 <= i < t2[g]@.len() implies m2.contains_key(
        #[trigger] t2[g]@[i].key@,
    ) && m2[t2[g]@[i].key@] == rec_of(t2[g]@[i]) by {
        if g != h {
            assert(key_hash(t[g]@[i].key@) == g);
        }
    }
}

/// Dropping the bucket for `h` keeps the table exact, given that no record
/// of hash `h` is left and no other record changed.
proof fn lemma_drop_bucket(t: Map<u64, Vec<Entry>>, m: Map<Seq<u8>, Rec>, h: u64, m2: Map<Seq<u8>, Rec>)
    requires
        table_wf(t, m),
        forall|k: Seq<u8>| key_hash(k) == h ==> !(#[trigger] m2.contains_key(k)),
        forall|k: Seq<u8>|
            key_hash(k) != h ==> (#[trigger] m2.contains_key(k) == m.contains_key(k)) && (
            m.contains_key(k) ==> m2[k] == m[k]),
    ensures
        table_wf(t.remove(h), m2),
{
    let t2 = t.remove(h);
    assert forall|g: u64, i: int| t2.contains_key(g) && 0 <= i < t2[g]@.len() implies m2.contains_key(
        #[trigger] t2[g]@[i].key@,
    ) && m2[t2[g]@[i].key@] == rec_of(t2[g]@[i]) by {
        assert(key_hash(t[g]@[i].key@) == g);
    }
}

/// The position of `key` in a bucket.
fn find_in(b: &Vec<Entry>, key: &[u8]) -> (r: Option<usize>)
    ensures
        r matches Some(i) ==> i < b@.len() && b@[i as int].key@ == key@,
        r is None ==> !in_bucket(b@, key@),
{
    let mut i: usize = 0;
    while i < b.len()
        invariant
            i <= b@.len(),
            forall|j: int| 0 <= j < i ==> b@[j].key@ != key@,
        decreases b@.len() - i,
    {
        if bytes_eq(b[i].key.as_slice(), key) {
            return Some(i);
        }
        i = i + 1;
    }
    None
}

/// The key-value map. Keys are byte strings, each held at most once.
pub struct Store {
    buckets: HashMap<u64, Vec<Entry>>,
    model: Ghost<Map<Seq<u8>, Rec>>,
}

impl View for Store {
    type V = Map<Seq<u8>, Rec>;

    closed spec fn view(&self) -> Map<Seq<u8>, Rec> {
        self.model@
    }
}

impl Store {
    /// The buckets hold exactly the model.
    pub closed spec fn wf(&self) -> bool {
        table_wf(self.buckets@, self.model@)
    }

    /// An empty store.
    pub fn new() -> (s: Store)
        ensures
            s.wf(),
            s@ == Map::<Seq<u8>, Rec>::empty(),
    {
        Store { buckets: HashMap::new(), model: Ghost(Map::empty()) }
    }

    /// Reads `key` at time `now`. A record that has expired reads as absent,
    /// and is dropped.
    pub fn get(&mut self, key: &[u8], now: u64) -> (r: Option<Vec<u8>>)
        requires
            old(self).wf(),
        ensures
            final(self).wf(),
            r matches Some(v) ==> lookup(old(self)@, key@, now) == Some(v@),
            r is None ==> lookup(old(self)@, key@, now) is None,
            final(self)@ == after_lookup(old(self)@, key@, now),
    {
        let h = hash_key(key);
        let ghost t = self.buckets@;
        let ghost m = self.model@;
        let (pos, live_now) = match self.buckets.get(&h) {
            None => {
                return None;
            },
            Some(b) => match find_in(b, key) {
                None => {
                    return None;
                },
                Some(i) => {
                    let live_now = match b[i].expiry {
                        Some(t) => now <= t,
                        None => true,
                    };
                    if live_now {
                        let v = copy_range(b[i].value.as_slice(), 0, b[i].value.len());
                        assert(v@ =~= b@[i as int].value@);
                        return Some(v);
                    }
                    (i, live_now)
                },
            },
        };
        let mut b = match self.buckets.remove(&h) {
            Some(b) => b,
            None => {
                return None;
            },
        };
        let ghost before = b@;
        let ghost k = key@;
        b.swap_remove(pos);
        let ghost m2 = m.remove(k);
        proof {
            assert forall|j: int| 0 <= j < b@.len() implies #[trigger] b@[j] == before[if j == pos {
                before.len() - 1
            } else {
                j
            }] by {}
            assert forall|j: int| 0 <= j < b@.len() implies #[trigger] b@[j].key@ != k by {
                let jj = if j == pos { before.len() - 1 } else { j };
                assert(b@[j] == before[jj]);
            }
            assert forall|x: int, y: int| 0 <= x < y < b@.len() implies #[trigger] b@[x].key@
                != #[trigger] b@[y].key@ by {
                let xx = if x == pos { before.len() - 1 } else { x };
                let yy = if y == pos { before.len() - 1 } else { y };
                assert(b@[x] == before[xx]);
                assert(b@[y] == before[yy]);
            }
            assert forall|j: int| 0 <= j < b@.len() implies key_hash(#[trigger] b@[j].key@) == h by {
                let jj = if j == pos { before.len() - 1 } else { j };
                assert(b@[j] == before[jj]);
            }
            assert forall|x: Seq<u8>| key_hash(x) == h && #[trigger] m2.contains_key(x) implies in_bucket(
                b@,
                x,
            ) by {
                let j0 = choose|j: int| 0 <= j < before.len() && #[trigger] before[j].key@ == x;
                if j0 == before.len() - 1 {
                    assert(b@[pos as int].key@ == x);
                } else {
                    assert(b@[j0].key@ == x);
                }
            }
            assert forall|j: int| 0 <= j < b@.len() implies m2.contains_key(#[trigger] b@[j].key@)
                && m2[b@[j].key@] == rec_of(b@[j]) by {
                let jj = if j == pos { before.len() - 1 } else { j };
                assert(b@[j] == before[jj]);
                assert(t[h]@[jj] == before[jj]);
            }
        }
        if b.len() == 0 {
            proof {
                assert forall|x: Seq<u8>| key_hash(x) == h implies !(#[trigger] m2.contains_key(x)) by {
                    if m2.contains_key(x) {
                        let j0 = choose|j: int| 0 <= j < b@.len() && #[trigger] b@[j].key@ == x;
                    }
                }
                lemma_drop_bucket(t, m, h, m2);
            }
        } else {
            proof {
                lemma_replace_bucket(t, m, h, b, m2);
                assert(t.remove(h).insert(h, b) == t.insert(h, b));
            }
            self.buckets.insert(h, b);
        }
        self.model = Ghost(m2);
        None
    }

    /// Writes `value` under `key`, replacing any record there, expiry included.
    pub fn set(&mut self, key: Vec<u8>, value: Vec<u8>, expiry: Option<u64>)
        requires
            old(self).wf(),
        ensures
            final(self).wf(),
            final(self)@ == old(self)@.insert(key@, Rec { value: value@, expiry }),
    {
        let h = hash_key(key.as_slice());
        let ghost t = self.buckets@;
        let ghost m = self.model@;
        let ghost k = key@;
        let ghost r = Rec { value: value@, expiry };
        let ghost m2 = m.insert(k, r);
        let mut b = match self.buckets.remove(&h) {
            Some(b) => b,
            None => Vec::new(),
        };
        let ghost before = b@;
        proof {
            if !t.contains_key(h) {
                assert forall|x: Seq<u8>| key_hash(x) == h implies !m.contains_key(x) by {}
            }
        }
        match find_in(&b, key.as_slice()) {
            Some(i) => {
                b.set(i, Entry { key, value, expiry });
                proof {
                    assert forall|j: int| 0 <= j < b@.len() && j != i implies #[trigger] b@[j] == before[j] by {}
                    assert forall|x: Seq<u8>| key_hash(x) == h && #[trigger] m2.contains_key(x) implies in_bucket(
                        b@,
                        x,
                    ) by {
                        if x == k {
                            assert(b@[i as int].key@ == x);
                        } else {
                            let j0 = choose|j: int| 0 <= j < before.len() && #[trigger] before[j].key@ == x;
                            assert(b@[j0].key@ == x);
                        }
                    }
                    assert forall|j: int| 0 <= j < b@.len() implies m2.contains_key(#[trigger] b@[j].key@)
                        && m2[b@[j].key@] == rec_of(b@[j]) by {
                        if j != i {
                            assert(t[h]@[j] == before[j]);
                        }
                    }
                }
            },
            None => {
                b.push(Entry { key, value, expiry });
                proof {
                    assert forall|j: int| 0 <= j < before.len() implies #[trigger] b@[j] == before[j] by {}
                    assert forall|x: Seq<u8>| key_hash(x) == h && #[trigger] m2.contains_key(x) implies in_bucket(
                        b@,
                        x,
                    ) by {
                        if x == k {
                            assert(b@[before.len() as int].key@ == x);
                        } else {
                            let j0 = choose|j: int| 0 <= j < before.len() && #[trigger] before[j].key@ == x;
                            assert(b@[j0].key@ == x);
                        }
                    }
                    assert forall|j: int| 0 <= j < b@.len() implies m2.contains_key(#[trigger] b@[j].key@)
                        && m2[b@[j].key@] == rec_of(b@[j]) by {
                        if j < before.len() {
                            assert(t[h]@[j] == before[j]);
                        }
                    }
                }
            },
        }
        proof {
            lemma_replace_bucket(t, m, h, b, m2);
            assert(t.remove(h).insert(h, b) == t.insert(h, b));
        }
        self.buckets.insert(h, b);
        self.model = Ghost(m2);
    }
}

} // verus!
