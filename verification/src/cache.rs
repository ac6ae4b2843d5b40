//! Bounded least-recently-used caches keyed by file identity.
//!
//! The store itself is the lru crate's `LruCache`, taken on trust behind a
//! small set of wrappers. Its contents are modelled as a sequence of
//! key/value pairs in recency order — index 0 the least recently used,
//! the last index the most recently used — with the keys as plain values.

use vstd::prelude::*;
use crate::hashing::{content_hash, spec_content_hash};

verus! {

/// The identity of a file at one moment: its path, modification time
/// (seconds since the epoch) and size. Equal keys are assumed to denote
/// identical content; this is stat-based, not content-based, freshness.
#[derive(Debug, Clone, Hash, PartialEq, Eq)]
pub struct CacheKey {
    pub path: Vec<u8>,
    pub modified: i64,
    pub size: u64,
}

impl CacheKey {
    /// A key from a file's path and stat data.
    pub fn new(path: Vec<u8>, modified: i64, size: u64) -> (r: Self)
        ensures
            r@ == (path@, modified as int, size as int),
    {
        CacheKey { path, modified, size }
    }
}

impl View for CacheKey {
    type V = (Seq<u8>, int, int);

    open spec fn view(&self) -> (Seq<u8>, int, int) {
        (self.path@, self.modified as int, self.size as int)
    }
}

/// The pairs a cache holds, in recency order.
pub type Entries = Seq<((Seq<u8>, int, int), Seq<u8>)>;

#[verifier::external_type_specification]
#[verifier::external_body]
#[verifier::reject_recursive_types(K)]
#[verifier::reject_recursive_types(V)]
#[verifier::reject_recursive_types(S)]
pub struct ExLruCache<K, V, S>(lru::LruCache<K, V, S>);

/// What an lru store holds: its key/value pairs in recency order, least
/// recently used first, keys as their plain views.
pub uninterp spec fn lru_entries(c: &lru::LruCache<CacheKey, Vec<u8>, std::collections::hash_map::RandomState>) -> Entries;

/// The bound an lru store was created with.
pub uninterp spec fn lru_capacity(c: &lru::LruCache<CacheKey, Vec<u8>, std::collections::hash_map::RandomState>) -> nat;

/// The first position holding key `k`, or a negative value if none does.
pub open spec fn key_index(es: Entries, k: (Seq<u8>, int, int)) -> int
    decreases es.len(),
{
    if es.len() == 0 {
        -1
    } else if es[0].0 == k {
        0
    } else {
        let r = key_index(es.skip(1), k);
        if r < 0 {
            -1
        } else {
            r + 1
        }
    }
}

/// Whether some pair holds key `k`.
pub open spec fn has_key(es: Entries, k: (Seq<u8>, int, int)) -> bool {
    exists|i: int| 0 <= i < es.len() && (#[trigger] es[i]).0 == k
}

pub proof fn lemma_key_index(es: Entries, k: (Seq<u8>, int, int))
    ensures
        key_index(es, k) >= 0 ==> 0 <= key_index(es, k) < es.len() && es[key_index(es, k)].0
            == k,
        key_index(es, k) < 0 ==> forall|i: int| 0 <= i < es.len() ==> (#[trigger] es[i]).0 != k,
        (key_index(es, k) >= 0) == has_key(es, k),
    decreases es.len(),
{
    if es.len() > 0 && es[0].0 != k {
        lemma_key_index(es.skip(1), k);
        assert(forall|i: int| 0 <= i < es.skip(1).len() ==> es.skip(1)[i] == es[i + 1]);
        if key_index(es, k) < 0 {
            assert forall|i: int| 1 <= i < es.len() implies (#[trigger] es[i]).0 != k by {
                assert(es.skip(1)[i - 1] == es[i]);
                assert(es.skip(1)[i - 1].0 != k);
            }
        }
    }
    if key_index(es, k) >= 0 {
        assert(has_key(es, k));
    }
}

/// Using a present key moves its pair to the most-recent end.
pub open spec fn promote(es: Entries, i: int) -> Entries {
    es.remove(i).push(es[i])
}

/// What an insert leaves behind: a present key is updated and promoted; a
/// fresh key comes in at the most-recent end, the least recently used
/// pair leaving first if the store is full.
pub open spec fn put_model(
    es: Entries,
    cap: nat,
    k: (Seq<u8>, int, int),
    v: Seq<u8>,
) -> Entries {
    let i = key_index(es, k);
    if i >= 0 {
        es.remove(i).push((k, v))
    } else if es.len() >= cap {
        es.skip(1).push((k, v))
    } else {
        es.push((k, v))
    }
}

/// Relies on lru::LruCache::new: a fresh store is empty and keeps the
/// given bound.
#[verifier::external_body]
fn lru_new(cap: usize) -> (c: lru::LruCache<CacheKey, Vec<u8>, std::collections::hash_map::RandomState>)
    requires
        cap >= 1,
    ensures
        lru_entries(&c) == Seq::<((Seq<u8>, int, int), Seq<u8>)>::empty(),
        lru_capacity(&c) == cap,
{
    lru::LruCache::with_hasher(
        std::num::NonZeroUsize::new(cap).unwrap(),
        std::collections::hash_map::RandomState::new(),
    )
}

/// Relies on lru::LruCache::get: a hit returns the stored value and
/// promotes the pair; a miss changes nothing. Key equality is the derived
/// field equality, which the key views mirror.
#[verifier::external_body]
fn lru_get(c: &mut lru::LruCache<CacheKey, Vec<u8>, std::collections::hash_map::RandomState>, k: &CacheKey) -> (r: Option<Vec<u8>>)
    ensures
        lru_capacity(final(c)) == lru_capacity(old(c)),
        match r {
            Some(v) => {
                let i = key_index(lru_entries(old(c)), k@);
                &&& i >= 0
                &&& v@ == lru_entries(old(c))[i].1
                &&& lru_entries(final(c)) == promote(lru_entries(old(c)), i)
            },
            None => {
                &&& key_index(lru_entries(old(c)), k@) < 0
                &&& lru_entries(final(c)) == lru_entries(old(c))
            },
        },
{
    c.get(k).cloned()
}

/// Relies on lru::LruCache::put: a present key is updated and promoted; a
/// fresh key is inserted at the most-recent end, evicting the least
/// recently used pair when the store is full.
#[verifier::external_body]
fn lru_put(c: &mut lru::LruCache<CacheKey, Vec<u8>, std::collections::hash_map::RandomState>, k: CacheKey, v: Vec<u8>)
    ensures
        lru_capacity(final(c)) == lru_capacity(old(c)),
        lru_entries(final(c)) == put_model(
            lru_entries(old(c)),
            lru_capacity(old(c)),
            k@,
            v@,
        ),
{
    let _ = c.put(k, v);
}

/// Relies on lru::LruCache::pop: removes the pair with the key, if any,
/// returning its value and keeping the order of the rest.
#[verifier::external_body]
fn lru_pop(c: &mut lru::LruCache<CacheKey, Vec<u8>, std::collections::hash_map::RandomState>, k: &CacheKey) -> (r: Option<Vec<u8>>)
    ensures
        lru_capacity(final(c)) == lru_capacity(old(c)),
        match r {
            Some(v) => {
                let i = key_index(lru_entries(old(c)), k@);
                &&& i >= 0
                &&& v@ == lru_entries(old(c))[i].1
                &&& lru_entries(final(c)) == lru_entries(old(c)).remove(i)
            },
            None => {
                &&& key_index(lru_entries(old(c)), k@) < 0
                &&& lru_entries(final(c)) == lru_entries(old(c))
            },
        },
{
    c.pop(k)
}

/// Relies on lru::LruCache::len: the number of stored pairs.
#[verifier::external_body]
fn lru_len(c: &lru::LruCache<CacheKey, Vec<u8>, std::collections::hash_map::RandomState>) -> (r: usize)
    ensures
        r == lru_entries(c).len(),
{
    c.len()
}

/// Relies on lru::LruCache::clear: removes every pair.
#[verifier::external_body]
fn lru_clear(c: &mut lru::LruCache<CacheKey, Vec<u8>, std::collections::hash_map::RandomState>)
    ensures
        lru_capacity(final(c)) == lru_capacity(old(c)),
        lru_entries(final(c)) == Seq::<((Seq<u8>, int, int), Seq<u8>)>::empty(),
{
    c.clear()
}

/// No two pairs share a key.
pub open spec fn distinct_keys(es: Entries) -> bool {
    forall|i: int, j: int| 0 <= i < j < es.len() ==> (#[trigger] es[i]).0 != (#[trigger] es[j]).0
}

/// An insert preserves the bound and key distinctness.
pub proof fn lemma_put_model_wf(es: Entries, cap: nat, k: (Seq<u8>, int, int), v: Seq<u8>)
    requires
        distinct_keys(es),
        es.len() <= cap,
        cap >= 1,
    ensures
        put_model(es, cap, k, v).len() <= cap,
        distinct_keys(put_model(es, cap, k, v)),
        has_key(put_model(es, cap, k, v), k),
{
    lemma_key_index(es, k);
    let i = key_index(es, k);
    let es2 = put_model(es, cap, k, v);
    if i >= 0 {
        assert(forall|t: int|
            0 <= t < es.remove(i).len() ==> es.remove(i)[t] == (if t < i {
                es[t]
            } else {
                es[t + 1]
            }));
        assert(distinct_keys(es2));
        assert(es2[es2.len() - 1].0 == k);
    } else if es.len() >= cap {
        assert(forall|t: int| 0 <= t < es.skip(1).len() ==> es.skip(1)[t] == es[t + 1]);
        assert(distinct_keys(es2));
        assert(es2[es2.len() - 1].0 == k);
    } else {
        assert(distinct_keys(es2));
        assert(es2[es2.len() - 1].0 == k);
    }
}

/// A promotion preserves the bound, key distinctness, and the key set.
pub proof fn lemma_promote_wf(es: Entries, i: int)
    requires
        distinct_keys(es),
        0 <= i < es.len(),
    ensures
        promote(es, i).len() == es.len(),
        distinct_keys(promote(es, i)),
        forall|k: (Seq<u8>, int, int)| has_key(promote(es, i), k) == has_key(es, k),
{
    let es2 = promote(es, i);
    assert(forall|t: int|
        0 <= t < es.remove(i).len() ==> es.remove(i)[t] == (if t < i {
            es[t]
        } else {
            es[t + 1]
        }));
    assert(distinct_keys(es2));
    assert forall|k: (Seq<u8>, int, int)| has_key(es2, k) == has_key(es, k) by {
        if has_key(es2, k) {
            let t = choose|t: int| 0 <= t < es2.len() && (#[trigger] es2[t]).0 == k;
            if t == es2.len() - 1 {
                assert(es[i].0 == k);
            } else if t < i {
                assert(es[t].0 == k);
            } else {
                assert(es[t + 1].0 == k);
            }
        }
        if has_key(es, k) {
            let t = choose|t: int| 0 <= t < es.len() && (#[trigger] es[t]).0 == k;
            if t == i {
                assert(es2[es2.len() - 1].0 == k);
            } else if t < i {
                assert(es2[t].0 == k);
            } else {
                assert(es2[t - 1].0 == k);
            }
        }
    }
}

/// Filling a full store with one more distinct key evicts exactly the
/// least-recently-used pair: that key is gone, every other key stays, and
/// the new key is in.
pub proof fn lemma_lru_eviction(es: Entries, cap: nat, k: (Seq<u8>, int, int), v: Seq<u8>)
    requires
        distinct_keys(es),
        es.len() == cap,
        cap >= 1,
        !has_key(es, k),
    ensures
        put_model(es, cap, k, v).len() == cap,
        !has_key(put_model(es, cap, k, v), es[0].0),
        forall|t: int| 1 <= t < es.len() ==> has_key(put_model(es, cap, k, v), (#[trigger] es[t]).0),
        has_key(put_model(es, cap, k, v), k),
{
    lemma_key_index(es, k);
    let es2 = put_model(es, cap, k, v);
    assert(es2 == es.skip(1).push((k, v)));
    assert(forall|t: int| 0 <= t < es.len() - 1 ==> es2[t] == es[t + 1]);
    assert(es2[es.len() - 1] == (k, v));
    assert forall|t: int| 1 <= t < es.len() implies has_key(es2, (#[trigger] es[t]).0) by {
        assert(es2[t - 1].0 == es[t].0);
    }
    assert(has_key(es2, k)) by {
        assert(es2[es.len() - 1].0 == k);
    }
    if has_key(es2, es[0].0) {
        let t = choose|t: int| 0 <= t < es2.len() && (#[trigger] es2[t]).0 == es[0].0;
        if t < es.len() - 1 {
            assert(es[t + 1].0 == es[0].0);
        } else {
            assert(k == es[0].0);
            assert(has_key(es, k)) by {
                assert(es[0].0 == k);
            }
        }
    }
}

/// Re-accessing a key promotes it and changes what a later insert evicts:
/// after the least-recently-used key is read and a fresh key inserted
/// into the full store, the read key is still there and the next pair in
/// recency order has left instead.
pub proof fn lemma_lru_promotion(es: Entries, cap: nat, k: (Seq<u8>, int, int), v: Seq<u8>)
    requires
        distinct_keys(es),
        es.len() == cap,
        cap >= 2,
        !has_key(es, k),
    ensures
        ({
            let es2 = promote(es, 0);
            let es3 = put_model(es2, cap, k, v);
            &&& has_key(es3, es[0].0)
            &&& !has_key(es3, es[1].0)
        }),
{
    lemma_promote_wf(es, 0);
    let es2 = promote(es, 0);
    assert(es.remove(0) =~= es.skip(1));
    assert(forall|t: int| 0 <= t < es.len() - 1 ==> es2[t] == es[t + 1]);
    assert(es2[es.len() - 1] == es[0]);
    assert(!has_key(es2, k));
    lemma_key_index(es2, k);
    let es3 = put_model(es2, cap, k, v);
    assert(es3 == es2.skip(1).push((k, v)));
    assert(forall|t: int| 0 <= t < es2.len() - 1 ==> es3[t] == es2[t + 1]);
    assert(es3[es2.len() - 1] == (k, v));
    assert(has_key(es3, es[0].0)) by {
        assert(es3[es.len() - 2] == es2[es.len() - 1]);
        assert(es3[es.len() - 2].0 == es[0].0);
    }
    if has_key(es3, es[1].0) {
        let t = choose|t: int| 0 <= t < es3.len() && (#[trigger] es3[t]).0 == es[1].0;
        if t < es2.len() - 1 {
            assert(es3[t] == es2[t + 1]);
            if t + 1 < es.len() - 1 {
                assert(es2[t + 1] == es[t + 2]);
                assert(es[t + 2].0 == es[1].0);
            } else {
                assert(es2[t + 1] == es[0]);
                assert(es[0].0 == es[1].0);
            }
        } else {
            assert(k == es[1].0);
            assert(has_key(es, k)) by {
                assert(es[1].0 == k);
            }
        }
    }
}

/// A bounded least-recently-used store from file identity to bytes.
pub struct FileCache {
    inner: lru::LruCache<CacheKey, Vec<u8>, std::collections::hash_map::RandomState>,
}

impl FileCache {
    /// The stored pairs, in recency order, least recently used first.
    pub closed spec fn entries(&self) -> Entries {
        lru_entries(&self.inner)
    }

    /// The bound the store was created with.
    pub closed spec fn capacity(&self) -> nat {
        lru_capacity(&self.inner)
    }

    /// The store never exceeds its bound and never holds a key twice.
    pub open spec fn wf(&self) -> bool {
        &&& self.capacity() >= 1
        &&& self.entries().len() <= self.capacity()
        &&& distinct_keys(self.entries())
    }

    /// An empty cache; a zero capacity is raised to one.
    pub fn new(capacity: usize) -> (r: Self)
        ensures
            r.wf(),
            r.entries() == Seq::<((Seq<u8>, int, int), Seq<u8>)>::empty(),
            r.capacity() == (if capacity == 0 {
                1
            } else {
                capacity as nat
            }),
    {
        let cap: usize = if capacity == 0 {
            1
        } else {
            capacity
        };
        FileCache { inner: lru_new(cap) }
    }

    /// A hit returns the stored value and promotes its pair to the
    /// most-recent end; a miss changes nothing.
    pub fn get(&mut self, key: &CacheKey) -> (r: Option<Vec<u8>>)
        requires
            old(self).wf(),
        ensures
            final(self).wf(),
            final(self).capacity() == old(self).capacity(),
            match r {
                Some(v) => {
                    let i = key_index(old(self).entries(), key@);
                    &&& i >= 0
                    &&& v@ == old(self).entries()[i].1
                    &&& final(self).entries() == promote(old(self).entries(), i)
                },
                None => {
                    &&& !has_key(old(self).entries(), key@)
                    &&& final(self).entries() == old(self).entries()
                },
            },
    {
        let r = lru_get(&mut self.inner, key);
        proof {
            lemma_key_index(old(self).entries(), key@);
            if key_index(old(self).entries(), key@) >= 0 {
                lemma_promote_wf(old(self).entries(), key_index(old(self).entries(), key@));
            }
        }
        r
    }

    /// Stores a value under a key, as [`put_model`] describes: an update
    /// and promotion for a present key, otherwise an insert that evicts
    /// the least recently used pair when the store is full.
    pub fn insert(&mut self, key: CacheKey, value: Vec<u8>)
        requires
            old(self).wf(),
        ensures
            final(self).wf(),
            final(self).capacity() == old(self).capacity(),
            final(self).entries() == put_model(
                old(self).entries(),
                old(self).capacity(),
                key@,
                value@,
            ),
    {
        let ghost k = key@;
        let ghost v = value@;
        lru_put(&mut self.inner, key, value);
        proof {
            lemma_put_model_wf(old(self).entries(), old(self).capacity(), k, v);
        }
    }

    /// Removes a key's pair, if present, returning its value; the order
    /// of the rest is kept.
    pub fn remove(&mut self, key: &CacheKey) -> (r: Option<Vec<u8>>)
        requires
            old(self).wf(),
        ensures
            final(self).wf(),
            final(self).capacity() == old(self).capacity(),
            match r {
                Some(v) => {
                    let i = key_index(old(self).entries(), key@);
                    &&& i >= 0
                    &&& v@ == old(self).entries()[i].1
                    &&& final(self).entries() == old(self).entries().remove(i)
                },
                None => {
                    &&& !has_key(old(self).entries(), key@)
                    &&& final(self).entries() == old(self).entries()
                },
            },
    {
        let r = lru_pop(&mut self.inner, key);
        proof {
            lemma_key_index(old(self).entries(), key@);
            let i = key_index(old(self).entries(), key@);
            if i >= 0 {
                let es = old(self).entries();
                assert(forall|t: int|
                    0 <= t < es.remove(i).len() ==> es.remove(i)[t] == (if t < i {
                        es[t]
                    } else {
                        es[t + 1]
                    }));
                assert(distinct_keys(es.remove(i)));
            }
        }
        r
    }

    /// Empties the store.
    pub fn clear(&mut self)
        requires
            old(self).wf(),
        ensures
            final(self).wf(),
            final(self).capacity() == old(self).capacity(),
            final(self).entries() == Seq::<((Seq<u8>, int, int), Seq<u8>)>::empty(),
    {
        lru_clear(&mut self.inner);
    }

    /// The number of stored pairs.
    pub fn len(&self) -> (r: usize)
        ensures
            r == self.entries().len(),
    {
        lru_len(&self.inner)
    }

    /// Whether the store is empty.
    pub fn is_empty(&self) -> (r: bool)
        ensures
            r == (self.entries().len() == 0),
    {
        self.len() == 0
    }
}

/// The identity key a path-only cache files a path under.
pub open spec fn path_key(path: Seq<u8>) -> (Seq<u8>, int, int) {
    (path, 0, 0)
}

/// A bounded store keyed by path alone. The digest is recomputed from the
/// content on every access and stored under the path, so the result is
/// never stale, whatever the store held before.
pub struct ContentHashCache {
    inner: FileCache,
}

impl ContentHashCache {
    /// The stored pairs, in recency order.
    pub closed spec fn entries(&self) -> Entries {
        self.inner.entries()
    }

    /// The bound the store was created with.
    pub closed spec fn capacity(&self) -> nat {
        self.inner.capacity()
    }

    /// The inner store is well-formed.
    pub closed spec fn wf(&self) -> bool {
        self.inner.wf()
    }

    /// An empty cache; a zero capacity is raised to one.
    pub fn new(capacity: usize) -> (r: Self)
        ensures
            r.wf(),
            r.entries() == Seq::<((Seq<u8>, int, int), Seq<u8>)>::empty(),
            r.capacity() == (if capacity == 0 {
                1
            } else {
                capacity as nat
            }),
    {
        ContentHashCache { inner: FileCache::new(capacity) }
    }

    /// The lowercase hex SHA-256 digest of `content`, recomputed on this
    /// access and stored under the path; the result never depends on what
    /// the store held before.
    pub fn get_or_compute(&mut self, path: &Vec<u8>, content: &Vec<u8>) -> (r: Vec<u8>)
        requires
            old(self).wf(),
        ensures
            final(self).wf(),
            final(self).capacity() == old(self).capacity(),
            r@ == spec_content_hash(content@),
            final(self).entries() == put_model(
                old(self).entries(),
                old(self).capacity(),
                path_key(path@),
                spec_content_hash(content@),
            ),
    {
        let key = CacheKey {
            path: crate::bytes::subvec(path, 0, path.len()),
            modified: 0,
            size: 0,
        };
        proof {
            assert(path@.subrange(0, path@.len() as int) =~= path@);
            assert(key@ == path_key(path@));
        }
        let h = content_hash(content);
        let stored = crate::bytes::subvec(&h, 0, h.len());
        proof {
            assert(h@.subrange(0, h@.len() as int) =~= h@);
        }
        self.inner.insert(key, stored);
        h
    }
}

} // verus!
