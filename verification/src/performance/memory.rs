//! Memory reuse and caching.

use vstd::prelude::*;
use crate::util::assoc::{
    entries_map, keys_unique, lemma_entries_map_absent, lemma_entries_map_at,
    lemma_entries_map_update,
};

verus! {

/// Cache eviction strategy.
#[derive(Debug, Clone, Copy, PartialEq, Eq, Structural)]
pub enum CacheStrategy {
    /// Least recently used.
    Lru,
    /// Least frequently used.
    Lfu,
    /// First in, first out.
    Fifo,
}

/// A pool of values kept for reuse, holding at most `capacity` of them.
pub struct MemoryPool<T> {
    pool: Vec<T>,
    capacity: usize,
}

impl<T> MemoryPool<T> {
    /// The pooled values, in the order they were released.
    pub closed spec fn items(&self) -> Seq<T> {
        self.pool@
    }

    /// How many values the pool keeps at most.
    pub closed spec fn spec_capacity(&self) -> usize {
        self.capacity
    }

    /// Whether the pool holds no more values than its capacity.
    pub closed spec fn wf(&self) -> bool {
        self.pool@.len() <= self.capacity
    }

    /// An empty pool that keeps at most `capacity` values.
    pub fn new(capacity: usize) -> (res: Self)
        ensures
            res.wf(),
            res.items() == Seq::<T>::empty(),
            res.spec_capacity() == capacity,
    {
        MemoryPool { pool: Vec::new(), capacity }
    }

    /// Takes the most recently released value, if any.
    pub fn acquire(&mut self) -> (res: Option<T>)
        requires
            old(self).wf(),
        ensures
            final(self).wf(),
            final(self).spec_capacity() == old(self).spec_capacity(),
            old(self).items().len() == 0 ==> res is None && final(self).items() == old(self).items(),
            old(self).items().len() > 0 ==> res == Some(old(self).items().last())
                && final(self).items() == old(self).items().drop_last(),
    {
        self.pool.pop()
    }

    /// Returns a value to the pool; it is dropped when the pool is full.
    pub fn release(&mut self, item: T)
        requires
            old(self).wf(),
        ensures
            final(self).wf(),
            final(self).spec_capacity() == old(self).spec_capacity(),
            final(self).items() == if old(self).items().len() < old(self).spec_capacity() {
                old(self).items().push(item)
            } else {
                old(self).items()
            },
    {
        if self.pool.len() < self.capacity {
            self.pool.push(item);
        }
    }
}

/// Counts describing a cache.
#[derive(Debug, Clone)]
pub struct CacheStats {
    pub size: usize,
    pub max_size: usize,
    pub strategy: CacheStrategy,
}

/// A key a cache can hold: keys are the same when their views are equal.
pub trait CacheKey: View + Sized {
    /// Whether `self` and `other` are the same key.
    fn same_key(&self, other: &Self) -> (res: bool)
        ensures
            res == (self@ == other@);
}

impl CacheKey for String {
    fn same_key(&self, other: &Self) -> (res: bool) {
        *self == *other
    }
}

impl CacheKey for i32 {
    fn same_key(&self, other: &Self) -> (res: bool) {
        *self == *other
    }
}

impl CacheKey for i64 {
    fn same_key(&self, other: &Self) -> (res: bool) {
        *self == *other
    }
}

impl CacheKey for u32 {
    fn same_key(&self, other: &Self) -> (res: bool) {
        *self == *other
    }
}

impl CacheKey for u64 {
    fn same_key(&self, other: &Self) -> (res: bool) {
        *self == *other
    }
}

impl CacheKey for usize {
    fn same_key(&self, other: &Self) -> (res: bool) {
        *self == *other
    }
}

impl CacheKey for char {
    fn same_key(&self, other: &Self) -> (res: bool) {
        *self == *other
    }
}

/// The size bound a cache keeps: its maximum size, but room for at least
/// the entry just inserted.
pub open spec fn size_bound(max_size: usize) -> nat {
    if max_size == 0 {
        1
    } else {
        max_size as nat
    }
}

/// The entries left when a cache of maximum size `max_size` makes room: a
/// full cache (one holding at least its maximum size) drops its oldest
/// entry.
pub open spec fn after_eviction<K, V>(entries: Seq<(K, V)>, max_size: usize) -> Seq<(K, V)> {
    if entries.len() >= max_size && entries.len() > 0 {
        entries.drop_first()
    } else {
        entries
    }
}

/// Whether some entry has key `k`.
pub open spec fn has_key<K, V>(entries: Seq<(K, V)>, k: K) -> bool {
    exists|i: int| 0 <= i < entries.len() && #[trigger] entries[i].0 == k
}

/// The entries after storing `v` for `k`: the entry with key `k` gets the
/// new value in its place, or a new entry is appended.
pub open spec fn put_entry<K, V>(entries: Seq<(K, V)>, k: K, v: V) -> Seq<(K, V)> {
    if has_key(entries, k) {
        let i = choose|i: int| 0 <= i < entries.len() && #[trigger] entries[i].0 == k;
        entries.update(i, (k, v))
    } else {
        entries.push((k, v))
    }
}

/// A bounded cache from keys to values.  When it is full, inserting first
/// evicts the entry that has been in it longest.
pub struct CacheManager<K, V> {
    entries: Vec<(K, V)>,
    max_size: usize,
    strategy: CacheStrategy,
}

impl<K: CacheKey, V: Clone> CacheManager<K, V> {
    /// The entries, oldest first, each key by its view.
    pub closed spec fn entries(&self) -> Seq<(K::V, V)> {
        self.entries@.map_values(|e: (K, V)| (e.0@, e.1))
    }

    /// The map from each cached key to its value.
    pub open spec fn contents(&self) -> Map<K::V, V> {
        entries_map(self.entries())
    }

    /// The maximum size given at creation.
    pub closed spec fn spec_max_size(&self) -> usize {
        self.max_size
    }

    /// The eviction strategy given at creation.
    pub closed spec fn spec_strategy(&self) -> CacheStrategy {
        self.strategy
    }

    /// Whether no key is cached twice and the size bound holds.
    pub closed spec fn wf(&self) -> bool {
        &&& keys_unique(self.entries())
        &&& self.entries@.len() <= size_bound(self.max_size)
    }

    /// An empty cache holding at most `max_size` entries.
    pub fn new(max_size: usize, strategy: CacheStrategy) -> (res: Self)
        ensures
            res.wf(),
            res.entries() == Seq::<(K::V, V)>::empty(),
            res.spec_max_size() == max_size,
            res.spec_strategy() == strategy,
    {
        let res = CacheManager { entries: Vec::new(), max_size, strategy };
        assert(res.entries() =~= Seq::<(K::V, V)>::empty());
        res
    }

    /// The position of `key` among the entries, if it is there.
    fn position(&self, key: &K) -> (res: Option<usize>)
        ensures
            res matches Some(i) ==> i < self.entries@.len() && self.entries()[i as int].0 == key@,
            res is None ==> !has_key(self.entries(), key@),
    {
        let mut i: usize = 0;
        while i < self.entries.len()
            invariant
                i <= self.entries@.len(),
                forall|t: int| 0 <= t < i ==> self.entries()[t].0 != key@,
            decreases self.entries@.len() - i,
        {
            if self.entries[i].0.same_key(key) {
                return Some(i);
            }
            i = i + 1;
        }
        None
    }

    /// A copy of the value cached for `key`, if any: `Some` exactly for
    /// cached keys, with a clone of the cached value.
    pub fn get(&self, key: &K) -> (res: Option<V>)
        requires
            self.wf(),
        ensures
            res is Some <==> self.contents().dom().contains(key@),
            res matches Some(v) ==> cloned::<V>(self.contents()[key@], v),
    {
        match self.position(key) {
            Some(i) => {
                proof {
                    lemma_entries_map_at(self.entries(), i as int);
                }
                Some(self.entries[i].1.clone())
            },
            None => {
                proof {
                    lemma_entries_map_absent(self.entries(), key@);
                }
                None
            },
        }
    }

    /// Inserts `value` for `key`.  A full cache (one holding at least its
    /// maximum size) first evicts its oldest entry; then the entry for `key`
    /// takes the new value in its place, or a new entry is added last.  The
    /// cache then maps `key` to `value` and keeps everything else but the
    /// evicted entry.
    pub fn insert(&mut self, key: K, value: V)
        requires
            old(self).wf(),
        ensures
            final(self).wf(),
            final(self).spec_max_size() == old(self).spec_max_size(),
            final(self).spec_strategy() == old(self).spec_strategy(),
            final(self).entries() == put_entry(
                after_eviction(old(self).entries(), old(self).spec_max_size()),
                key@,
                value,
            ),
            final(self).contents() == entries_map(
                after_eviction(old(self).entries(), old(self).spec_max_size()),
            ).insert(key@, value),
    {
        let ghost k = key@;
        let ghost v = value;
        let ghost old_entries = self.entries();
        if self.entries.len() >= self.max_size && self.entries.len() > 0 {
            let ghost before = self.entries@;
            self.entries.remove(0);
            proof {
                assert(self.entries@ =~= before.drop_first());
                assert(self.entries() =~= old_entries.drop_first());
            }
        }
        let ghost base = self.entries();
        assert(base == after_eviction(old_entries, self.max_size));
        match self.position(&key) {
            Some(i) => {
                let ghost before = self.entries@;
                self.entries.set(i, (key, value));
                proof {
                    assert(self.entries() =~= base.update(i as int, (k, v)));
                    assert(has_key(base, k));
                    let j = choose|j: int| 0 <= j < base.len() && #[trigger] base[j].0 == k;
                    assert(j == i as int);
                    lemma_entries_map_update(base, i as int, v);
                    assert(keys_unique(self.entries()));
                }
            },
            None => {
                self.entries.push((key, value));
                proof {
                    assert(self.entries() =~= base.push((k, v)));
                    assert(keys_unique(self.entries())) by {
                        assert forall|a: int, b: int| 0 <= a < b < self.entries().len() implies self.entries()[a].0
                            != self.entries()[b].0 by {
                            if b == base.len() {
                                assert(base[a].0 != k);
                            }
                        }
                    }
                    lemma_entries_map_absent(base, k);
                    assert(base.push((k, v)).drop_last() =~= base);
                }
            },
        }
    }

    /// Empties the cache.
    pub fn clear(&mut self)
        ensures
            final(self).wf(),
            final(self).entries() == Seq::<(K::V, V)>::empty(),
            final(self).spec_max_size() == old(self).spec_max_size(),
            final(self).spec_strategy() == old(self).spec_strategy(),
    {
        self.entries.clear();
        assert(self.entries() =~= Seq::<(K::V, V)>::empty());
    }

    /// The number of cached entries.
    pub fn size(&self) -> (res: usize)
        ensures
            res == self.entries().len(),
    {
        self.entries.len()
    }

    /// The cache's size, maximum size and strategy.
    pub fn stats(&self) -> (res: CacheStats)
        ensures
            res.size == self.entries().len(),
            res.max_size == self.spec_max_size(),
            res.strategy == self.spec_strategy(),
    {
        CacheStats { size: self.size(), max_size: self.max_size, strategy: self.strategy }
    }
}

/// A read after a write gives back what was written: once `insert(key,
/// value)` has run on a cache, the cache holds `value` for `key`, whether or
/// not an entry was evicted first, so `get(&key)` returns a clone of it.
pub proof fn lemma_cache_read_after_write<K: CacheKey, V: Clone>(
    before: CacheManager<K, V>,
    after: CacheManager<K, V>,
    key: K,
    value: V,
)
    requires
        after.contents() == entries_map(after_eviction(before.entries(), before.spec_max_size())).insert(
            key@,
            value,
        ),
    ensures
        after.contents().dom().contains(key@),
        after.contents()[key@] == value,
{
}

/// An insert adds one entry to those left after eviction, unless its key is
/// among them; so an insert into a full cache of a key that the eviction
/// leaves out keeps the cache's size.
pub proof fn lemma_cache_insert_size<K, V>(entries: Seq<(K, V)>, max_size: usize, k: K, v: V)
    requires
        keys_unique(entries),
    ensures
        put_entry(after_eviction(entries, max_size), k, v).len() == after_eviction(entries, max_size).len()
            + if has_key(after_eviction(entries, max_size), k) {
            0int
        } else {
            1int
        },
        entries.len() >= max_size && entries.len() > 0 && !has_key(entries.drop_first(), k) ==> put_entry(
            after_eviction(entries, max_size),
            k,
            v,
        ).len() == entries.len(),
{
}

} // verus!
