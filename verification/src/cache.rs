//! Cache policies that a memoising solver stores partial answers in.
use std::collections::HashMap;
use std::hash::Hash;
use vstd::prelude::*;

verus! {

/// A cache whose lookups borrow from it for the scope `'a`.
pub trait ScopedCachePolicy<'a, K, V> {
    /// The entries that the cache holds.
    spec fn entries(&self) -> Map<K, V>;

    /// The keys that `set` may be called with.
    spec fn domain(&self) -> Set<K>;

    /// Whether the entries describe the cache: always, but for a hash map
    /// whose key type's hashing and equality vstd does not model.
    spec fn wf(&self) -> bool;

    /// Whether `set` stores every entry it is given (rather than dropping some).
    spec fn keeps(&self) -> bool;

    /// Looks a key up: `Some` exactly when the cache holds an entry for it.
    fn get(&'a self, k: &K) -> (r: Option<&'a V>)
        ensures
            self.wf() ==> match r {
                Some(v) => self.entries().contains_key(*k) && self.entries()[*k] == *v,
                None => !self.entries().contains_key(*k),
            },
    ;

    /// Offers an entry; the cache may keep it or drop it, and keeps nothing
    /// it was not given.
    fn set(&'a mut self, k: K, v: V)
        requires
            old(self).domain().contains(k),
        ensures
            final(self).wf() == old(self).wf(),
            final(self).keeps() == old(self).keeps(),
            final(self).domain() == old(self).domain(),
            old(self).wf() ==> final(self).entries().submap_of(old(self).entries().insert(k, v)),
            old(self).wf() && old(self).keeps() ==> final(self).entries() == old(self).entries().insert(
                k,
                v,
            ),
    ;
}


/// Reading back what was stored, for a cache that keeps what it is given
/// (as `CacheAll`, `CacheVec` and `CacheArray` do): after `set(k, v)`, `get(k)`
/// finds `v`, and every other key finds what it found before.
pub proof fn lemma_get_after_set<'a, K, V, C: ScopedCachePolicy<'a, K, V>>(
    before: C,
    after: C,
    k: K,
    v: V,
    other: K,
)
    requires
        after.entries() == before.entries().insert(k, v),
    ensures
        after.entries().contains_key(k),
        after.entries()[k] == v,
        other != k ==> after.entries().contains_key(other) == before.entries().contains_key(other),
        other != k && before.entries().contains_key(other) ==> after.entries()[other]
            == before.entries()[other],
{
}

/// The value that the last of `sets` to store key `k` gives it, if any.
pub open spec fn last_set<K, V>(sets: Seq<(K, V)>, k: K) -> Option<V>
    decreases sets.len(),
{
    if sets.len() == 0 {
        None
    } else if sets.last().0 == k {
        Some(sets.last().1)
    } else {
        last_set(sets.drop_last(), k)
    }
}

/// Reading back after several stores, for a cache that keeps what it is
/// given: when `caches[0]` is empty and each `caches[j + 1]` is `caches[j]`
/// after `set(sets[j])` (as `set` gives for `CacheAll`, `CacheVec` and
/// `CacheArray`), `get(k)` on the last finds the value of the last set of
/// `k`, and nothing for a key never set.
pub proof fn lemma_get_after_sets<'a, K, V, C: ScopedCachePolicy<'a, K, V>>(
    caches: Seq<C>,
    sets: Seq<(K, V)>,
    k: K,
)
    requires
        caches.len() == sets.len() + 1,
        caches[0].entries() == Map::<K, V>::empty(),
        forall|j: int| #![trigger sets[j]]
            0 <= j < sets.len() ==> caches[j + 1].entries() == caches[j].entries().insert(
                sets[j].0,
                sets[j].1,
            ),
    ensures
        caches.last().entries().contains_key(k) == last_set(sets, k) is Some,
        last_set(sets, k) matches Some(v) ==> caches.last().entries()[k] == v,
    decreases sets.len(),
{
    if sets.len() > 0 {
        let n = sets.len() - 1;
        assert(caches[n + 1].entries() == caches[n].entries().insert(sets[n].0, sets[n].1));
        assert forall|j: int| #![trigger sets.drop_last()[j]]
            0 <= j < sets.drop_last().len() implies caches.drop_last()[j + 1].entries()
            == caches.drop_last()[j].entries().insert(
            sets.drop_last()[j].0,
            sets.drop_last()[j].1,
        ) by {
            assert(sets[j] == sets.drop_last()[j]);
        }
        lemma_get_after_sets(caches.drop_last(), sets.drop_last(), k);
    }
}

/// A cache whose lookups may borrow from it for any scope.
pub trait ArbitraryScopeCachePolicy<K, V>: for<'a> ScopedCachePolicy<'a, K, V> {

}

impl<ASCP: for<'a> ScopedCachePolicy<'a, K, V>, K, V> ArbitraryScopeCachePolicy<K, V> for ASCP {

}

/// Keeps every entry it is given, in a hash map.
pub struct CacheAll<K, V> {
    inner: HashMap<K, V>,
}

impl<K, V> CacheAll<K, V> {
    /// An empty cache.
    pub fn new() -> (r: Self)
        ensures
            r.entries() == Map::<K, V>::empty(),
    {
        Self { inner: HashMap::new() }
    }

    /// The entries of the cache.
    pub closed spec fn entries(&self) -> Map<K, V> {
        self.inner@
    }
}

impl<'a, K: Eq + Hash, V> ScopedCachePolicy<'a, K, V> for CacheAll<K, V> {
    open spec fn entries(&self) -> Map<K, V> {
        CacheAll::entries(self)
    }

    open spec fn domain(&self) -> Set<K> {
        Set::full()
    }

    open spec fn wf(&self) -> bool {
        vstd::std_specs::hash::obeys_key_model::<K>()
    }

    open spec fn keeps(&self) -> bool {
        true
    }

    fn get(&'a self, k: &K) -> (r: Option<&'a V>) {
        broadcast use vstd::std_specs::hash::group_hash_axioms;
        self.inner.get(k)
    }

    fn set(&'a mut self, k: K, v: V)
        ensures
            old(self).wf() ==> final(self).entries() == old(self).entries().insert(k, v),
    {
        broadcast use vstd::std_specs::hash::group_hash_axioms;
        self.inner.insert(k, v);
    }
}


/// Keeps nothing: every lookup misses.
pub struct NoCache;

impl<'a, K, V> ScopedCachePolicy<'a, K, V> for NoCache {
    open spec fn entries(&self) -> Map<K, V> {
        Map::empty()
    }

    open spec fn domain(&self) -> Set<K> {
        Set::full()
    }

    open spec fn wf(&self) -> bool {
        true
    }

    open spec fn keeps(&self) -> bool {
        false
    }

    fn get(&self, _k: &K) -> (r: Option<&V>) {
        None
    }

    fn set(&mut self, _k: K, _v: V) {
    }
}

/// Keeps entries for `usize` keys in a vector indexed by the key, which grows
/// to fit the largest key set so far.
#[derive(Debug)]
pub struct CacheVec<T>(Vec<Option<T>>);

impl<T> Default for CacheVec<T> {
    fn default() -> (r: Self)
        ensures
            r.entries() == Map::<usize, T>::empty(),
            r.slots() == 0,
    {
        Self::new()
    }
}

impl<V> CacheVec<V> {
    /// An empty cache.
    pub fn new() -> (r: Self)
        ensures
            r.entries() == Map::<usize, V>::empty(),
            r.slots() == 0,
    {
        Self(vec![])
    }

    /// An empty cache whose vector has room for `initial_capacity` slots.
    pub fn new_with_capacity(initial_capacity: usize) -> (r: Self)
        ensures
            r.entries() == Map::<usize, V>::empty(),
            r.slots() == 0,
    {
        let vec = Vec::with_capacity(initial_capacity);
        Self(vec)
    }

    /// The number of slots the vector holds.
    pub closed spec fn slots(&self) -> nat {
        self.0@.len()
    }

    /// The entries of the cache: the slots that hold a value.
    pub closed spec fn entries(&self) -> Map<usize, V> {
        Map::new(
            |k: usize| k < self.0@.len() && self.0@[k as int] is Some,
            |k: usize| self.0@[k as int]->Some_0,
        )
    }
}

impl<'a, V: Clone + 'a> ScopedCachePolicy<'a, usize, V> for CacheVec<V> {
    open spec fn entries(&self) -> Map<usize, V> {
        CacheVec::entries(self)
    }

    /// A key must leave room for the vector length `k + 1`.
    open spec fn domain(&self) -> Set<usize> {
        Set::new(|k: usize| k < usize::MAX)
    }

    open spec fn wf(&self) -> bool {
        true
    }

    open spec fn keeps(&self) -> bool {
        true
    }

    /// Never fails: a key beyond every slot finds nothing.
    fn get(&self, k: &usize) -> (r: Option<&V>)
        ensures
            *k >= self.slots() ==> r is None,
    {
        if *k < self.0.len() {
            match &self.0[*k] {
                Some(v) => Some(v),
                None => None,
            }
        } else {
            None
        }
    }

    fn set(&mut self, k: usize, v: V)
        ensures
            final(self).entries() == old(self).entries().insert(k, v),
            final(self).slots() == if k < old(self).slots() { old(self).slots() as int } else { k + 1 },
    {
        let len = self.0.len();
        if k >= len {
            self.0.resize(k + 1, None);
        }
        self.0.set(k, Some(v));
        proof {
            assert(self.entries() =~= old(self).entries().insert(k, v));
        }
    }
}

/// Keeps entries for the keys below `N` in a fixed-size array.
#[derive(Debug)]
pub struct CacheArray<T, const N: usize>([Option<T>; N]);

/// An empty slot, whatever its index.
fn empty_slot<T>(_index: usize) -> (r: Option<T>)
    ensures
        r is None,
{
    None
}

/// Calls `std::array::from_fn` with `empty_slot`. Its documentation says that
/// each element of the array is what the callback returns for that element's
/// index; so every slot is empty.
#[verifier::external_body]
fn empty_slots<T, const N: usize>() -> (r: [Option<T>; N])
    ensures
        forall|i: int| 0 <= i < N ==> r@[i] is None,
{
    std::array::from_fn(empty_slot::<T>)
}

impl<T: Clone, const L: usize> CacheArray<T, L> {
    /// An empty cache.
    pub fn new() -> (r: Self)
        ensures
            r.entries() == Map::<usize, T>::empty(),
    {
        let r = Self(empty_slots());
        proof {
            assert(r.entries() =~= Map::<usize, T>::empty());
        }
        r
    }
}

impl<T, const N: usize> CacheArray<T, N> {
    /// The entries of the cache: the slots that hold a value.
    pub closed spec fn entries(&self) -> Map<usize, T> {
        Map::new(
            |k: usize| k < N && self.0@[k as int] is Some,
            |k: usize| self.0@[k as int]->Some_0,
        )
    }
}

impl<T: Clone, const N: usize> Default for CacheArray<T, N> {
    fn default() -> (r: Self)
        ensures
            r.entries() == Map::<usize, T>::empty(),
    {
        Self::new()
    }
}

impl<'a, V, const N: usize> ScopedCachePolicy<'a, usize, V> for CacheArray<V, N> {
    open spec fn entries(&self) -> Map<usize, V> {
        CacheArray::entries(self)
    }

    /// Only the keys below `N` have a slot.
    open spec fn domain(&self) -> Set<usize> {
        Set::new(|k: usize| k < N)
    }

    open spec fn wf(&self) -> bool {
        true
    }

    open spec fn keeps(&self) -> bool {
        true
    }

    /// Never fails: a key with no slot (`k >= N`) finds nothing.
    fn get(&self, k: &usize) -> (r: Option<&V>)
        ensures
            *k >= N ==> r is None,
    {
        if *k < N {
            match &self.0[*k] {
                Some(v) => Some(v),
                None => None,
            }
        } else {
            None
        }
    }

    fn set(&mut self, k: usize, v: V)
        ensures
            final(self).entries() == old(self).entries().insert(k, v),
    {
        self.0[k] = Some(v);
        proof {
            assert(self.entries() =~= old(self).entries().insert(k, v));
        }
    }
}

} // verus!
