//! A bounded cache of values by key, which lets go of what was not used for longest.
use vstd::prelude::*;
use vstd::string::*;

verus! {

/// A cached value: a mark that tells whether it is stale, the content, and its kind.
pub type CachedView = (u64, Seq<u8>, Seq<char>);

/// Cached values by key, the most recently used first.
pub type EntriesView = Seq<(Seq<u8>, CachedView)>;

/// The `lru::LruCache` of the crate of that name.
#[verifier::external_type_specification]
#[verifier::external_body]
#[verifier::reject_recursive_types(K)]
#[verifier::reject_recursive_types(V)]
#[verifier::reject_recursive_types(S)]
pub struct ExLruCache<K, V, S>(lru::LruCache<K, V, S>);

/// The hash builder that `lru` takes where none is given.
#[verifier::external_type_specification]
#[verifier::external_body]
pub struct ExDefaultHasher(lru::DefaultHasher);

/// What a cache holds, the most recently used first.
pub uninterp spec fn cache_entries(
    c: lru::LruCache<Vec<u8>, (u64, Vec<u8>, String), lru::DefaultHasher>,
) -> Seq<(Seq<u8>, (u64, Seq<u8>, Seq<char>))>;

/// How many values a cache holds at most.
pub uninterp spec fn cache_capacity(
    c: lru::LruCache<Vec<u8>, (u64, Vec<u8>, String), lru::DefaultHasher>,
) -> nat;

/// The entries without those under a key.
pub open spec fn without(entries: EntriesView, key: Seq<u8>) -> EntriesView
    decreases entries.len(),
{
    if entries.len() == 0 {
        entries
    } else if entries.last().0 == key {
        without(entries.drop_last(), key)
    } else {
        without(entries.drop_last(), key).push(entries.last())
    }
}

/// The value under a key.
pub open spec fn cached(entries: EntriesView, key: Seq<u8>) -> Option<CachedView>
    decreases entries.len(),
{
    if entries.len() == 0 {
        None
    } else if entries.last().0 == key {
        Some(entries.last().1)
    } else {
        cached(entries.drop_last(), key)
    }
}

/// The entries as far as the capacity goes.
pub open spec fn capped(entries: EntriesView, capacity: nat) -> EntriesView {
    if entries.len() <= capacity {
        entries
    } else {
        entries.take(capacity as int)
    }
}

/// Calls `LruCache::unbounded`: the cache holds nothing, and sets no room aside.
#[verifier::external_body]
fn cache_unbounded() -> (c: lru::LruCache<Vec<u8>, (u64, Vec<u8>, String), lru::DefaultHasher>)
    ensures
        cache_entries(c) == EntriesView::empty(),
        cache_capacity(c) == usize::MAX,
{
    lru::LruCache::unbounded()
}

/// Calls `LruCache::resize` for a capacity that is not zero. The least recently used entries
/// that go beyond it are dropped.
#[verifier::external_body]
fn cache_resize(
    c: &mut lru::LruCache<Vec<u8>, (u64, Vec<u8>, String), lru::DefaultHasher>,
    capacity: usize,
)
    requires
        capacity > 0,
    ensures
        cache_entries(*final(c)) == capped(cache_entries(*old(c)), capacity as nat),
        cache_capacity(*final(c)) == capacity,
{
    c.resize(std::num::NonZeroUsize::new(capacity).unwrap())
}

/// Calls `LruCache::get` and copies the value. A value that is found becomes the most
/// recently used one.
#[verifier::external_body]
fn cache_get(
    c: &mut lru::LruCache<Vec<u8>, (u64, Vec<u8>, String), lru::DefaultHasher>,
    key: &Vec<u8>,
) -> (r: Option<(u64, Vec<u8>, String)>)
    ensures
        cache_capacity(*final(c)) == cache_capacity(*old(c)),
        match r {
            Some(v) => cached(cache_entries(*old(c)), key@) == Some((v.0, v.1@, v.2@))
                && cache_entries(*final(c)) == seq![(key@, (v.0, v.1@, v.2@))] + without(
                cache_entries(*old(c)),
                key@,
            ),
            None => cached(cache_entries(*old(c)), key@) is None && cache_entries(*final(c))
                == cache_entries(*old(c)),
        },
{
    c.get(key).cloned()
}

/// Calls `LruCache::put`: the value takes the place of one under its key and becomes the
/// most recently used one; beyond the capacity the one not used for longest leaves.
#[verifier::external_body]
fn cache_put(
    c: &mut lru::LruCache<Vec<u8>, (u64, Vec<u8>, String), lru::DefaultHasher>,
    key: Vec<u8>,
    value: (u64, Vec<u8>, String),
)
    ensures
        cache_capacity(*final(c)) == cache_capacity(*old(c)),
        cache_entries(*final(c)) == capped(
            seq![(key@, (value.0, value.1@, value.2@))] + without(cache_entries(*old(c)), key@),
            cache_capacity(*old(c)),
        ),
{
    c.put(key, value);
}

/// Calls `LruCache::pop`: the value under the key leaves.
#[verifier::external_body]
fn cache_pop(
    c: &mut lru::LruCache<Vec<u8>, (u64, Vec<u8>, String), lru::DefaultHasher>,
    key: &Vec<u8>,
)
    ensures
        cache_capacity(*final(c)) == cache_capacity(*old(c)),
        cache_entries(*final(c)) == without(cache_entries(*old(c)), key@),
{
    c.pop(key);
}

/// Calls `LruCache::clear`: nothing is left.
#[verifier::external_body]
fn cache_clear(c: &mut lru::LruCache<Vec<u8>, (u64, Vec<u8>, String), lru::DefaultHasher>)
    ensures
        cache_capacity(*final(c)) == cache_capacity(*old(c)),
        cache_entries(*final(c)) == EntriesView::empty(),
{
    c.clear();
}

/// Calls `LruCache::len`: the number of values.
#[verifier::external_body]
fn cache_len(c: &lru::LruCache<Vec<u8>, (u64, Vec<u8>, String), lru::DefaultHasher>) -> (n: usize)
    ensures
        n == cache_entries(*c).len(),
{
    c.len()
}

/// Calls `LruCache::contains`: whether there is a value under the key. The order of use
/// stays as it is.
#[verifier::external_body]
fn cache_contains(
    c: &lru::LruCache<Vec<u8>, (u64, Vec<u8>, String), lru::DefaultHasher>,
    key: &Vec<u8>,
) -> (r: bool)
    ensures
        r == (cached(cache_entries(*c), key@) is Some),
{
    c.contains(key)
}

/// A bounded cache.
pub struct Cache {
    inner: lru::LruCache<Vec<u8>, (u64, Vec<u8>, String), lru::DefaultHasher>,
}

impl Cache {
    /// What the cache holds, the most recently used first.
    pub closed spec fn entries(self) -> EntriesView {
        cache_entries(self.inner)
    }

    /// How many values the cache holds at most.
    pub closed spec fn capacity(self) -> nat {
        cache_capacity(self.inner)
    }

    /// A cache for `size` values, for at least one.
    pub fn new(size: usize) -> (c: Self)
        ensures
            c.entries() == EntriesView::empty(),
            c.capacity() == (if size == 0 {
                1
            } else {
                size as int
            }),
    {
        let capacity: usize = if size == 0 {
            1
        } else {
            size
        };
        let mut inner = cache_unbounded();
        cache_resize(&mut inner, capacity);
        Cache { inner }
    }

    /// The value under a key, which becomes the most recently used one.
    pub fn get(&mut self, key: &Vec<u8>) -> (r: Option<(u64, Vec<u8>, String)>)
        ensures
            final(self).capacity() == old(self).capacity(),
            match r {
                Some(v) => cached(old(self).entries(), key@) == Some((v.0, v.1@, v.2@)) && final(self).entries() == seq![(key@, (v.0, v.1@, v.2@))] + without(
                    old(self).entries(),
                    key@,
                ),
                None => cached(old(self).entries(), key@) is None && final(self).entries() == old(self).entries(),
            },
    {
        cache_get(&mut self.inner, key)
    }

    /// Whether there is a value under a key.
    pub fn contains(&self, key: &Vec<u8>) -> (r: bool)
        ensures
            r == (cached(self.entries(), key@) is Some),
    {
        cache_contains(&self.inner, key)
    }

    /// Puts a value under a key.
    pub fn put(&mut self, key: Vec<u8>, value: (u64, Vec<u8>, String))
        ensures
            final(self).capacity() == old(self).capacity(),
            final(self).entries() == capped(
                seq![(key@, (value.0, value.1@, value.2@))] + without(old(self).entries(), key@),
                old(self).capacity(),
            ),
    {
        cache_put(&mut self.inner, key, value);
    }

    /// Lets go of the value under a key.
    pub fn pop(&mut self, key: &Vec<u8>)
        ensures
            final(self).capacity() == old(self).capacity(),
            final(self).entries() == without(old(self).entries(), key@),
    {
        cache_pop(&mut self.inner, key);
    }

    /// Lets go of all values.
    pub fn clear(&mut self)
        ensures
            final(self).capacity() == old(self).capacity(),
            final(self).entries() == EntriesView::empty(),
    {
        cache_clear(&mut self.inner);
    }

    /// Number of values.
    pub fn len(&self) -> (n: usize)
        ensures
            n == self.entries().len(),
    {
        cache_len(&self.inner)
    }
}

/// Every entry that is left was there before.
pub proof fn lemma_without_subset(entries: EntriesView, key: Seq<u8>)
    ensures
        forall|i: int|
            0 <= i < without(entries, key).len() ==> entries.contains(
                #[trigger] without(entries, key)[i],
            ),
    decreases entries.len(),
{
    if entries.len() > 0 {
        let init = entries.drop_last();
        lemma_without_subset(init, key);
        let w = without(entries, key);
        assert forall|i: int| 0 <= i < w.len() implies entries.contains(#[trigger] w[i]) by {
            let wi = without(init, key);
            if i < wi.len() {
                assert(init.contains(wi[i]));
                let k = choose|k: int| 0 <= k < init.len() && init[k] == wi[i];
                assert(entries[k] == wi[i]);
            } else {
                assert(entries[entries.len() - 1] == w[i]);
            }
        }
    }
}

/// A value that is found is one of the entries.
pub proof fn lemma_cached_entry(entries: EntriesView, key: Seq<u8>)
    ensures
        cached(entries, key) matches Some(v) ==> entries.contains((key, v)),
    decreases entries.len(),
{
    if entries.len() > 0 {
        if entries.last().0 == key {
            assert(entries[entries.len() - 1] == (key, entries.last().1));
        } else {
            lemma_cached_entry(entries.drop_last(), key);
            if let Some(v) = cached(entries.drop_last(), key) {
                let init = entries.drop_last();
                let k = choose|k: int| 0 <= k < init.len() && init[k] == (key, v);
                assert(entries[k] == (key, v));
            }
        }
    }
}

} // verus!
