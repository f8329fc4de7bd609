//! A bucketed associative container with pluggable hashing.
//!
//! [`Carta`] maps keys to shared value handles. It owns a fixed-length table
//! of buckets; a [`provider::HashProvider`] resolves each key to one bucket,
//! and within a bucket entries are found by key equality, never by digest
//! alone, so colliding keys coexist as distinct entries. The bucket count is
//! chosen at construction and never changes: there is no rehashing, by
//! design, so a bucket's occupancy grows without bound as keys accumulate and
//! lookup in an overfull bucket degrades toward a linear scan.
//!
//! Values are handed out as [`Arc`] handles shared with the entry's own
//! value cell. A handle returned by [`Carta::get`] stays valid and unchanged
//! however the map is changed afterwards: replacing or removing the entry
//! swaps or drops the cell's handle, never the value behind one already
//! handed out.
//!
//! Every operation is specified against the map's abstract view, a
//! `Map<K, V>` from keys to current values, reached by [`Carta::view`].
//!
//! Mutating operations take the map by exclusive borrow, so exclusive access
//! is enforced by the borrow rules rather than by per-bucket locks. Two
//! consequences are deliberate and documented here: there is no poisoned
//! state to surface — every operation is total, and a missing key is an
//! empty result, never an error — and all operations address entries through
//! the stored key type `K`, lookups and updates alike.

use std::sync::Arc;
use vstd::prelude::*;

mod bucket;
pub mod laws;
pub mod provider;

use bucket::{distinct_keys, entry_value, has_key, keys_reflect_eq};
use provider::HashProvider;

verus! {

/// The bucket count used by [`Carta::new_with_hash_builder`]: on the order
/// of tens of thousands, trading memory for short per-bucket scans.
pub const DEFAULT_BUCKET_COUNT: usize = 32768;

/// A fixed-size table of buckets, each an ordered list of entries, with a
/// hash provider that assigns every key to one bucket.
pub struct Carta<K, V, P> {
    hash_builder: P,
    buckets: Vec<Vec<(K, Arc<V>)>>,
}

impl<K: Eq, V, P: HashProvider<K>> Carta<K, V, P> {
    /// The number of buckets, fixed for the map's whole lifetime.
    pub closed spec fn bucket_count(&self) -> nat {
        self.buckets@.len()
    }

    /// The hash provider given at construction.
    pub closed spec fn provider(&self) -> P {
        self.hash_builder
    }

    /// The bucket that `k` resolves to.
    pub closed spec fn bucket_index(&self, k: K) -> int {
        self.hash_builder.spec_digest(k) as int % self.buckets@.len() as int
    }

    /// The map's abstract content: each present key bound to the value its
    /// entry currently holds.
    pub closed spec fn view(&self) -> Map<K, V> {
        Map::new(
            |k: K| has_key(self.buckets@[self.bucket_index(k)]@, k),
            |k: K| entry_value(self.buckets@[self.bucket_index(k)]@, k),
        )
    }

    /// Structural invariant: at least one bucket, executable key equality
    /// that agrees with spec equality, and in every bucket distinct keys,
    /// each resolving to that very bucket.
    pub closed spec fn wf(&self) -> bool {
        &&& 0 < self.buckets@.len()
        &&& keys_reflect_eq::<K>()
        &&& forall|i: int| 0 <= i < self.buckets@.len() ==> #[trigger] self.bucket_wf(i)
    }

    spec fn bucket_wf(&self, i: int) -> bool {
        &&& distinct_keys(self.buckets@[i]@)
        &&& forall|j: int|
            0 <= j < self.buckets@[i]@.len() ==> self.bucket_index(
                #[trigger] self.buckets@[i]@[j].0,
            ) == i
    }

    /// Creates an empty map over `bucket_count` buckets.
    pub fn with_bucket_count(hash_builder: P, bucket_count: usize) -> (m: Self)
        requires
            0 < bucket_count,
            keys_reflect_eq::<K>(),
        ensures
            m.wf(),
            m.view() == Map::<K, V>::empty(),
            m.bucket_count() == bucket_count,
            m.provider() == hash_builder,
    {
        let mut buckets: Vec<Vec<(K, Arc<V>)>> = Vec::new();
        let mut i: usize = 0;
        while i < bucket_count
            invariant
                i <= bucket_count,
                buckets@.len() == i,
                forall|j: int| 0 <= j < i ==> #[trigger] buckets@[j]@.len() == 0,
            decreases bucket_count - i,
        {
            buckets.push(Vec::new());
            i += 1;
        }
        let m = Carta { hash_builder, buckets };
        proof {
            assert forall|i2: int| 0 <= i2 < m.buckets@.len() implies #[trigger] m.bucket_wf(
                i2,
            ) by {
                assert(m.buckets@[i2]@.len() == 0);
            }
            assert forall|k: K| !(#[trigger] m.view().contains_key(k)) by {
                assert(m.buckets@[m.bucket_index(k)]@.len() == 0);
            }
            assert(m.view() =~= Map::<K, V>::empty());
        }
        m
    }

    /// Creates an empty map with [`DEFAULT_BUCKET_COUNT`] buckets.
    pub fn new_with_hash_builder(hash_builder: P) -> (m: Self)
        requires
            keys_reflect_eq::<K>(),
        ensures
            m.wf(),
            m.view() == Map::<K, V>::empty(),
            m.bucket_count() == DEFAULT_BUCKET_COUNT,
            m.provider() == hash_builder,
    {
        Self::with_bucket_count(hash_builder, DEFAULT_BUCKET_COUNT)
    }

    /// Resolves `key` to its bucket position: digest modulo bucket count,
    /// from a fresh digest computation each call.
    fn get_index(&self, key: &K) -> (i: usize)
        requires
            self.wf(),
        ensures
            i as int == self.bucket_index(*key),
            i < self.bucket_count(),
    {
        let digest = self.hash_builder.digest(key);
        let n = self.buckets.len();
        (digest % (n as u64)) as usize
    }

    /// After one bucket changed, every other bucket still answers as before,
    /// and a changed bucket that kept its keys home keeps the map well
    /// formed.
    proof fn lemma_one_bucket_changed(pre: Self, post: Self, i: int)
        requires
            pre.wf(),
            0 <= i < pre.buckets@.len(),
            post.hash_builder == pre.hash_builder,
            post.buckets@.len() == pre.buckets@.len(),
            forall|j: int|
                0 <= j < pre.buckets@.len() && j != i ==> post.buckets@[j] == pre.buckets@[j],
            distinct_keys(post.buckets@[i]@),
            forall|k: K|
                #[trigger] has_key(post.buckets@[i]@, k) ==> has_key(pre.buckets@[i]@, k)
                    || pre.bucket_index(k) == i,
        ensures
            post.wf(),
            forall|k: K| #[trigger] post.bucket_index(k) == pre.bucket_index(k),
            forall|k: K|
                pre.bucket_index(k) != i ==> (#[trigger] post.view().contains_key(k)
                    == pre.view().contains_key(k) && (pre.view().contains_key(k)
                    ==> post.view()[k] == pre.view()[k])),
            forall|k: K|
                pre.bucket_index(k) == i ==> (#[trigger] post.view().contains_key(k) == has_key(
                    post.buckets@[i]@,
                    k,
                ) && (has_key(post.buckets@[i]@, k) ==> post.view()[k] == entry_value(
                    post.buckets@[i]@,
                    k,
                ))),
            forall|k: K|
                pre.bucket_index(k) == i ==> (#[trigger] pre.view().contains_key(k) == has_key(
                    pre.buckets@[i]@,
                    k,
                ) && (has_key(pre.buckets@[i]@, k) ==> pre.view()[k] == entry_value(
                    pre.buckets@[i]@,
                    k,
                ))),
    {
        assert forall|k: K| #[trigger] post.bucket_index(k) == pre.bucket_index(k) by {}
        assert forall|i2: int| 0 <= i2 < post.buckets@.len() implies #[trigger] post.bucket_wf(
            i2,
        ) by {
            assert(pre.bucket_wf(i2));
            if i2 == i {
                assert forall|j: int| 0 <= j < post.buckets@[i2]@.len() implies post.bucket_index(
                    #[trigger] post.buckets@[i2]@[j].0,
                ) == i2 by {
                    let k = post.buckets@[i2]@[j].0;
                    assert(has_key(post.buckets@[i]@, k));
                    if has_key(pre.buckets@[i]@, k) {
                        let jj = choose|jj: int|
                            0 <= jj < pre.buckets@[i]@.len() && pre.buckets@[i]@[jj].0 == k;
                        assert(pre.bucket_index(pre.buckets@[i]@[jj].0) == i);
                    }
                }
            }
        }
    }

    /// Binds `key` to `value`. If the key was absent, a fresh entry is
    /// appended to its bucket and nothing is returned; if it was present, the
    /// entry's value cell gets a handle to the new value and the previous
    /// handle is returned.
    pub fn insert(&mut self, key: K, value: V) -> (prev: Option<Arc<V>>)
        requires
            old(self).wf(),
        ensures
            final(self).wf(),
            final(self).bucket_count() == old(self).bucket_count(),
            final(self).provider() == old(self).provider(),
            final(self).view() == old(self).view().insert(key, value),
            match prev {
                Some(p) => old(self).view().contains_key(key) && *p == old(self).view()[key],
                None => !old(self).view().contains_key(key),
            },
    {
        let i = self.get_index(&key);
        proof {
            assert(old(self).bucket_wf(i as int));
        }
        let r = bucket::put(&mut self.buckets[i], key, value);
        proof {
            Self::lemma_one_bucket_changed(*old(self), *self, i as int);
            assert forall|k: K| #[trigger] self.view().contains_key(k) == old(
                self,
            ).view().insert(key, value).contains_key(k) && (self.view().contains_key(k)
                ==> self.view()[k] == old(self).view().insert(key, value)[k]) by {
                if old(self).bucket_index(k) == i as int {
                    if k != key && has_key(old(self).buckets@[i as int]@, k) {
                        assert(entry_value(self.buckets@[i as int]@, k) == entry_value(
                            old(self).buckets@[i as int]@,
                            k,
                        ));
                    }
                }
            }
            assert(self.view() =~= old(self).view().insert(key, value));
        }
        r
    }

    /// Returns a fresh shared handle to the value bound to `key`, or nothing
    /// if the key is absent. The map itself is untouched, and the handle is
    /// the caller's own: later inserts, updates or removals of the key leave
    /// it as it is.
    pub fn get(&self, key: &K) -> (r: Option<Arc<V>>)
        requires
            self.wf(),
        ensures
            match r {
                Some(a) => self.view().contains_key(*key) && *a == self.view()[*key],
                None => !self.view().contains_key(*key),
            },
    {
        let i = self.get_index(key);
        proof {
            assert(self.bucket_wf(i as int));
        }
        bucket::read(&self.buckets[i], key)
    }

    /// Deletes `key`'s entry and returns its value handle, or returns
    /// nothing and changes nothing if the key is absent.
    pub fn remove(&mut self, key: &K) -> (prev: Option<Arc<V>>)
        requires
            old(self).wf(),
        ensures
            final(self).wf(),
            final(self).bucket_count() == old(self).bucket_count(),
            final(self).provider() == old(self).provider(),
            final(self).view() == old(self).view().remove(*key),
            match prev {
                Some(p) => old(self).view().contains_key(*key) && *p == old(self).view()[*key],
                None => !old(self).view().contains_key(*key),
            },
    {
        let i = self.get_index(key);
        proof {
            assert(old(self).bucket_wf(i as int));
        }
        let r = bucket::take(&mut self.buckets[i], key);
        proof {
            Self::lemma_one_bucket_changed(*old(self), *self, i as int);
            assert forall|k: K| #[trigger] self.view().contains_key(k) == old(
                self,
            ).view().remove(*key).contains_key(k) && (self.view().contains_key(k)
                ==> self.view()[k] == old(self).view().remove(*key)[k]) by {
                if old(self).bucket_index(k) == i as int {
                    if k != *key && has_key(old(self).buckets@[i as int]@, k) {
                        assert(entry_value(self.buckets@[i as int]@, k) == entry_value(
                            old(self).buckets@[i as int]@,
                            k,
                        ));
                    }
                }
            }
            assert(self.view() =~= old(self).view().remove(*key));
        }
        r
    }

    /// Applies `f` to the value bound to `key`, stores the result as the
    /// entry's new value, and returns a handle to it; returns nothing and
    /// changes nothing if the key is absent.
    ///
    /// `f` runs while the map is exclusively borrowed, so it cannot reach
    /// back into this map; the borrow checker enforces what would otherwise
    /// be a reentrancy deadlock hazard.
    pub fn update<F: Fn(&V) -> V>(&mut self, key: K, f: F) -> (r: Option<Arc<V>>)
        requires
            old(self).wf(),
            old(self).view().contains_key(key) ==> call_requires(f, (&old(self).view()[key],)),
        ensures
            final(self).wf(),
            final(self).bucket_count() == old(self).bucket_count(),
            final(self).provider() == old(self).provider(),
            r is Some <==> old(self).view().contains_key(key),
            match r {
                Some(res) => {
                    &&& call_ensures(f, (&old(self).view()[key],), *res)
                    &&& final(self).view() == old(self).view().insert(key, *res)
                },
                None => final(self).view() == old(self).view(),
            },
    {
        let i = self.get_index(&key);
        proof {
            assert(old(self).bucket_wf(i as int));
        }
        let r = bucket::transform(&mut self.buckets[i], &key, &f);
        proof {
            Self::lemma_one_bucket_changed(*old(self), *self, i as int);
            match &r {
                Some(res) => {
                    assert forall|k: K| #[trigger] self.view().contains_key(k) == old(
                        self,
                    ).view().insert(key, **res).contains_key(k) && (self.view().contains_key(k)
                        ==> self.view()[k] == old(self).view().insert(key, **res)[k]) by {
                        if old(self).bucket_index(k) == i as int {
                            if k != key && has_key(old(self).buckets@[i as int]@, k) {
                                assert(entry_value(self.buckets@[i as int]@, k) == entry_value(
                                    old(self).buckets@[i as int]@,
                                    k,
                                ));
                            }
                        }
                    }
                    assert(self.view() =~= old(self).view().insert(key, **res));
                },
                None => {
                    assert(self.view() =~= old(self).view());
                },
            }
        }
        r
    }
}

} // verus!
