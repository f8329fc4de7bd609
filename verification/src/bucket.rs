//! One bucket of the table: an ordered sequence of entries, each a key paired
//! with a shared handle to its current value.
//!
//! Entries are located by key equality alone. Every operation keeps the
//! bucket's keys distinct, so a key names at most one entry, and
//! [`entry_value`] is well defined for any key the bucket holds.

use std::sync::Arc;
use vstd::prelude::*;
use vstd::std_specs::cmp::PartialEqSpec;

verus! {

/// The executable `==` on `K` agrees with spec-level equality.
///
/// The map stores keys of any equatable type, but its abstract view is a
/// `Map<K, V>` whose keys are compared by spec equality. This predicate says
/// the two notions coincide: `K`'s `==` obeys its specification, and that
/// specification is spec equality. It holds for the primitive integer types,
/// and for any type whose `PartialEq` is honest field-by-field equality.
pub open spec fn keys_reflect_eq<K: PartialEq>() -> bool {
    &&& <K as PartialEqSpec>::obeys_eq_spec()
    &&& forall|a: &K, b: &K| #[trigger] a.eq_spec(b) <==> a == b
}

/// Does the bucket hold an entry for `k`?
pub open spec fn has_key<K, V>(b: Seq<(K, Arc<V>)>, k: K) -> bool {
    exists|j: int| 0 <= j < b.len() && b[j].0 == k
}

/// The value of `k`'s entry; meaningful only when the bucket's keys are
/// distinct and `has_key(b, k)` holds.
pub open spec fn entry_value<K, V>(b: Seq<(K, Arc<V>)>, k: K) -> V {
    *b[choose|j: int| 0 <= j < b.len() && b[j].0 == k].1
}

/// No two entries share a key.
pub open spec fn distinct_keys<K, V>(b: Seq<(K, Arc<V>)>) -> bool {
    forall|j1: int, j2: int| 0 <= j1 < j2 < b.len() ==> b[j1].0 != b[j2].0
}

/// In a bucket with distinct keys, an entry's position determines its value.
pub proof fn lemma_entry_value_at<K, V>(b: Seq<(K, Arc<V>)>, k: K, j: int)
    requires
        distinct_keys(b),
        0 <= j < b.len(),
        b[j].0 == k,
    ensures
        has_key(b, k),
        entry_value(b, k) == *b[j].1,
{
    assert(has_key(b, k));
    let j2 = choose|j2: int| 0 <= j2 < b.len() && b[j2].0 == k;
    if j2 < j {
        assert(b[j2].0 != b[j].0);
    } else if j < j2 {
        assert(b[j].0 != b[j2].0);
    }
}

/// Scans for an entry whose key equals `key`, returning its position.
fn find<K: PartialEq, V>(b: &Vec<(K, Arc<V>)>, key: &K) -> (r: Option<usize>)
    requires
        keys_reflect_eq::<K>(),
    ensures
        match r {
            Some(j) => j < b@.len() && b@[j as int].0 == *key,
            None => forall|j: int| 0 <= j < b@.len() ==> b@[j].0 != *key,
        },
{
    let n = b.len();
    for j in 0..n
        invariant
            keys_reflect_eq::<K>(),
            n == b@.len(),
            forall|jj: int| 0 <= jj < j ==> b@[jj].0 != *key,
    {
        if b[j].0 == *key {
            return Some(j);
        }
    }
    None
}

/// Binds `key` to `value`, replacing the entry's value handle in place if the
/// key is already present and appending a fresh entry otherwise. Returns the
/// previous value handle, if any.
pub fn put<K: PartialEq, V>(b: &mut Vec<(K, Arc<V>)>, key: K, value: V) -> (r: Option<Arc<V>>)
    requires
        keys_reflect_eq::<K>(),
        distinct_keys(old(b)@),
    ensures
        distinct_keys(final(b)@),
        forall|k2: K| #[trigger] has_key(final(b)@, k2) <==> (has_key(old(b)@, k2) || k2 == key),
        entry_value(final(b)@, key) == value,
        forall|k2: K|
            k2 != key && has_key(old(b)@, k2) ==> #[trigger] entry_value(final(b)@, k2)
                == entry_value(old(b)@, k2),
        match r {
            Some(prev) => has_key(old(b)@, key) && *prev == entry_value(old(b)@, key),
            None => !has_key(old(b)@, key),
        },
{
    match find(b, &key) {
        Some(j) => {
            let pair = b.remove(j);
            let fresh = Arc::new(value);
            b.insert(j, (key, fresh));
            proof {
                assert(b@ =~= old(b)@.update(j as int, (key, fresh)));
                lemma_entry_value_at(old(b)@, key, j as int);
                lemma_entry_value_at(b@, key, j as int);
                assert forall|k2: K| has_key(b@, k2) implies (has_key(old(b)@, k2) || k2
                    == key) by {
                    let jj = choose|jj: int| 0 <= jj < b@.len() && b@[jj].0 == k2;
                    if jj != j {
                        assert(old(b)@[jj].0 == k2);
                    }
                }
                assert forall|k2: K| has_key(old(b)@, k2) || k2 == key implies #[trigger] has_key(
                    b@,
                    k2,
                ) by {
                    if k2 == key {
                        assert(b@[j as int].0 == k2);
                    } else {
                        let jj = choose|jj: int| 0 <= jj < old(b)@.len() && old(b)@[jj].0 == k2;
                        if jj == j {
                            assert(old(b)@[j as int].0 == key);
                        }
                        assert(b@[jj].0 == k2);
                    }
                }
                assert forall|k2: K| k2 != key && has_key(old(b)@, k2) implies #[trigger] entry_value(
                    b@,
                    k2,
                ) == entry_value(old(b)@, k2) by {
                    let jj = choose|jj: int| 0 <= jj < old(b)@.len() && old(b)@[jj].0 == k2;
                    lemma_entry_value_at(old(b)@, k2, jj);
                    lemma_entry_value_at(b@, k2, jj);
                }
            }
            Some(pair.1)
        },
        None => {
            b.push((key, Arc::new(value)));
            proof {
                let last = b@.len() - 1;
                assert(b@[last].0 == key);
                lemma_entry_value_at(b@, key, last);
                assert forall|k2: K| has_key(b@, k2) implies (has_key(old(b)@, k2) || k2
                    == key) by {
                    let jj = choose|jj: int| 0 <= jj < b@.len() && b@[jj].0 == k2;
                    if jj < last {
                        assert(old(b)@[jj].0 == k2);
                    }
                }
                assert forall|k2: K| has_key(old(b)@, k2) || k2 == key implies #[trigger] has_key(
                    b@,
                    k2,
                ) by {
                    if k2 != key {
                        let jj = choose|jj: int| 0 <= jj < old(b)@.len() && old(b)@[jj].0 == k2;
                        assert(b@[jj].0 == k2);
                    }
                }
                assert forall|k2: K| k2 != key && has_key(old(b)@, k2) implies #[trigger] entry_value(
                    b@,
                    k2,
                ) == entry_value(old(b)@, k2) by {
                    let jj = choose|jj: int| 0 <= jj < old(b)@.len() && old(b)@[jj].0 == k2;
                    lemma_entry_value_at(old(b)@, k2, jj);
                    lemma_entry_value_at(b@, k2, jj);
                }
            }
            None
        },
    }
}

/// Returns a fresh handle to `key`'s current value, sharing ownership with
/// the entry; the bucket itself is untouched.
pub fn read<K: PartialEq, V>(b: &Vec<(K, Arc<V>)>, key: &K) -> (r: Option<Arc<V>>)
    requires
        keys_reflect_eq::<K>(),
        distinct_keys(b@),
    ensures
        match r {
            Some(a) => has_key(b@, *key) && *a == entry_value(b@, *key),
            None => !has_key(b@, *key),
        },
{
    match find(b, key) {
        Some(j) => {
            proof {
                lemma_entry_value_at(b@, *key, j as int);
            }
            Some(b[j].1.clone())
        },
        None => None,
    }
}

/// Deletes `key`'s entry, shifting later entries down, and returns its value
/// handle; leaves the bucket alone if the key is absent.
pub fn take<K: PartialEq, V>(b: &mut Vec<(K, Arc<V>)>, key: &K) -> (r: Option<Arc<V>>)
    requires
        keys_reflect_eq::<K>(),
        distinct_keys(old(b)@),
    ensures
        distinct_keys(final(b)@),
        forall|k2: K| #[trigger] has_key(final(b)@, k2) <==> (has_key(old(b)@, k2) && k2 != *key),
        forall|k2: K|
            k2 != *key && has_key(old(b)@, k2) ==> #[trigger] entry_value(final(b)@, k2)
                == entry_value(old(b)@, k2),
        match r {
            Some(prev) => has_key(old(b)@, *key) && *prev == entry_value(old(b)@, *key),
            None => !has_key(old(b)@, *key) && final(b)@ == old(b)@,
        },
{
    match find(b, key) {
        Some(j) => {
            let pair = b.remove(j);
            proof {
                lemma_entry_value_at(old(b)@, *key, j as int);
                assert forall|k2: K| has_key(b@, k2) implies (has_key(old(b)@, k2) && k2
                    != *key) by {
                    let jj = choose|jj: int| 0 <= jj < b@.len() && b@[jj].0 == k2;
                    if jj < j {
                        assert(old(b)@[jj].0 == k2);
                        if k2 == *key {
                            assert(old(b)@[jj].0 != old(b)@[j as int].0);
                        }
                    } else {
                        assert(old(b)@[jj + 1].0 == k2);
                        if k2 == *key {
                            assert(old(b)@[j as int].0 != old(b)@[jj + 1].0);
                        }
                    }
                }
                assert forall|k2: K| has_key(old(b)@, k2) && k2 != *key implies #[trigger] has_key(
                    b@,
                    k2,
                ) by {
                    let jj = choose|jj: int| 0 <= jj < old(b)@.len() && old(b)@[jj].0 == k2;
                    if jj < j {
                        assert(b@[jj].0 == k2);
                    } else {
                        assert(jj != j);
                        assert(b@[jj - 1].0 == k2);
                    }
                }
                assert forall|k2: K| k2 != *key && has_key(old(b)@, k2) implies #[trigger] entry_value(
                    b@,
                    k2,
                ) == entry_value(old(b)@, k2) by {
                    let jj = choose|jj: int| 0 <= jj < old(b)@.len() && old(b)@[jj].0 == k2;
                    lemma_entry_value_at(old(b)@, k2, jj);
                    if jj < j {
                        lemma_entry_value_at(b@, k2, jj);
                    } else {
                        lemma_entry_value_at(b@, k2, jj - 1);
                    }
                }
            }
            Some(pair.1)
        },
        None => None,
    }
}

/// Applies `f` to `key`'s current value, stores the result in a fresh handle
/// in place of the old one, and returns the new handle; leaves the bucket
/// alone if the key is absent.
pub fn transform<K: PartialEq, V, F: Fn(&V) -> V>(b: &mut Vec<(K, Arc<V>)>, key: &K, f: &F) -> (r:
    Option<Arc<V>>)
    requires
        keys_reflect_eq::<K>(),
        distinct_keys(old(b)@),
        has_key(old(b)@, *key) ==> call_requires(*f, (&entry_value(old(b)@, *key),)),
    ensures
        distinct_keys(final(b)@),
        forall|k2: K| #[trigger] has_key(final(b)@, k2) <==> has_key(old(b)@, k2),
        match r {
            Some(res) => {
                &&& has_key(old(b)@, *key)
                &&& call_ensures(*f, (&entry_value(old(b)@, *key),), *res)
                &&& entry_value(final(b)@, *key) == *res
                &&& forall|k2: K|
                    k2 != *key && has_key(old(b)@, k2) ==> #[trigger] entry_value(final(b)@, k2)
                        == entry_value(old(b)@, k2)
            },
            None => !has_key(old(b)@, *key) && final(b)@ == old(b)@,
        },
{
    match find(b, key) {
        Some(j) => {
            proof {
                lemma_entry_value_at(b@, *key, j as int);
            }
            let new_value = f(&*b[j].1);
            let pair = b.remove(j);
            let fresh = Arc::new(new_value);
            b.insert(j, (pair.0, fresh.clone()));
            proof {
                assert(b@ =~= old(b)@.update(j as int, (old(b)@[j as int].0, fresh)));
                lemma_entry_value_at(b@, *key, j as int);
                assert forall|k2: K| has_key(b@, k2) implies has_key(old(b)@, k2) by {
                    let jj = choose|jj: int| 0 <= jj < b@.len() && b@[jj].0 == k2;
                    assert(old(b)@[jj].0 == k2);
                }
                assert forall|k2: K| has_key(old(b)@, k2) implies #[trigger] has_key(b@, k2) by {
                    let jj = choose|jj: int| 0 <= jj < old(b)@.len() && old(b)@[jj].0 == k2;
                    assert(b@[jj].0 == k2);
                }
                assert forall|k2: K| k2 != *key && has_key(old(b)@, k2) implies #[trigger] entry_value(
                    b@,
                    k2,
                ) == entry_value(old(b)@, k2) by {
                    let jj = choose|jj: int| 0 <= jj < old(b)@.len() && old(b)@[jj].0 == k2;
                    lemma_entry_value_at(old(b)@, k2, jj);
                    lemma_entry_value_at(b@, k2, jj);
                }
            }
            Some(fresh)
        },
        None => None,
    }
}

} // verus!
