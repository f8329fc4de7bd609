//! Laws of the map's observable behaviour.
//!
//! Each operation of [`crate::Carta`] states in its contract how it moves the
//! abstract view, a `Map<K, V>`: `insert` ensures the view becomes
//! `old.insert(key, value)`, `remove` ensures `old.remove(key)`, `get`
//! returns exactly the view's binding, and `update` ensures
//! `old.insert(key, f(old[key]))`. The laws here close the loop: they state,
//! at the view level, what a caller observes across several such calls, for
//! all keys and values, and Verus proves them. Composed with the operations'
//! own contracts they cover whole call sequences on the container.

use vstd::prelude::*;

verus! {

/// A key that was never bound is not found: a fresh map holds nothing, and
/// neither binding nor unbinding some other key ever makes `k` appear. With
/// `get`'s contract this says `get(k)` returns nothing until `k` itself is
/// inserted.
pub proof fn lemma_untouched_key_absent<K, V>(m: Map<K, V>, k: K, k2: K, v: V)
    requires
        k2 != k,
        !m.contains_key(k),
    ensures
        !Map::<K, V>::empty().contains_key(k),
        !m.insert(k2, v).contains_key(k),
        !m.remove(k2).contains_key(k),
{
}

/// Binding a key makes it readable: right after an insert of `(k, v)` the
/// view holds `k`, bound to `v`. With `get`'s contract this says a `get(k)`
/// after `insert(k, v)` returns `v`.
pub proof fn lemma_insert_then_get<K, V>(m: Map<K, V>, k: K, v: V)
    ensures
        m.insert(k, v).contains_key(k),
        m.insert(k, v)[k] == v,
{
}

/// Rebinding a key replaces its value: after inserting `(k, v1)`, the view
/// holds `v1` for `k` — so a second `insert(k, v2)` returns the previous
/// value `v1`, by `insert`'s contract — and after that second insert the view
/// holds `v2`, so a following `get(k)` returns `v2`.
pub proof fn lemma_reinsert_replaces<K, V>(m: Map<K, V>, k: K, v1: V, v2: V)
    ensures
        m.insert(k, v1).contains_key(k),
        m.insert(k, v1)[k] == v1,
        m.insert(k, v1).insert(k, v2).contains_key(k),
        m.insert(k, v1).insert(k, v2)[k] == v2,
{
}

/// Removal undoes an insert: after `insert(k, v)` the view holds `v` for `k`
/// — so `remove(k)` returns `v`, by `remove`'s contract — and afterwards `k`
/// is gone, so a following `get(k)` returns nothing. Removing an absent key
/// returns nothing and leaves the view as it was.
pub proof fn lemma_remove_after_insert<K, V>(m: Map<K, V>, k: K, v: V)
    ensures
        m.insert(k, v)[k] == v,
        !m.insert(k, v).remove(k).contains_key(k),
        !m.contains_key(k) ==> m.remove(k) == m,
{
    if !m.contains_key(k) {
        assert(m.remove(k) =~= m);
    }
}

/// Distinct keys never interfere, whatever buckets their digests pick: each
/// keeps its own binding under the other's insert, and removing one leaves
/// the other bound. The operations' contracts hold for every hash provider,
/// so this covers in particular two keys forced into the same bucket.
pub proof fn lemma_distinct_keys_independent<K, V>(m: Map<K, V>, k1: K, k2: K, v1: V, v2: V)
    requires
        k1 != k2,
    ensures
        m.insert(k1, v1).insert(k2, v2).contains_key(k1),
        m.insert(k1, v1).insert(k2, v2)[k1] == v1,
        m.insert(k1, v1).insert(k2, v2).contains_key(k2),
        m.insert(k1, v1).insert(k2, v2)[k2] == v2,
        !m.insert(k1, v1).insert(k2, v2).remove(k1).contains_key(k1),
        m.insert(k1, v1).insert(k2, v2).remove(k1).contains_key(k2),
        m.insert(k1, v1).insert(k2, v2).remove(k1)[k2] == v2,
{
}

/// The view after inserting each entry of a batch, first entry first.
pub open spec fn after_inserts<K, V>(m: Map<K, V>, entries: Seq<(K, V)>) -> Map<K, V>
    decreases entries.len(),
{
    if entries.len() == 0 {
        m
    } else {
        after_inserts(m.insert(entries[0].0, entries[0].1), entries.drop_first())
    }
}

/// A batch of inserts leaves a key it never mentions exactly as it was.
pub proof fn lemma_batch_frame<K, V>(m: Map<K, V>, entries: Seq<(K, V)>, k: K)
    requires
        forall|idx: int| 0 <= idx < entries.len() ==> (#[trigger] entries[idx]).0 != k,
    ensures
        after_inserts(m, entries).contains_key(k) == m.contains_key(k),
        m.contains_key(k) ==> after_inserts(m, entries)[k] == m[k],
    decreases entries.len(),
{
    if entries.len() > 0 {
        lemma_batch_frame(m.insert(entries[0].0, entries[0].1), entries.drop_first(), k);
    }
}

/// Inserting a batch of pairwise-distinct keys, each exactly once and in any
/// order, loses none of them: afterwards every key of the batch is bound to
/// its own value, and no key outside the batch has appeared. Together with
/// `insert`'s contract this pins the outcome of any interleaving of the
/// batch's inserts: a map holding exactly the batch's keys.
pub proof fn lemma_distinct_batch_all_present<K, V>(m: Map<K, V>, entries: Seq<(K, V)>)
    requires
        forall|idx1: int, idx2: int|
            0 <= idx1 < idx2 < entries.len() ==> (#[trigger] entries[idx1]).0 != (
            #[trigger] entries[idx2]).0,
    ensures
        forall|idx: int|
            0 <= idx < entries.len() ==> after_inserts(m, entries).contains_key(
                (#[trigger] entries[idx]).0,
            ) && after_inserts(m, entries)[entries[idx].0] == entries[idx].1,
        forall|k: K|
            #[trigger] after_inserts(m, entries).contains_key(k) ==> m.contains_key(k) || exists|
                idx: int,
            | 0 <= idx < entries.len() && (#[trigger] entries[idx]).0 == k,
    decreases entries.len(),
{
    if entries.len() > 0 {
        let first = entries[0];
        let rest = entries.drop_first();
        let m1 = m.insert(first.0, first.1);
        lemma_distinct_batch_all_present(m1, rest);
        assert forall|idx: int|
            0 <= idx < entries.len() implies after_inserts(m, entries).contains_key(
            (#[trigger] entries[idx]).0,
        ) && after_inserts(m, entries)[entries[idx].0] == entries[idx].1 by {
            if idx == 0 {
                assert(forall|idx2: int|
                    0 <= idx2 < rest.len() ==> (#[trigger] rest[idx2]).0 != first.0);
                lemma_batch_frame(m1, rest, first.0);
            } else {
                assert(rest[idx - 1] == entries[idx]);
            }
        }
        assert forall|k: K| #[trigger] after_inserts(m, entries).contains_key(k) implies
            m.contains_key(k) || exists|idx: int|
            0 <= idx < entries.len() && (#[trigger] entries[idx]).0 == k by {
            if !m.contains_key(k) {
                if k == first.0 {
                    assert((#[trigger] entries[0]).0 == k);
                } else {
                    assert(after_inserts(m1, rest).contains_key(k));
                    let idx = choose|idx: int|
                        0 <= idx < rest.len() && (#[trigger] rest[idx]).0 == k;
                    assert((#[trigger] entries[idx + 1]).0 == k);
                }
            }
        }
    }
}

} // verus!
