use carta::provider::{ConstantProvider, IdentityProvider, StdHashProvider};
use carta::Carta;

#[test]
fn absent_key_gets_nothing() {
    let m: Carta<u64, u64, IdentityProvider> = Carta::new_with_hash_builder(IdentityProvider);
    assert!(m.get(&1).is_none());
    assert!(m.get(&0).is_none());
    assert!(m.get(&u64::MAX).is_none());
}

#[test]
fn untouched_key_stays_absent() {
    let mut m: Carta<u64, u64, IdentityProvider> = Carta::new_with_hash_builder(IdentityProvider);
    m.insert(2, 20);
    m.insert(3, 30);
    m.remove(&3);
    assert!(m.get(&1).is_none());
}

#[test]
fn insert_then_get() {
    let mut m: Carta<u64, u64, IdentityProvider> = Carta::new_with_hash_builder(IdentityProvider);
    assert!(m.insert(42, 7).is_none());
    let h = m.get(&42).expect("key must be present after insert");
    assert_eq!(*h, 7);
}

#[test]
fn reinsert_returns_previous_and_rebinds() {
    let mut m: Carta<u64, u64, IdentityProvider> = Carta::new_with_hash_builder(IdentityProvider);
    assert!(m.insert(9, 1).is_none());
    let prev = m.insert(9, 2).expect("second insert must return the first value");
    assert_eq!(*prev, 1);
    let h = m.get(&9).expect("key must still be present");
    assert_eq!(*h, 2);
}

#[test]
fn remove_returns_value_and_unbinds() {
    let mut m: Carta<u64, u64, IdentityProvider> = Carta::new_with_hash_builder(IdentityProvider);
    m.insert(4, 44);
    let taken = m.remove(&4).expect("remove of a present key must return its value");
    assert_eq!(*taken, 44);
    assert!(m.get(&4).is_none());
    assert!(m.remove(&4).is_none());
}

#[test]
fn remove_absent_returns_nothing() {
    let mut m: Carta<u64, u64, IdentityProvider> = Carta::new_with_hash_builder(IdentityProvider);
    assert!(m.remove(&123).is_none());
}

#[test]
fn update_applies_transform_and_persists() {
    let mut m: Carta<u64, u64, IdentityProvider> = Carta::new_with_hash_builder(IdentityProvider);
    m.insert(1, 10);
    let r = m.update(1, |v: &u64| *v + 1).expect("update of a present key must return a value");
    assert_eq!(*r, 11);
    let h = m.get(&1).expect("key must still be present");
    assert_eq!(*h, 11);
}

#[test]
fn update_absent_returns_nothing_and_changes_nothing() {
    let mut m: Carta<u64, u64, IdentityProvider> = Carta::new_with_hash_builder(IdentityProvider);
    m.insert(1, 10);
    assert!(m.update(2, |v: &u64| *v + 1).is_none());
    assert!(m.get(&2).is_none());
    let h = m.get(&1).expect("untouched key must keep its value");
    assert_eq!(*h, 10);
}

#[test]
fn batch_of_distinct_keys_all_present() {
    let mut m: Carta<u64, u64, IdentityProvider> = Carta::with_bucket_count(IdentityProvider, 16);
    for k in 0..100u64 {
        assert!(m.insert(k, k * 10).is_none());
    }
    for k in 0..100u64 {
        let h = m.get(&k).expect("every inserted key must be present");
        assert_eq!(*h, k * 10);
    }
    assert!(m.get(&100).is_none());
}

#[test]
fn colliding_keys_are_independent() {
    let mut m: Carta<u64, u64, ConstantProvider> =
        Carta::with_bucket_count(ConstantProvider { digest_value: 3 }, 8);
    assert!(m.insert(1, 100).is_none());
    assert!(m.insert(2, 200).is_none());
    assert_eq!(*m.get(&1).expect("first colliding key present"), 100);
    assert_eq!(*m.get(&2).expect("second colliding key present"), 200);
    let taken = m.remove(&1).expect("first colliding key removable");
    assert_eq!(*taken, 100);
    assert!(m.get(&1).is_none());
    assert_eq!(*m.get(&2).expect("second key survives the first's removal"), 200);
    let taken2 = m.remove(&2).expect("second colliding key removable");
    assert_eq!(*taken2, 200);
    assert!(m.get(&2).is_none());
}

#[test]
fn scenario_identity_mod_four() {
    let mut m: Carta<u64, String, IdentityProvider> =
        Carta::with_bucket_count(IdentityProvider, 4);
    assert!(m.insert(5, String::from("v1")).is_none());
    assert_eq!(m.get(&5).expect("present after first insert").as_str(), "v1");
    assert_eq!(m.insert(5, String::from("v2")).expect("previous value returned").as_str(), "v1");
    assert_eq!(m.get(&5).expect("present after second insert").as_str(), "v2");
    assert_eq!(m.remove(&5).expect("removed value returned").as_str(), "v2");
    assert!(m.get(&5).is_none());
}

#[test]
fn handle_survives_remove_and_update() {
    let mut m: Carta<u64, String, IdentityProvider> = Carta::new_with_hash_builder(IdentityProvider);
    m.insert(8, String::from("first"));
    let handle = m.get(&8).expect("present before removal");
    m.remove(&8);
    assert_eq!(handle.as_str(), "first");

    m.insert(9, String::from("before"));
    let handle2 = m.get(&9).expect("present before update");
    m.update(9, |v: &String| format!("{}-after", v));
    assert_eq!(handle2.as_str(), "before");
    assert_eq!(m.get(&9).expect("still present").as_str(), "before-after");
}

#[test]
fn update_on_string_values() {
    let mut m: Carta<u64, String, IdentityProvider> = Carta::new_with_hash_builder(IdentityProvider);
    m.insert(1, String::from("a"));
    let r = m.update(1, |v: &String| format!("{}b", v)).expect("present key updated");
    assert_eq!(r.as_str(), "ab");
    assert_eq!(m.get(&1).expect("still present").as_str(), "ab");
}

#[test]
fn std_hasher_provider_round_trip() {
    let mut m: Carta<u64, u64, StdHashProvider> = Carta::new_with_hash_builder(StdHashProvider);
    for k in [0u64, 1, 7, 1 << 40, u64::MAX] {
        assert!(m.insert(k, k.wrapping_mul(3)).is_none());
    }
    for k in [0u64, 1, 7, 1 << 40, u64::MAX] {
        let h = m.get(&k).expect("every inserted key must be present");
        assert_eq!(*h, k.wrapping_mul(3));
    }
    assert!(m.get(&2).is_none());
}

#[test]
fn single_bucket_table() {
    let mut m: Carta<u64, u64, StdHashProvider> = Carta::with_bucket_count(StdHashProvider, 1);
    for k in 0..10u64 {
        assert!(m.insert(k, k + 1).is_none());
    }
    assert_eq!(*m.remove(&4).expect("present key removable"), 5);
    for k in 0..10u64 {
        if k == 4 {
            assert!(m.get(&k).is_none());
        } else {
            assert_eq!(*m.get(&k).expect("other keys untouched"), k + 1);
        }
    }
}
