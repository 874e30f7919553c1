#[test]
fn round_trip_survives_other_operations() {
    let mut hash = hashkv::hash::vec::Hash::new(4);
    hash.set(String::from("k"), 7);
    hash.set(String::from("other"), 8);
    hash.del(String::from("missing"));
    hash.del(String::from("other"));
    assert_eq!(hash.get(String::from("k")), Some(&7));
    assert_eq!(hash.get(String::from("other")), None);
}

#[test]
fn overwrite_keeps_capacity() {
    let mut hash = hashkv::hash::vec::Hash::new(1);
    hash.set(String::from("k"), 1);
    hash.set(String::from("k"), 2);
    assert_eq!(hash.capacity(), 1);
    assert_eq!(hash.get(String::from("k")), Some(&2));
}

#[test]
fn delete_absent_key_is_noop() {
    let mut hash: hashkv::hash::vec::Hash<u32> = hashkv::hash::vec::Hash::new(3);
    hash.del(String::from("nothing"));
    assert_eq!(hash.get(String::from("nothing")), None);
    assert_eq!(hash.capacity(), 3);
}

#[test]
fn delete_then_reinsert() {
    let mut hash = hashkv::hash::vec::Hash::new(3);
    hash.set(String::from("k"), 1);
    hash.del(String::from("k"));
    hash.set(String::from("k"), 2);
    assert_eq!(hash.get(String::from("k")), Some(&2));
}

#[test]
fn growth_doubles_capacity_and_keeps_entries() {
    // capacity 2 and keys "1".."9": two growths at least
    let mut hash = hashkv::hash::vec::Hash::new(2);
    let mut caps = vec![hash.capacity()];
    for k in 1..10 {
        hash.set(k.to_string(), k);
        if hash.capacity() != *caps.last().unwrap() {
            caps.push(hash.capacity());
        }
    }
    assert!(caps.len() > 1);
    for w in caps.windows(2) {
        assert_eq!(w[1], 2 * w[0]);
    }
    assert!(9 <= hash.capacity());
    for k in 1..10 {
        assert_eq!(hash.get(k.to_string()), Some(&k));
    }
}

#[test]
fn growth_purges_tombstones() {
    // "1" and "3" both have probe origin 0 in two slots, "2" has origin 1:
    // after both deletions every slot is a tombstone of origin 0
    let mut hash = hashkv::hash::vec::Hash::new(2);
    hash.set(String::from("1"), 1);
    hash.set(String::from("3"), 3);
    hash.del(String::from("1"));
    hash.del(String::from("3"));
    assert_eq!(hash.capacity(), 2);
    hash.set(String::from("2"), 2);
    assert_eq!(hash.capacity(), 4);
    assert_eq!(hash.get(String::from("2")), Some(&2));
    assert_eq!(hash.get(String::from("1")), None);
    assert_eq!(hash.get(String::from("3")), None);
}

#[test]
fn deleted_keys_stay_absent_after_new_set() {
    let mut hash = hashkv::hash::vec::Hash::new(10);
    for k in 0..10 {
        hash.set(k.to_string(), k);
    }
    for k in 0..10 {
        hash.del(k.to_string());
    }
    hash.set(String::from("10"), 10);
    assert_eq!(hash.get(String::from("10")), Some(&10));
    for k in 0..10 {
        assert_eq!(hash.get(k.to_string()), None);
    }
    // "9" left a tombstone with the probe origin of "10", which is reused
    assert_eq!(hash.capacity(), 10);
}

#[test]
fn update_behind_reusable_tombstone_is_not_duplicated() {
    // "1" and "3" share probe origin 0 in two slots: "3" sits behind "1"
    let mut hash = hashkv::hash::vec::Hash::new(2);
    hash.set(String::from("1"), 1);
    hash.set(String::from("3"), 3);
    hash.del(String::from("1"));
    hash.set(String::from("3"), 30);
    assert_eq!(hash.get(String::from("3")), Some(&30));
    hash.del(String::from("3"));
    assert_eq!(hash.get(String::from("3")), None);
    assert_eq!(hash.get(String::from("1")), None);
}

#[test]
fn full_table_without_tombstones_grows_on_new_key() {
    let mut hash = hashkv::hash::vec::Hash::new(1);
    hash.set(String::from("a"), 1);
    hash.set(String::from("b"), 2);
    assert_eq!(hash.capacity(), 2);
    assert_eq!(hash.get(String::from("a")), Some(&1));
    assert_eq!(hash.get(String::from("b")), Some(&2));
}
