#[test]
fn mod_test_get_from_hash() {
    let mut hash = hashkv::hash::Hash::new(5);

    let k = String::from("foo");
    let v = String::from("bar");

    hash.set(k, v);

    assert_eq!(hash.get(String::from("foo")), Some(&String::from("bar")));
}

#[test]
fn mod_test_get_non_existant_from_hash() {
    let mut hash = hashkv::hash::Hash::new(5);
    let k = String::from("foo");
    let v = String::from("bar");

    hash.set(k, v);

    assert_eq!(hash.get(String::from("bar")), None);
}

#[test]
fn mod_test_override() {
    let mut hash = hashkv::hash::Hash::new(5);

    let k1 = String::from("foo");
    let v1 = String::from("bar");
    let k2 = String::from("foo");
    let v2 = String::from("baz");

    hash.set(k1, v1);
    hash.set(k2, v2);

    assert_eq!(hash.get(String::from("foo")), Some(&String::from("baz")));
}

#[test]
fn mod_test_delete() {
    let mut hash = hashkv::hash::Hash::new(5);

    let k1 = String::from("foo");
    let v1 = String::from("bar");
    let k2 = String::from("baz");
    let v2 = String::from("bar");

    hash.set(k1, v1);
    hash.set(k2, v2);
    hash.del(String::from("foo"));

    assert_eq!(hash.get(String::from("foo")), None);
    assert_eq!(hash.get(String::from("baz")), Some(&String::from("bar")));
}

#[test]
fn mod_test_delete_and_set() {
    let mut hash = hashkv::hash::Hash::new(5);

    let k1 = String::from("foo");
    let v1 = String::from("bar");
    let k2 = String::from("baz");
    let v2 = String::from("bar");
    let k3 = String::from("foo");
    let v3 = String::from("foobar");

    hash.set(k1, v1);
    hash.set(k2, v2);
    hash.del(String::from("foo"));
    hash.set(k3, v3);

    assert_eq!(hash.get(String::from("foo")), Some(&String::from("foobar")));
    assert_eq!(hash.get(String::from("baz")), Some(&String::from("bar")));
}

#[test]
fn fixed_table_fills_every_slot() {
    let mut hash = hashkv::hash::Hash::new(3);
    hash.set(String::from("a"), 1);
    hash.set(String::from("b"), 2);
    hash.set(String::from("c"), 3);
    // full, but updating a present key is allowed
    hash.set(String::from("b"), 20);
    assert_eq!(hash.capacity(), 3);
    assert_eq!(hash.get(String::from("a")), Some(&1));
    assert_eq!(hash.get(String::from("b")), Some(&20));
    assert_eq!(hash.get(String::from("c")), Some(&3));
    assert_eq!(hash.get(String::from("d")), None);
}

#[test]
fn fixed_table_reuses_tombstones() {
    let mut hash = hashkv::hash::Hash::new(2);
    hash.set(String::from("1"), 1);
    hash.set(String::from("3"), 3);
    hash.del(String::from("1"));
    hash.set(String::from("2"), 2);
    assert_eq!(hash.get(String::from("1")), None);
    assert_eq!(hash.get(String::from("2")), Some(&2));
    assert_eq!(hash.get(String::from("3")), Some(&3));
}

#[test]
fn fixed_table_update_behind_tombstone_is_not_duplicated() {
    // "1" and "3" share probe origin 0 in two slots: "3" sits behind "1"
    let mut hash = hashkv::hash::Hash::new(2);
    hash.set(String::from("1"), 1);
    hash.set(String::from("3"), 3);
    hash.del(String::from("1"));
    hash.set(String::from("3"), 30);
    hash.del(String::from("3"));
    assert_eq!(hash.get(String::from("3")), None);
}
