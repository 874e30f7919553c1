#[test]
fn vec_test_get_from_hash() {
    let mut hash = hashkv::hash::vec::Hash::new(5);

    let k = String::from("foo");
    let v = String::from("bar");

    hash.set(k, v);

    assert_eq!(hash.get(String::from("foo")), Some(&String::from("bar")));
}

#[test]
fn vec_test_get_non_existant_from_hash() {
    let mut hash = hashkv::hash::vec::Hash::new(5);
    let k = String::from("foo");
    let v = String::from("bar");

    hash.set(k, v);

    assert_eq!(hash.get(String::from("bar")), None);
}

#[test]
fn test_grow_hash() {
    let mut hash = hashkv::hash::vec::Hash::new(2);

    for k in 1..10 {
        let key = k.to_string();
        hash.set(key, k);
    }

    for k in 1..10 {
        let key = k.to_string();
        assert_eq!(hash.get(key), Some(&k));
    }
}

#[test]
fn vec_test_override() {
    let mut hash = hashkv::hash::vec::Hash::new(5);

    let k1 = String::from("foo");
    let v1 = String::from("bar");
    let k2 = String::from("foo");
    let v2 = String::from("baz");

    hash.set(k1, v1);
    hash.set(k2, v2);

    assert_eq!(hash.get(String::from("foo")), Some(&String::from("baz")));
}

#[test]
fn vec_test_delete() {
    let mut hash = hashkv::hash::vec::Hash::new(5);

    let k1 = String::from("foo");
    let v1 = String::from("bar");
    let k2 = String::from("baz");
    let v2 = String::from("bar");

    hash.set(k1, v1);
    hash.set(k2, v2);
    hash.del(String::from("foo"));

    assert_eq!(hash.get(String::from("foo")), None);
    assert_eq!(hash.get(String::from("baz")), Some(&String::from("bar")));
}

#[test]
fn test_set_after_filled_with_tombstones() {
    let cap = 10;
    let mut hash = hashkv::hash::vec::Hash::new(cap);

    for k in 0..cap {
        let key = k.to_string();
        hash.set(key, k);
    }

    // Delete everything
    for k in 0..cap {
        let key = k.to_string();
        hash.del(key);
    }

    // Set a new value
    hash.set(cap.to_string(), cap);
    assert_eq!(hash.get(cap.to_string()), Some(&cap));
}

#[test]
fn vec_test_delete_and_set() {
    let mut hash = hashkv::hash::vec::Hash::new(5);

    let k1 = String::from("foo");
    let v1 = String::from("bar");
    let k2 = String::from("baz");
    let v2 = String::from("bar");
    let k3 = String::from("foo");
    let v3 = String::from("foobar");

    hash.set(k1, v1);
    hash.set(k2, v2);
    hash.del(String::from("foo"));
    hash.set(k3, v3);

    assert_eq!(hash.get(String::from("foo")), Some(&String::from("foobar")));
    assert_eq!(hash.get(String::from("baz")), Some(&String::from("bar")));
}
