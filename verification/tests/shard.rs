use matecito::matecito_internal::MatecitoInternal;

#[test]
fn a_shard_holds_no_more_than_its_capacity() {
    let mut shard = MatecitoInternal::<u64>::new(3);
    assert!(!shard.is_full());
    assert_eq!(None, shard.put(1, 10));
    assert_eq!(None, shard.put(2, 20));
    assert!(!shard.is_full());
    assert_eq!(None, shard.put(3, 30));
    assert!(shard.is_full());
    // From here on each new key evicts the key that has gone unused longest.
    for key in 4..=20u64 {
        assert_eq!(Some(key - 3), shard.put(key, key * 10));
        assert!(shard.is_full());
        assert_eq!(None, shard.get(key - 3));
    }
    assert_eq!(Some(&180), shard.get(18));
    assert_eq!(Some(&190), shard.get(19));
    assert_eq!(Some(&200), shard.get(20));
}

#[test]
fn a_hit_protects_the_key_from_the_next_eviction() {
    let mut shard = MatecitoInternal::<&str>::new(3);
    shard.put(1, "one");
    shard.put(2, "two");
    shard.put(3, "three");
    assert_eq!(Some(&"one"), shard.get(1));
    assert_eq!(Some(2), shard.put(4, "four"));
    assert_eq!(Some(3), shard.put(5, "five"));
    assert_eq!(Some(&"one"), shard.get(1));
    assert_eq!(Some(4), shard.put(6, "six"));
    assert_eq!(Some(5), shard.put(7, "seven"));
    assert_eq!(Some(1), shard.put(8, "eight"));
}

#[test]
fn a_miss_changes_nothing() {
    let mut shard = MatecitoInternal::<u8>::new(2);
    shard.put(1, 1);
    shard.put(2, 2);
    assert_eq!(None, shard.get(3));
    assert_eq!(Some(1), shard.put(3, 3));
}

#[test]
fn putting_a_resident_key_replaces_its_value_and_evicts_nothing() {
    let mut shard = MatecitoInternal::<String>::new(2);
    assert_eq!(None, shard.put(1, "a".to_string()));
    assert_eq!(None, shard.put(2, "b".to_string()));
    assert_eq!(None, shard.put(1, "c".to_string()));
    assert!(shard.is_full());
    assert_eq!(Some(&"c".to_string()), shard.get(1));
    assert_eq!(Some(&"b".to_string()), shard.get(2));
    // Key 1 was used before key 2, so it is the one to leave.
    assert_eq!(Some(1), shard.put(3, "d".to_string()));
    // Putting key 2 again makes it the most recently used.
    assert_eq!(None, shard.put(2, "e".to_string()));
    assert_eq!(Some(3), shard.put(4, "f".to_string()));
    assert_eq!(Some(&"e".to_string()), shard.get(2));
}

#[test]
fn a_shard_without_capacity_stores_nothing() {
    let mut shard = MatecitoInternal::<u64>::new(0);
    assert!(shard.is_full());
    assert_eq!(None, shard.put(1, 1));
    assert_eq!(None, shard.get(1));
    assert_eq!(None, shard.put(1, 2));
    assert!(shard.is_full());
}

#[test]
fn a_shard_of_one_keeps_the_last_key() {
    let mut shard = MatecitoInternal::<u64>::new(1);
    assert_eq!(None, shard.put(1, 1));
    assert_eq!(Some(&1), shard.get(1));
    assert_eq!(Some(1), shard.put(2, 2));
    assert_eq!(None, shard.get(1));
    assert_eq!(Some(&2), shard.get(2));
}
