use matecito::bloom_filter::BloomFilter;
use matecito::cache::admits;
use matecito::cache::decay_due;
use matecito::cache::get_unshared;
use matecito::cache::lookup;
use matecito::cache::observe;
use matecito::cache::put_unshared;
use matecito::cache::settle;
use matecito::cache::shard_capacity;
use matecito::cache::Cache;
use matecito::cache::PutOutcome;
use matecito::cache::NUM_SHARDS;
use matecito::cache::SKETCH_SIZE;
use matecito::hashing::hash_key;
use matecito::matecito_internal::MatecitoInternal;
use matecito::Matecito;
use matecito::PUT_THRESHOLD;
use std::hash::Hasher;

/// A key whose projections in a cache's sketch are all different.
fn plain_key(from: u64) -> u64 {
    let sketch = BloomFilter::new(0, SKETCH_SIZE);
    let mut key = from;
    loop {
        let mut indices = sketch.get_indices(&key.to_le_bytes());
        indices.sort();
        indices.dedup();
        if indices.len() == 7 {
            return key;
        }
        key += 1;
    }
}

#[test]
fn a_key_is_admitted_when_its_estimate_exceeds_the_threshold() {
    assert!(!admits(0, 0));
    assert!(admits(1, 0));
    assert!(!admits(999, 1000));
    assert!(!admits(1000, 1000));
    assert!(admits(1001, 1000));
    assert!(!admits(u64::MAX - 1, usize::MAX));
}

#[test]
fn a_decay_is_due_past_ten_times_the_threshold() {
    assert!(!decay_due(0, 0));
    assert!(decay_due(1, 0));
    assert!(!decay_due(10_000, 1000));
    assert!(decay_due(10_001, 1000));
    assert!(!decay_due(u64::MAX, usize::MAX));
}

#[test]
fn a_shard_gets_an_equal_share_rounded_down() {
    assert_eq!(256, NUM_SHARDS);
    assert_eq!(0, shard_capacity(0));
    assert_eq!(0, shard_capacity(255));
    assert_eq!(1, shard_capacity(256));
    assert_eq!(1, shard_capacity(511));
    assert_eq!(4, shard_capacity(1024));
    assert_eq!(11, shard_capacity(3000));
}

#[test]
fn integer_keys_are_hashed_by_their_bytes() {
    for (seed, key) in [(0u64, 0u64), (0, 123), (7, 456), (u64::MAX, u64::MAX)] {
        let mut hasher = twox_hash::XxHash64::with_seed(seed);
        hasher.write(&key.to_le_bytes());
        assert_eq!(hasher.finish(), hash_key(seed, key));
    }
    assert_ne!(hash_key(0, 123), hash_key(1, 123));
    assert_ne!(hash_key(0, 123), hash_key(0, 124));
}

#[test]
fn a_key_keeps_its_shard() {
    let cache = Cache::<u64>::new(1024, 1000);
    let other = cache.clone();
    for key in 0..1000u64 {
        let slot = cache.get_shard(key);
        assert!(slot < NUM_SHARDS);
        assert_eq!(slot, cache.get_shard(key));
        assert_eq!(slot, other.get_shard(key));
    }
}

#[test]
fn observing_counts_the_key() {
    let key = plain_key(1);
    let mut sketch = BloomFilter::new(0, SKETCH_SIZE);
    assert_eq!((1, 1), observe(&mut sketch, key));
    assert_eq!((2, 2), observe(&mut sketch, key));
    assert_eq!(2, sketch.count_present(&key.to_le_bytes()));
    let other = plain_key(key + 1);
    let seen = observe(&mut sketch, other);
    assert!(seen.0 >= 1);
    assert!(seen.1 >= 2);
}

#[test]
fn settling_discounts_and_decays() {
    let key = plain_key(1);
    let mut sketch = BloomFilter::new(0, SKETCH_SIZE);
    for _ in 0..9 {
        observe(&mut sketch, key);
    }
    settle(&mut sketch, None, false);
    assert_eq!(9, sketch.count_present(&key.to_le_bytes()));
    assert_eq!(9, sketch.max_count());
    settle(&mut sketch, Some(key), false);
    assert_eq!(8, sketch.count_present(&key.to_le_bytes()));
    assert_eq!(9, sketch.max_count());
    settle(&mut sketch, None, true);
    assert_eq!(4, sketch.count_present(&key.to_le_bytes()));
    assert_eq!(4, sketch.max_count());
    // The evicted key is discounted before the decay.
    settle(&mut sketch, Some(key), true);
    assert_eq!(1, sketch.count_present(&key.to_le_bytes()));
    assert_eq!(2, sketch.max_count());
}

#[test]
fn a_lookup_copies_the_value_and_refreshes_the_key() {
    let mut shard = MatecitoInternal::<String>::new(2);
    shard.put(1, "one".to_string());
    shard.put(2, "two".to_string());
    assert_eq!(None, lookup(&mut shard, 3));
    assert_eq!(Some("one".to_string()), lookup(&mut shard, 1));
    assert_eq!(Some(2), shard.put(3, "three".to_string()));
}

#[test]
fn a_put_is_turned_away_until_the_key_is_popular() {
    let key = plain_key(1);
    let cache = Cache::<String>::new(1024, 3);
    assert_eq!(3, cache.put_threshold());
    assert_eq!(PutOutcome::Rejected { estimate: 1 }, cache.put(key, "a".to_string()));
    assert_eq!(PutOutcome::Rejected { estimate: 2 }, cache.put(key, "b".to_string()));
    // The look-up counts as an access too.
    assert_eq!(None, cache.get(key));
    assert_eq!(PutOutcome::Admitted { estimate: 4 }, cache.put(key, "c".to_string()));
    assert_eq!(Some("c".to_string()), cache.get(key));
    assert_eq!(PutOutcome::Admitted { estimate: 6 }, cache.put(key, "d".to_string()));
    assert_eq!(Some("d".to_string()), cache.get(key));
    assert_eq!(None, cache.get(plain_key(key + 1)));
}

fn share_a_counter(a: u64, b: u64) -> bool {
    let sketch = BloomFilter::new(0, SKETCH_SIZE);
    let a = sketch.get_indices(&a.to_le_bytes());
    let b = sketch.get_indices(&b.to_le_bytes());
    a.iter().any(|i| b.contains(i))
}

#[test]
fn a_full_shard_evicts_and_the_evicted_key_is_discounted() {
    // One key for each shard.
    let cache = Cache::<u64>::new(NUM_SHARDS, 1);
    let first = plain_key(1);
    let mut second = plain_key(first + 1);
    while cache.get_shard(second) != cache.get_shard(first) || share_a_counter(first, second) {
        second = plain_key(second + 1);
    }
    assert_eq!(PutOutcome::Rejected { estimate: 1 }, cache.put(first, 10));
    assert_eq!(PutOutcome::Admitted { estimate: 2 }, cache.put(first, 10));
    assert_eq!(Some(10), cache.get(first));
    assert_eq!(PutOutcome::Rejected { estimate: 1 }, cache.put(second, 20));
    assert_eq!(
        PutOutcome::AdmittedEvicting { estimate: 2, evicted: first },
        cache.put(second, 20)
    );
    assert_eq!(Some(20), cache.get(second));
    assert_eq!(None, cache.get(first));
    // Counted by two puts and two gets, discounted once, and counted again.
    assert_eq!(
        PutOutcome::AdmittedEvicting { estimate: 4, evicted: second },
        cache.put(first, 11)
    );
    assert_eq!(Some(11), cache.get(first));
    assert_eq!(None, cache.get(second));
}

#[test]
fn the_sketch_decays_when_a_counter_has_grown_too_far() {
    let key = plain_key(1);
    let cache = Cache::<u64>::new(1024, 1);
    assert_eq!(PutOutcome::Rejected { estimate: 1 }, cache.put(key, 0));
    for estimate in 2..=10u64 {
        assert_eq!(PutOutcome::Admitted { estimate }, cache.put(key, estimate));
    }
    // The eleventh put finds a counter past ten times the threshold, and the
    // sketch is halved behind it.
    assert_eq!(PutOutcome::Admitted { estimate: 11 }, cache.put(key, 11));
    assert_eq!(PutOutcome::Admitted { estimate: 6 }, cache.put(key, 12));
    assert_eq!(Some(12), cache.get(key));
}

#[test]
fn a_cache_smaller_than_its_shards_keeps_nothing() {
    let key = plain_key(1);
    let cache = Cache::<u64>::new(NUM_SHARDS - 1, 0);
    assert_eq!(PutOutcome::Admitted { estimate: 1 }, cache.put(key, 50));
    assert_eq!(None, cache.get(key));
}

#[test]
fn a_handle_to_a_cache_without_capacity_finds_nothing() {
    let key = plain_key(1);
    let m = Matecito::<u64>::new(NUM_SHARDS - 1);
    for estimate in 1..=PUT_THRESHOLD as u64 {
        assert_eq!(PutOutcome::Rejected { estimate }, m.put(key, 1));
    }
    for round in 1..=20u64 {
        assert_eq!(
            PutOutcome::Admitted { estimate: PUT_THRESHOLD as u64 + round },
            m.put(key, round)
        );
    }
    assert_eq!(None, m.get(key));
    assert_eq!(None, m.clone().get(key));
}

#[test]
fn without_a_threshold_every_put_decays_the_sketch() {
    let key = plain_key(1);
    let cache = Cache::<u64>::new(1024, 0);
    for _ in 0..5 {
        assert_eq!(PutOutcome::Admitted { estimate: 1 }, cache.put(key, 50));
    }
    assert_eq!(Some(50), cache.get(key));
    assert_eq!(PutOutcome::Admitted { estimate: 2 }, cache.put(key, 51));
}

#[test]
fn clones_share_one_cache() {
    let key = plain_key(1);
    let m = Matecito::<String>::new(1024);
    let m1 = m.clone();
    for estimate in 1..=PUT_THRESHOLD as u64 {
        assert_eq!(PutOutcome::Rejected { estimate }, m1.put(key, "asd".to_string()));
    }
    assert_eq!(None, m.get(key));
    assert_eq!(
        PutOutcome::Admitted { estimate: PUT_THRESHOLD as u64 + 2 },
        m.put(key, "asd".to_string())
    );
    assert_eq!(Some("asd".to_string()), m1.get(key));
    assert_eq!(Some("asd".to_string()), m.clone().get(key));
    assert_eq!(None, m.get(0xf00));
}

#[test]
fn an_unshared_put_goes_through_the_same_steps() {
    let key = plain_key(1);
    let mut sketch = BloomFilter::new(0, SKETCH_SIZE);
    let mut shard = MatecitoInternal::<u64>::new(1);
    assert_eq!(
        PutOutcome::Rejected { estimate: 1 },
        put_unshared(&mut sketch, &mut shard, 1, key, 10)
    );
    assert_eq!(None, get_unshared(&mut sketch, &mut shard, key));
    assert_eq!(
        PutOutcome::Admitted { estimate: 3 },
        put_unshared(&mut sketch, &mut shard, 1, key, 10)
    );
    assert_eq!(Some(10), get_unshared(&mut sketch, &mut shard, key));
    assert_eq!(4, sketch.count_present(&key.to_le_bytes()));

    let mut other = plain_key(key + 1);
    while share_a_counter(key, other) {
        other = plain_key(other + 1);
    }
    assert_eq!(
        PutOutcome::Rejected { estimate: 1 },
        put_unshared(&mut sketch, &mut shard, 1, other, 20)
    );
    assert_eq!(
        PutOutcome::AdmittedEvicting { estimate: 2, evicted: key },
        put_unshared(&mut sketch, &mut shard, 1, other, 20)
    );
    // The evicted key has been discounted.
    assert_eq!(3, sketch.count_present(&key.to_le_bytes()));
    assert_eq!(4, sketch.max_count());
    assert_eq!(None, get_unshared(&mut sketch, &mut shard, key));
    assert_eq!(Some(20), get_unshared(&mut sketch, &mut shard, other));
}

#[test]
fn alone_a_cache_does_what_unshared_puts_and_gets_do() {
    let max_size = 2 * NUM_SHARDS + 17;
    let put_threshold = 2;
    let cache = Cache::<u64>::new(max_size, put_threshold);
    let mut sketch = BloomFilter::new(max_size as u64, SKETCH_SIZE);
    let mut shards: Vec<MatecitoInternal<u64>> =
        (0..NUM_SHARDS).map(|_| MatecitoInternal::new(shard_capacity(max_size))).collect();

    let mut state = 0x2545_f491_4f6c_dd1du64;
    let mut admitted = 0;
    let mut evicting = 0;
    let mut hits = 0;
    for round in 0..60_000u64 {
        state = state.wrapping_mul(6364136223846793005).wrapping_add(1442695040888963407);
        let key = (state >> 33) % 1500;
        let shard = &mut shards[cache.get_shard(key)];
        if (state >> 20) % 3 == 0 {
            let expected = get_unshared(&mut sketch, shard, key);
            assert_eq!(expected, cache.get(key));
            hits += expected.is_some() as u32;
        } else {
            let expected = put_unshared(&mut sketch, shard, put_threshold, key, round);
            assert_eq!(expected, cache.put(key, round));
            match expected {
                PutOutcome::Rejected { .. } => {}
                PutOutcome::Admitted { .. } => admitted += 1,
                PutOutcome::AdmittedEvicting { .. } => evicting += 1,
            }
        }
    }
    assert!(admitted > 0);
    assert!(evicting > 0);
    assert!(hits > 0);
}

fn shared_between_threads<T: Send + Sync>() {}

#[test]
fn a_handle_can_go_to_another_thread() {
    shared_between_threads::<Matecito<String>>();
    shared_between_threads::<Cache<Vec<u8>>>();
}
