use matecito::bloom_filter::BloomFilter;
use matecito::bloom_filter::NUM_HASH_FUNCTIONS;

fn multiplicity(indices: &[usize], index: usize) -> u64 {
    indices.iter().filter(|i| **i == index).count() as u64
}

fn least_multiplicity(indices: &[usize]) -> u64 {
    indices.iter().map(|i| multiplicity(indices, *i)).min().unwrap()
}

fn greatest_multiplicity(indices: &[usize]) -> u64 {
    indices.iter().map(|i| multiplicity(indices, *i)).max().unwrap()
}

fn share_a_counter(a: &[usize], b: &[usize]) -> bool {
    a.iter().any(|i| b.contains(i))
}

#[test]
fn the_first_projection_is_the_xxhash_under_seed_zero() {
    let bf = BloomFilter::new(10_000, 100);
    assert_eq!((0xef46_db37_51d8_e999u64 % 100) as usize, bf.get_indices(&[])[0]);
    assert_eq!((0x0a9e_dece_beb0_3ae4u64 % 100) as usize, bf.get_indices(&[42])[0]);
    assert_eq!(
        (0x7b06_c531_ea43_e89fu64 % 100) as usize,
        bf.get_indices(b"Hello, world!\0")[0]
    );

    let wide = BloomFilter::new(10_000, 1000);
    assert_eq!((0x0a9e_dece_beb0_3ae4u64 % 1000) as usize, wide.get_indices(&[42])[0]);
}

#[test]
fn a_sketch_has_the_counters_it_was_made_with() {
    assert_eq!(0, BloomFilter::new(10_000, 0).size());
    assert_eq!(1, BloomFilter::new(10_000, 1).size());
    let mut bf = BloomFilter::new(0, 1000);
    assert_eq!(1000, bf.size());
    bf.increment(b"asd");
    bf.decrement(b"123");
    bf.halve();
    assert_eq!(1000, bf.size());
}

#[test]
fn a_key_has_one_projection_for_each_seed() {
    let bf = BloomFilter::new(10_000, 100);
    let indices = bf.get_indices(b"asd");
    assert_eq!(7, NUM_HASH_FUNCTIONS);
    assert_eq!(NUM_HASH_FUNCTIONS, indices.len());
    assert!(indices.iter().all(|i| *i < 100));
    assert_eq!(indices, bf.get_indices(b"asd"));
    assert_ne!(indices, bf.get_indices(b"123"));
}

#[test]
fn a_sketch_without_counters_counts_nothing() {
    let mut bf = BloomFilter::new(10_000, 0);
    assert!(bf.get_indices(b"asd").is_empty());
    bf.increment(b"asd");
    assert_eq!(0, bf.count_present(b"asd"));
    assert_eq!(0, bf.max_count());
    bf.decrement(b"asd");
    bf.halve();
    assert_eq!(0, bf.count_present(b"asd"));
}

#[test]
fn a_sketch_of_one_counter_counts_every_projection() {
    let mut bf = BloomFilter::new(10_000, 1);
    assert_eq!(vec![0; 7], bf.get_indices(b"asd"));
    bf.increment(b"asd");
    assert_eq!(7, bf.count_present(b"asd"));
    assert_eq!(7, bf.count_present(b"123"));
    assert_eq!(7, bf.max_count());
    bf.decrement(b"123");
    assert_eq!(0, bf.count_present(b"asd"));
}

#[test]
fn the_estimate_is_the_least_counter_and_max_count_the_greatest() {
    let mut bf = BloomFilter::new(10_000, 100);
    let indices = bf.get_indices(b"asd");
    for n in 1..=25u64 {
        bf.increment(b"asd");
        assert_eq!(n * least_multiplicity(&indices), bf.count_present(b"asd"));
        assert_eq!(n * greatest_multiplicity(&indices), bf.max_count());
    }
}

#[test]
fn keys_that_share_no_counter_are_counted_exactly() {
    let mut bf = BloomFilter::new(10_000, 1000);
    let first: &[u8] = b"first";
    let first_indices = bf.get_indices(first);
    assert_eq!(1, least_multiplicity(&first_indices));
    let mut number = 0u64;
    let second = loop {
        let candidate = number.to_le_bytes();
        let indices = bf.get_indices(&candidate);
        if !share_a_counter(&first_indices, &indices) && least_multiplicity(&indices) == 1 {
            break candidate;
        }
        number += 1;
    };
    for round in 0..40u64 {
        bf.increment(first);
        bf.increment(&second);
        bf.increment(&second);
        assert_eq!(round + 1, bf.count_present(first));
        assert_eq!(2 * (round + 1), bf.count_present(&second));
    }
}

#[test]
fn a_shared_counter_can_only_raise_an_estimate() {
    let mut bf = BloomFilter::new(10_000, 10);
    for number in 0..50u64 {
        bf.increment(&number.to_le_bytes());
    }
    for _ in 0..3 {
        bf.increment(b"asd");
    }
    assert!(bf.count_present(b"asd") >= 3);
}

#[test]
fn decrement_stops_at_zero() {
    let mut bf = BloomFilter::new(10_000, 100);
    bf.decrement(b"asd");
    assert_eq!(0, bf.count_present(b"asd"));
    bf.increment(b"asd");
    bf.decrement(b"asd");
    bf.decrement(b"asd");
    assert_eq!(0, bf.count_present(b"asd"));
    bf.increment(b"asd");
    assert!(bf.count_present(b"asd") >= 1);
}

#[test]
fn decrement_leaves_max_count() {
    let mut bf = BloomFilter::new(10_000, 100);
    let indices = bf.get_indices(b"asd");
    bf.increment(b"asd");
    bf.increment(b"asd");
    let max_count = bf.max_count();
    assert_eq!(2 * greatest_multiplicity(&indices), max_count);
    bf.decrement(b"asd");
    assert_eq!(max_count, bf.max_count());
}

#[test]
fn halve_rounds_down_and_halves_max_count() {
    let mut bf = BloomFilter::new(10_000, 1);
    bf.increment(b"asd");
    bf.increment(b"asd");
    bf.increment(b"asd");
    assert_eq!(21, bf.count_present(b"asd"));
    assert_eq!(21, bf.max_count());
    bf.halve();
    assert_eq!(10, bf.count_present(b"asd"));
    assert_eq!(10, bf.max_count());
    bf.halve();
    assert_eq!(5, bf.count_present(b"asd"));
    bf.halve();
    bf.halve();
    assert_eq!(1, bf.count_present(b"asd"));
    bf.halve();
    assert_eq!(0, bf.count_present(b"asd"));
    assert_eq!(0, bf.max_count());
    bf.halve();
    assert_eq!(0, bf.count_present(b"asd"));
}
