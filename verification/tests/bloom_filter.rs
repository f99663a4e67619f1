use matecito::bloom_filter::BloomFilter;

#[test]
fn init_bloom_filter() {
    BloomFilter::new(10_000, 1000);
}

#[test]
fn init_bloom_filter_insert_and_check_presence() {
    let mut bf = BloomFilter::new(10_000, 100);
    let key = b"asd";
    bf.increment(key);
    assert_eq!(0, bf.count_present(b"123"));
    assert_eq!(1, bf.count_present(b"asd"));
}

#[test]
fn init_bloom_filter_insert_decrement_and_check_presence() {
    let mut bf = BloomFilter::new(10_000, 100);
    let key = b"asd";
    bf.increment(key);
    assert_eq!(0, bf.count_present(b"123"));
    assert_eq!(1, bf.count_present(b"asd"));

    bf.decrement(key);
    assert_eq!(0, bf.count_present(b"asd"));
    assert_eq!(0, bf.count_present(b"123"));
}

#[test]
fn init_bloom_increment_ten_times_then_halve() {
    let mut bf = BloomFilter::new(10_000, 100);
    let key = b"asd";

    for _ in 0..10 {
        bf.increment(key);
    }
    bf.halve();
    assert_eq!(5, bf.count_present(b"asd"));
    assert_eq!(0, bf.count_present(b"123"));
    bf.halve();
    assert_eq!(2, bf.count_present(b"asd"));
    bf.halve();
    assert_eq!(1, bf.count_present(b"asd"));
    bf.halve();
    assert_eq!(0, bf.count_present(b"asd"));
}
