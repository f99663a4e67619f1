use matecito::matecito_internal::MatecitoInternal;

#[test]
fn matecito_internal_insert_and_find_in_cache() {
    let mut matecito = MatecitoInternal::<i32>::new(2);
    matecito.put(123, 123);
    matecito.put(456, 456);

    assert_eq!(Some(&456), matecito.get(456));
    assert_eq!(Some(&123), matecito.get(123));

    assert_eq!(None, matecito.get(01010));

    matecito.put(789, 789_000);
    assert_eq!(Some(&789_000), matecito.get(789));
    // 456 is gone, since the cache is full
    assert_eq!(None, matecito.get(456));

    matecito.put(456, 456);
    assert_eq!(Some(&456), matecito.get(456));

    // 123 is gone, since the cache is full
    assert_eq!(None, matecito.get(123));
}
