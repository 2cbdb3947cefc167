use sync_primitives::cache::Cache;

#[test]
fn cache_computes_on_first_lookup() {
    let mut cache: Cache<u64> = Cache::new();
    let v = cache.get_or_insert_with(1, |k| k * k);
    assert_eq!(v, 1);
}

#[test]
fn cache_never_recomputes_a_key() {
    let mut cache: Cache<u64> = Cache::new();
    let v = cache.get_or_insert_with(1, |k| k * k);
    assert_eq!(v, 1);
    let w = cache.get_or_insert_with(1, |_| panic!("the factory must not run again"));
    assert_eq!(w, 1);
}

#[test]
fn cache_keeps_keys_apart() {
    let mut cache: Cache<u64> = Cache::new();
    let a = cache.get_or_insert_with(2, |k| k * k);
    let b = cache.get_or_insert_with(3, |k| k + 10);
    assert_eq!(a, 4);
    assert_eq!(b, 13);
    let a2 = cache.get_or_insert_with(2, |_| panic!("key 2 is already cached"));
    let b2 = cache.get_or_insert_with(3, |_| panic!("key 3 is already cached"));
    assert_eq!(a2, 4);
    assert_eq!(b2, 13);
}

#[test]
fn cache_runs_the_factory_exactly_once_per_key() {
    let mut cache: Cache<u64> = Cache::new();
    let mut runs: u32 = 0;
    for _ in 0..5 {
        let v = cache.get_or_insert_with(9, |k| {
            runs += 1;
            k + 1
        });
        assert_eq!(v, 10);
    }
    assert_eq!(runs, 1);
}

#[test]
fn cache_default_is_empty() {
    let mut cache: Cache<u64> = Cache::default();
    let v = cache.get_or_insert_with(7, |k| k + 1);
    assert_eq!(v, 8);
}
