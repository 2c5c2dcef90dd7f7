use dp_cache::cache::{CacheAll, CacheArray, CacheVec, NoCache, ScopedCachePolicy};

#[test]
fn cache_all_reads_back_what_was_set() {
    let mut c: CacheAll<u32, &str> = CacheAll::new();
    assert_eq!(c.get(&7), None);
    c.set(7, "seven");
    c.set(8, "eight");
    assert_eq!(c.get(&7), Some(&"seven"));
    assert_eq!(c.get(&8), Some(&"eight"));
    assert_eq!(c.get(&9), None);
}

#[test]
fn cache_all_overwrites_an_entry() {
    let mut c: CacheAll<i64, u8> = CacheAll::new();
    c.set(-3, 1);
    c.set(-3, 2);
    assert_eq!(c.get(&-3), Some(&2));
}

#[test]
fn no_cache_never_hits() {
    let mut c = NoCache;
    ScopedCachePolicy::<u32, u32>::set(&mut c, 1, 10);
    assert_eq!(ScopedCachePolicy::<u32, u32>::get(&c, &1), None);
}

#[test]
fn cache_vec_grows_to_fit_the_key() {
    let mut c: CacheVec<u64> = CacheVec::new();
    assert_eq!(c.get(&0), None);
    c.set(5, 50);
    assert_eq!(c.get(&5), Some(&50));
    assert_eq!(c.get(&4), None);
    assert_eq!(c.get(&6), None);
    c.set(2, 20);
    assert_eq!(c.get(&2), Some(&20));
    assert_eq!(c.get(&5), Some(&50));
    assert_eq!(c.get(&usize::MAX), None);
}

#[test]
fn cache_vec_with_capacity_and_default_start_empty() {
    let c: CacheVec<u64> = CacheVec::new_with_capacity(16);
    assert_eq!(c.get(&0), None);
    let d: CacheVec<u64> = CacheVec::default();
    assert_eq!(d.get(&3), None);
}

#[test]
fn cache_array_keeps_keys_below_its_size() {
    let mut c: CacheArray<u32, 4> = CacheArray::new();
    assert_eq!(c.get(&0), None);
    c.set(0, 100);
    c.set(3, 300);
    assert_eq!(c.get(&0), Some(&100));
    assert_eq!(c.get(&3), Some(&300));
    assert_eq!(c.get(&1), None);
    assert_eq!(c.get(&4), None);
    let d: CacheArray<u32, 4> = CacheArray::default();
    assert_eq!(d.get(&3), None);
}

#[test]
fn cache_array_holds_values_that_are_only_clone() {
    let mut c: CacheArray<String, 4> = CacheArray::new();
    assert_eq!(c.get(&0), None);
    c.set(2, String::from("two"));
    assert_eq!(c.get(&2), Some(&String::from("two")));
    assert_eq!(c.get(&3), None);
    assert_eq!(c.get(&4), None);
    let d: CacheArray<String, 2> = Default::default();
    assert_eq!(d.get(&1), None);
}
