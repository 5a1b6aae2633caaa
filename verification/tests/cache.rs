use skanda_engine::skanda::cache::{QueryCache, CACHE_CAP};

#[test]
fn answers_are_kept_per_query_and_flag() {
    let mut c: QueryCache<u32> = QueryCache::new();
    assert_eq!(c.get("rust", false), None);
    c.insert("rust".to_string(), false, 1);
    c.insert("rust".to_string(), true, 2);
    assert_eq!(c.get("rust", false), Some(&1));
    assert_eq!(c.get("rust", true), Some(&2));
    c.insert("rust".to_string(), false, 3);
    assert_eq!(c.get("rust", false), Some(&3));
    assert_eq!(c.len(), 2);
}

#[test]
fn a_full_cache_is_emptied_before_the_next_answer() {
    let mut c: QueryCache<usize> = QueryCache::new();
    for i in 0..CACHE_CAP {
        c.insert(format!("q{}", i), false, i);
    }
    assert_eq!(c.len(), CACHE_CAP);
    assert_eq!(c.get("q0", false), Some(&0));
    c.insert("new".to_string(), false, 7);
    assert_eq!(c.len(), 1);
    assert_eq!(c.get("q0", false), None);
    assert_eq!(c.get("new", false), Some(&7));
}
