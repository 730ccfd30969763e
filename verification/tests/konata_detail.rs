use libsurfer::konata::detail::{DetailCache, KonataDetailQuery};

fn is_ready(query: &KonataDetailQuery<String>, expected: &str) -> bool {
    matches!(query, KonataDetailQuery::Ready(page) if page == expected)
}

#[test]
fn detail_cache_hit_returns_the_inserted_page() {
    let mut cache: DetailCache<String> = DetailCache::new(1_000);
    cache.insert(3, "page three".to_string(), 40);
    let query = cache.query(3);
    assert!(is_ready(&query, "page three"));
    let telemetry = cache.telemetry();
    assert_eq!(telemetry.hits, 1);
    assert_eq!(telemetry.misses, 0);
    assert_eq!(telemetry.resident_pages, 1);
    assert_eq!(telemetry.resident_bytes, 40);
    assert_eq!(telemetry.budget_bytes, 1_000);
    assert_eq!(telemetry.encoded_bytes, 0);
    assert_eq!(telemetry.page_count, 0);
}

#[test]
fn detail_cache_miss_is_pending_and_counted_once() {
    let mut cache: DetailCache<String> = DetailCache::new(1_000);
    assert!(cache.is_idle());
    assert!(matches!(cache.query(7), KonataDetailQuery::Pending));
    assert!(matches!(cache.query(7), KonataDetailQuery::Pending));
    let telemetry = cache.telemetry();
    assert_eq!(telemetry.misses, 1);
    assert_eq!(telemetry.pending_pages, 1);
    assert!(!cache.is_idle());
    cache.insert(7, "seven".to_string(), 10);
    assert!(cache.is_idle());
    assert!(is_ready(&cache.query(7), "seven"));
}

#[test]
fn detail_cache_only_the_first_claim_owns_the_decode() {
    let mut cache: DetailCache<String> = DetailCache::new(1_000);
    assert!(!cache.claim_decode(5));
    assert!(matches!(cache.query(5), KonataDetailQuery::Pending));
    assert!(cache.claim_decode(5));
    assert!(!cache.claim_decode(5));
    cache.insert(5, "five".to_string(), 8);
    assert!(!cache.claim_decode(5));
}

#[test]
fn detail_cache_failed_page_stays_unavailable() {
    let mut cache: DetailCache<String> = DetailCache::new(1_000);
    assert!(matches!(cache.query(9), KonataDetailQuery::Pending));
    let result = cache.resolve_decode(9, Err("page 9 is unavailable".to_string()));
    assert!(matches!(&result, KonataDetailQuery::Unavailable(error) if error == "page 9 is unavailable"));
    assert!(matches!(cache.query(9), KonataDetailQuery::Unavailable(error) if error == "page 9 is unavailable"));
    let telemetry = cache.telemetry();
    assert_eq!(telemetry.decode_errors, 1);
    assert_eq!(telemetry.pending_pages, 0);
    assert!(!cache.claim_decode(9));
}

#[test]
fn detail_cache_evicts_least_recently_used_first() {
    let mut cache: DetailCache<String> = DetailCache::new(100);
    cache.insert(1, "one".to_string(), 40);
    cache.insert(2, "two".to_string(), 40);
    assert!(is_ready(&cache.query(1), "one"));
    cache.insert(3, "three".to_string(), 40);
    assert!(is_ready(&cache.query(1), "one"));
    assert!(is_ready(&cache.query(3), "three"));
    assert!(matches!(cache.query(2), KonataDetailQuery::Pending));
    let telemetry = cache.telemetry();
    assert_eq!(telemetry.evictions, 1);
    assert_eq!(telemetry.resident_pages, 2);
    assert_eq!(telemetry.resident_bytes, 80);
}

#[test]
fn detail_cache_keeps_one_oversized_page() {
    let mut cache: DetailCache<String> = DetailCache::new(10);
    cache.insert(1, "small".to_string(), 5);
    cache.insert(2, "large".to_string(), 50);
    let telemetry = cache.telemetry();
    assert_eq!(telemetry.resident_pages, 1);
    assert_eq!(telemetry.resident_bytes, 50);
    assert_eq!(telemetry.evictions, 1);
    assert!(is_ready(&cache.query(2), "large"));
}

#[test]
fn detail_cache_reinsert_replaces_the_page_size() {
    let mut cache: DetailCache<String> = DetailCache::new(1_000);
    cache.insert(4, "old".to_string(), 30);
    cache.insert(4, "new".to_string(), 12);
    let telemetry = cache.telemetry();
    assert_eq!(telemetry.resident_pages, 1);
    assert_eq!(telemetry.resident_bytes, 12);
    assert!(is_ready(&cache.query(4), "new"));
}

#[test]
fn detail_cache_smaller_budget_evicts_and_never_drops_below_one_byte() {
    let mut cache: DetailCache<String> = DetailCache::new(1_000);
    cache.insert(1, "one".to_string(), 10);
    cache.insert(2, "two".to_string(), 10);
    cache.insert(3, "three".to_string(), 10);
    cache.set_budget(20);
    let telemetry = cache.telemetry();
    assert_eq!(telemetry.budget_bytes, 20);
    assert_eq!(telemetry.resident_pages, 2);
    assert_eq!(telemetry.evictions, 1);
    assert!(matches!(cache.query(1), KonataDetailQuery::Pending));
    cache.set_budget(0);
    let telemetry = cache.telemetry();
    assert_eq!(telemetry.budget_bytes, 1);
    assert_eq!(telemetry.resident_pages, 1);
}
