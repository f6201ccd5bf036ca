use velo_core::radix_cache::{CacheLookup, KvCacheHandle, RadixCache};

fn handle(block_id: u64, token_len: usize) -> KvCacheHandle {
    KvCacheHandle { block_id, token_len }
}

#[test]
fn returns_empty_lookup_on_miss() {
    let mut cache = RadixCache::new();

    assert_eq!(
        cache.lookup(&[1, 2, 3]),
        CacheLookup { matched_tokens: 0, handle: None }
    );
}

#[test]
fn reuses_longest_cached_prefix() {
    let mut cache = RadixCache::new();
    cache.insert(&[10, 20], handle(1, 2));
    cache.insert(&[10, 20, 30, 40], handle(2, 4));

    assert_eq!(
        cache.lookup(&[10, 20, 30, 40, 50]),
        CacheLookup { matched_tokens: 4, handle: Some(handle(2, 4)) }
    );
}

#[test]
fn splits_edge_when_new_prefix_is_shorter_than_existing_path() {
    let mut cache = RadixCache::new();
    cache.insert(&[1, 2, 3, 4], handle(7, 4));
    cache.insert(&[1, 2], handle(8, 2));

    assert_eq!(
        cache.lookup(&[1, 2, 9]),
        CacheLookup { matched_tokens: 2, handle: Some(handle(8, 2)) }
    );
    assert_eq!(
        cache.lookup(&[1, 2, 3, 4, 5]),
        CacheLookup { matched_tokens: 4, handle: Some(handle(7, 4)) }
    );
}

#[test]
fn splits_edge_when_paths_diverge_mid_edge() {
    let mut cache = RadixCache::new();
    cache.insert(&[1, 2, 3, 4], handle(11, 4));
    cache.insert(&[1, 2, 8, 9], handle(12, 4));

    assert_eq!(
        cache.lookup(&[1, 2, 3, 4]),
        CacheLookup { matched_tokens: 4, handle: Some(handle(11, 4)) }
    );
    assert_eq!(
        cache.lookup(&[1, 2, 8, 9]),
        CacheLookup { matched_tokens: 4, handle: Some(handle(12, 4)) }
    );
    assert_eq!(
        cache.lookup(&[1, 2, 0]),
        CacheLookup { matched_tokens: 0, handle: None }
    );
}

#[test]
fn replaces_existing_handle_for_same_prefix() {
    let mut cache = RadixCache::new();
    cache.insert(&[4, 5, 6], handle(1, 3));

    let inserted = cache.insert(&[4, 5, 6], handle(2, 3));

    assert_eq!(inserted.replaced, Some(handle(1, 3)));
    assert_eq!(
        cache.lookup(&[4, 5, 6, 7]),
        CacheLookup { matched_tokens: 3, handle: Some(handle(2, 3)) }
    );
    assert_eq!(cache.len(), 1);
}

#[test]
fn evicts_oldest_prefixes_when_capacity_is_exceeded() {
    let mut cache = RadixCache::with_capacity_tokens(5);
    cache.insert(&[1, 2], handle(1, 2));
    cache.insert(&[3, 4], handle(2, 2));
    cache.insert(&[5, 6], handle(3, 2));

    assert_eq!(cache.capacity_tokens(), Some(5));
    assert_eq!(cache.resident_tokens(), 4);
    assert!(cache.lookup(&[1, 2]).handle.is_none());
    assert_eq!(cache.lookup(&[3, 4]).handle, Some(handle(2, 2)));
    assert_eq!(cache.lookup(&[5, 6]).handle, Some(handle(3, 2)));
}

#[test]
fn eviction_takes_the_coldest_first() {
    let mut cache = RadixCache::new();
    assert!(cache.is_empty());
    cache.insert(&[1], handle(1, 1));
    cache.insert(&[2], handle(2, 1));
    cache.insert(&[3], handle(3, 1));
    let _ = cache.lookup(&[1]);
    let gone = cache.evict_coldest(1);
    assert_eq!(gone.evicted, vec![handle(2, 1)]);
    assert_eq!(cache.resident_tokens(), 2);
}

#[test]
fn lowering_the_capacity_evicts() {
    let mut cache = RadixCache::new();
    cache.insert(&[1, 2, 3], handle(1, 3));
    cache.insert(&[4, 5], handle(2, 2));
    cache.set_capacity_tokens(Some(2));
    assert_eq!(cache.resident_tokens(), 2);
    assert_eq!(cache.lookup(&[4, 5]).handle, Some(handle(2, 2)));
    assert_eq!(cache.len(), 1);
}

#[test]
fn a_fresh_handle_survives_its_own_insertion() {
    let mut cache = RadixCache::with_capacity_tokens(4);
    cache.insert(&[1, 2], handle(1, 2));
    cache.insert(&[3, 4], handle(2, 2));
    cache.insert(&[5, 6, 7, 8], handle(3, 4));
    assert_eq!(
        cache.lookup(&[5, 6, 7, 8]),
        CacheLookup { matched_tokens: 4, handle: Some(handle(3, 4)) }
    );
    assert_eq!(cache.resident_tokens(), 4);
    assert_eq!(cache.len(), 1);
}

#[test]
fn the_shortest_part_that_suffices_is_evicted_in_order_of_use() {
    let mut cache = RadixCache::new();
    cache.insert(&[1, 2], handle(1, 2));
    cache.insert(&[3, 4, 5], handle(2, 3));
    cache.insert(&[6], handle(3, 1));
    cache.insert(&[7, 8], handle(4, 2));
    cache.lookup(&[1, 2, 9]);
    assert!(cache.evict_coldest(0).evicted.is_empty());
    assert_eq!(cache.evict_coldest(4).evicted, vec![handle(2, 3), handle(3, 1)]);
    assert_eq!(cache.evict_coldest(1).evicted, vec![handle(4, 2)]);
    assert_eq!(cache.evict_coldest(9).evicted, vec![handle(1, 2)]);
    assert!(cache.is_empty());
}
