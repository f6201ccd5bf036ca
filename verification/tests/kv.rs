use velo_core::kv_store::{InMemoryKvStore, KvStore, KvStoreError};
use velo_core::paged_attention::{
    BlockMapping, KvCacheType, PageId, PageManagerError, PageSpan, PagedAttentionBlockManager,
    PagedAttentionConfig,
};
use velo_core::radix_cache::KvCacheHandle;

#[test]
fn allocates_blocks_with_stable_handles() {
    let mut store = InMemoryKvStore::new(128);

    let first = store.allocate(4).unwrap();
    let second = store.allocate(2).unwrap();

    assert_eq!(first.block_id, 1);
    assert_eq!(second.block_id, 2);
    assert_eq!(store.get(first).unwrap().bytes, 512);
    assert_eq!(store.allocated_bytes(), 768);
}

#[test]
fn releases_known_blocks() {
    let mut store = InMemoryKvStore::new(64);
    let handle = store.allocate(3).unwrap();

    store.release(handle).unwrap();

    assert!(store.get(handle).is_none());
    assert!(store.is_empty());
}

#[test]
fn rejects_empty_allocations() {
    let mut store = InMemoryKvStore::new(64);

    assert_eq!(store.allocate(0), Err(KvStoreError::EmptyBlock));
}

#[test]
fn a_block_can_be_released_only_once() {
    let mut store = InMemoryKvStore::new(1);
    let handle = store.allocate(2).unwrap();
    assert_eq!(store.len(), 1);
    assert_eq!(store.release(handle), Ok(()));
    assert_eq!(store.release(handle), Err(KvStoreError::UnknownBlock(handle)));
    assert_eq!(store.allocated_bytes(), 0);
}

#[test]
fn allocates_pages_from_a_fixed_budget() {
    let config = PagedAttentionConfig::new(16, 4).unwrap();
    let mut manager = PagedAttentionBlockManager::new(config);
    let handle = KvCacheHandle { block_id: 1, token_len: 24 };

    let mapping = manager.allocate(handle, 24).unwrap();

    // Check if we got exactly 2 pages.
    assert_eq!(mapping.pages.len(), 2);
    // Check if there are 2 pages left for other people.
    assert_eq!(manager.free_pages(), 2);
    assert!(manager.mapped_pages(handle).is_some());
    assert_eq!(manager.materialize_span(handle).unwrap().pages.len(), 2);
}

#[test]
fn release_returns_pages_to_pool() {
    let config = PagedAttentionConfig::new(8, 2).unwrap();
    let mut manager = PagedAttentionBlockManager::new(config);
    let handle = KvCacheHandle { block_id: 2, token_len: 8 };

    // 1. Rent a spot.
    manager.allocate(handle, 8).unwrap();
    // 2. Return the spot.
    manager.release(handle).unwrap();

    // 3. The garage should be empty (2 free spots) again!
    assert_eq!(manager.free_pages(), 2);
}

#[test]
fn rejects_oversized_allocations() {
    let config = PagedAttentionConfig::new(32, 1).unwrap();
    let mut manager = PagedAttentionBlockManager::new(config);
    let handle = KvCacheHandle { block_id: 3, token_len: 64 };

    let error = manager.allocate(handle, 64).unwrap_err();

    // It should return an 'OutOfPages' error.
    assert!(matches!(
        error,
        PageManagerError::OutOfPages { requested: 2, available: 1 }
    ));
}

#[test]
fn mapped_pages_miss() {
    let mgr = PagedAttentionBlockManager::new(PagedAttentionConfig::new(16, 32).unwrap());
    assert!(mgr.mapped_pages(KvCacheHandle { block_id: 1, token_len: 0 }).is_none());
}

#[test]
fn release_error() {
    let mut mgr = PagedAttentionBlockManager::new(PagedAttentionConfig::new(16, 32).unwrap());
    assert!(mgr.release(KvCacheHandle { block_id: 1, token_len: 0 }).is_err());
}

#[test]
fn trait_impls() {
    let span = PageSpan { pages: vec![PageId(1)] };
    let span2 = span.clone();
    assert_eq!(span, span2);
    assert!(format!("{:?}", span).contains("PageId"));

    let mapping = BlockMapping {
        handle: KvCacheHandle { block_id: 1, token_len: 1 },
        pages: vec![PageId(1)],
        token_len: 1,
    };
    let mapping2 = mapping.clone();
    assert_eq!(mapping, mapping2);
}

#[test]
fn a_page_size_of_zero_is_refused() {
    assert!(matches!(
        PagedAttentionConfig::new(0, 4),
        Err(PageManagerError::InvalidBlockSize)
    ));
    let config = PagedAttentionConfig::new(4, 4).unwrap().with_kv_type(KvCacheType::Int8);
    assert_eq!(config.kv_type, KvCacheType::Int8);
}

#[test]
fn pages_are_rounded_up() {
    let mgr = PagedAttentionBlockManager::new(PagedAttentionConfig::new(16, 32).unwrap());
    assert_eq!(mgr.pages_for_tokens(0), 0);
    assert_eq!(mgr.pages_for_tokens(1), 1);
    assert_eq!(mgr.pages_for_tokens(16), 1);
    assert_eq!(mgr.pages_for_tokens(17), 2);
}

#[test]
fn blocks_do_not_share_pages() {
    let mut mgr = PagedAttentionBlockManager::new(PagedAttentionConfig::new(4, 4).unwrap());
    let a = KvCacheHandle { block_id: 1, token_len: 8 };
    let b = KvCacheHandle { block_id: 2, token_len: 4 };
    let pages_a = mgr.allocate(a, 8).unwrap().pages;
    let pages_b = mgr.allocate(b, 4).unwrap().pages;
    assert!(pages_a.iter().all(|p| !pages_b.contains(p)));
    assert_eq!(mgr.mapped_pages(a).unwrap(), pages_a.as_slice());
}

#[test]
fn free_and_mapped_pages_add_up() {
    let mut manager = PagedAttentionBlockManager::new(PagedAttentionConfig::new(4, 9).unwrap());
    let handle = |block_id: u64| KvCacheHandle { block_id, token_len: 1 };
    let mut mapped: usize = 0;
    for (block_id, tokens) in [(1, 9), (2, 4), (3, 1)] {
        mapped += manager.allocate(handle(block_id), tokens).unwrap().pages.len();
        assert_eq!(manager.free_pages() + mapped, 9);
    }
    mapped -= manager.mapped_pages(handle(1)).unwrap().len();
    manager.release(handle(1)).unwrap();
    assert_eq!(manager.free_pages() + mapped, 9);
}
