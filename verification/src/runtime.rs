//! Memory management and execution context abstraction.

use vstd::prelude::*;
use crate::kv_store;
use crate::kv_store::{InMemoryKvStore, KvStoreError};
use crate::paged_attention::{
    BlockMapping, PageId, PageManagerError, PageSpan, PagedAttentionBlockManager,
    PagedAttentionConfig,
};
use crate::radix_cache::KvCacheHandle;
use crate::slot_manager::SlotId;
use crate::speculative::SpeculativeError;

verus! {

/// Where the engine keeps KV blocks.
///
/// The spec functions describe it. They say nothing unless an implementation
/// defines them.
pub trait KvBlockStore {
    /// The handles of the blocks in the store, by block number.
    open spec fn held(&self) -> Map<u64, KvCacheHandle> {
        vstd::pervasive::arbitrary()
    }

    /// The block numbers that are still to be handed out.
    open spec fn numbers_left(&self) -> nat {
        vstd::pervasive::arbitrary()
    }

    /// The length of the longest block whose size is still a number.
    open spec fn longest_block(&self) -> nat {
        vstd::pervasive::arbitrary()
    }

    /// Whether the store can take a block of `token_len` tokens.
    open spec fn grants(&self, token_len: usize) -> bool {
        vstd::pervasive::arbitrary()
    }

    /// The error with which the store refuses a block of `token_len` tokens.
    open spec fn refusal(&self, token_len: usize) -> KvStoreError {
        vstd::pervasive::arbitrary()
    }

    /// Whether the store is sure to take `count` more blocks of at most `longest`
    /// tokens, none of them empty.
    open spec fn takes(&self, count: nat, longest: nat) -> bool {
        vstd::pervasive::arbitrary()
    }

    /// The size of a block of the store.
    open spec fn bytes_of(&self, block_id: u64) -> nat {
        vstd::pervasive::arbitrary()
    }

    /// The size of all blocks together.
    open spec fn total_bytes(&self) -> nat {
        vstd::pervasive::arbitrary()
    }

    /// What the store keeps.
    open spec fn store_wf(&self) -> bool {
        vstd::pervasive::arbitrary()
    }

    /// Makes room for a block of `token_len` tokens under a number that is not
    /// in use. Nothing changes on failure.
    fn allocate(&mut self, token_len: usize) -> (r: Result<KvCacheHandle, KvStoreError>)
        requires
            old(self).store_wf(),
            token_len <= old(self).longest_block(),
            old(self).numbers_left() > 0,
        ensures
            final(self).store_wf(),
            final(self).longest_block() == old(self).longest_block(),
            final(self).numbers_left() + 1 >= old(self).numbers_left(),
            r is Ok <==> old(self).grants(token_len),
            r is Ok ==> r->Ok_0.token_len == token_len && !old(self).held().contains_key(
                r->Ok_0.block_id,
            ) && final(self).held() == old(self).held().insert(r->Ok_0.block_id, r->Ok_0),
            r is Ok ==> final(self).total_bytes() == old(self).total_bytes() + final(self).bytes_of(
                r->Ok_0.block_id,
            ),
            r is Err ==> r->Err_0 == old(self).refusal(token_len) && final(self).held() == old(
                self,
            ).held() && final(self).total_bytes() == old(self).total_bytes(),
            forall|count: nat, longest: nat| #[trigger]
                old(self).takes(count, longest) && count > 0 && 0 < token_len <= longest ==> r is Ok
                    && final(self).takes((count - 1) as nat, longest),
    ;

    /// Gives a block up. This succeeds for every handle that the store holds,
    /// and nothing changes on failure.
    fn release(&mut self, handle: KvCacheHandle) -> (r: Result<(), KvStoreError>)
        requires
            old(self).store_wf(),
        ensures
            final(self).store_wf(),
            final(self).longest_block() == old(self).longest_block(),
            final(self).numbers_left() == old(self).numbers_left(),
            old(self).held().contains_pair(handle.block_id, handle) ==> r is Ok,
            r is Ok ==> final(self).held() == old(self).held().remove(handle.block_id),
            r is Ok ==> old(self).total_bytes() == final(self).total_bytes() + old(self).bytes_of(
                handle.block_id,
            ),
            r is Err ==> r->Err_0 == KvStoreError::UnknownBlock(handle) && final(self).held()
                == old(self).held() && final(self).total_bytes() == old(self).total_bytes(),
            forall|count: nat, longest: nat| #[trigger]
                old(self).takes(count, longest) ==> final(self).takes(count, longest),
    ;

    fn allocated_bytes(&self) -> (n: usize)
        requires
            self.store_wf(),
            self.total_bytes() <= usize::MAX,
        ensures
            n == self.total_bytes(),
    ;
}

/// Where the engine gets the pages of its blocks from.
///
/// The spec functions describe it. They say nothing unless an implementation
/// defines them.
pub trait PagedBlockAllocator {
    /// The pages of every block number in use.
    open spec fn pages_of(&self) -> Map<u64, Seq<PageId>> {
        vstd::pervasive::arbitrary()
    }

    /// Whether there are enough pages for `token_len` tokens.
    open spec fn can_map(&self, token_len: usize) -> bool {
        vstd::pervasive::arbitrary()
    }

    /// The error with which pages for `token_len` tokens are refused.
    open spec fn refusal(&self, token_len: usize) -> PageManagerError {
        vstd::pervasive::arbitrary()
    }

    /// How many pages are free.
    open spec fn pages_free(&self) -> nat {
        vstd::pervasive::arbitrary()
    }

    /// How many pages `token_len` tokens take.
    open spec fn pages_for(&self, token_len: usize) -> nat {
        vstd::pervasive::arbitrary()
    }

    /// Whether there are sure to be pages for `count` more blocks of at most
    /// `longest` tokens.
    open spec fn maps(&self, count: nat, longest: nat) -> bool {
        vstd::pervasive::arbitrary()
    }

    /// What the allocator keeps.
    open spec fn allocator_wf(&self) -> bool {
        vstd::pervasive::arbitrary()
    }

    /// Hands out pages for a block. Nothing changes on failure.
    fn allocate(&mut self, handle: KvCacheHandle, token_len: usize) -> (r: Result<
        BlockMapping,
        PageManagerError,
    >)
        requires
            old(self).allocator_wf(),
        ensures
            final(self).allocator_wf(),
            r is Ok <==> old(self).can_map(token_len),
            r is Ok ==> final(self).pages_of() == old(self).pages_of().insert(
                handle.block_id,
                r->Ok_0.pages@,
            ),
            r is Err ==> r->Err_0 == old(self).refusal(token_len) && final(self).pages_of()
                == old(self).pages_of(),
            forall|n: usize| #[trigger] final(self).pages_for(n) == old(self).pages_for(n),
            final(self).pages_free() == (if r is Ok {
                old(self).pages_free() - old(self).pages_for(token_len)
            } else {
                old(self).pages_free() as int
            }),
            forall|count: nat, longest: nat| #[trigger]
                old(self).maps(count, longest) && count > 0 && token_len <= longest ==> r is Ok
                    && final(self).maps((count - 1) as nat, longest),
    ;

    /// Takes the pages of a block back. This succeeds for every block that has
    /// pages, and nothing changes on failure.
    fn release(&mut self, handle: KvCacheHandle) -> (r: Result<(), PageManagerError>)
        requires
            old(self).allocator_wf(),
        ensures
            final(self).allocator_wf(),
            r is Ok <==> old(self).pages_of().contains_key(handle.block_id),
            r is Ok ==> final(self).pages_of() == old(self).pages_of().remove(handle.block_id),
            r is Err ==> r->Err_0 == PageManagerError::UnknownHandle(handle)
                && final(self).pages_of() == old(self).pages_of(),
            forall|n: usize| #[trigger] final(self).pages_for(n) == old(self).pages_for(n),
            final(self).pages_free() == old(self).pages_free() + (if r is Ok {
                old(self).pages_of()[handle.block_id].len()
            } else {
                0
            }),
            forall|count: nat, longest: nat| #[trigger]
                old(self).maps(count, longest) ==> final(self).maps(count, longest),
    ;

    fn materialize_span(&self, handle: KvCacheHandle) -> (span: Option<PageSpan>)
        requires
            self.allocator_wf(),
        ensures
            span is Some <==> self.pages_of().contains_key(handle.block_id),
            span is Some ==> span->0.pages@ == self.pages_of()[handle.block_id],
    ;
}

/// A page table: one row of `width` entries for each slot.
pub struct PageTable {
    pub width: nat,
    pub entries: Seq<u32>,
}

/// The memory side of an engine: a store, an allocator, and the binding of
/// request slots to pages.
///
/// The spec functions describe it. They say nothing unless an implementation
/// defines them.
pub trait MemoryRuntime: Sized {
    type Store: KvBlockStore;

    type Allocator: PagedBlockAllocator;

    /// The store.
    open spec fn the_store(&self) -> Self::Store {
        vstd::pervasive::arbitrary()
    }

    /// The allocator.
    open spec fn the_allocator(&self) -> Self::Allocator {
        vstd::pervasive::arbitrary()
    }

    /// Whether pages can be bound to a slot.
    open spec fn accepts_slot(&self, slot: SlotId) -> bool {
        vstd::pervasive::arbitrary()
    }

    /// Whether binding pages to a slot may fail with `e`.
    open spec fn refuses_slot(&self, slot: SlotId, pages: Seq<u32>, e: SpeculativeError) -> bool {
        vstd::pervasive::arbitrary()
    }

    /// The page table, as kernels read it.
    open spec fn page_table(&self) -> PageTable {
        vstd::pervasive::arbitrary()
    }

    /// Whether binding pages to a slot leads from one state to the other.
    open spec fn slot_bound(before: Self, slot: SlotId, pages: Seq<u32>, after: Self) -> bool {
        vstd::pervasive::arbitrary()
    }

    fn store(&self) -> (store: &Self::Store)
        ensures
            *store == self.the_store(),
    ;

    fn store_mut(&mut self) -> (store: &mut Self::Store)
        ensures
            *store == old(self).the_store(),
            final(self).the_store() == *final(store),
            final(self).the_allocator() == old(self).the_allocator(),
            final(self).page_table() == old(self).page_table(),
            forall|s: SlotId| #[trigger] final(self).accepts_slot(s) == old(self).accepts_slot(s),
    ;

    fn allocator(&self) -> (allocator: &Self::Allocator)
        ensures
            *allocator == self.the_allocator(),
    ;

    fn allocator_mut(&mut self) -> (allocator: &mut Self::Allocator)
        ensures
            *allocator == old(self).the_allocator(),
            final(self).the_allocator() == *final(allocator),
            final(self).the_store() == old(self).the_store(),
            final(self).page_table() == old(self).page_table(),
            forall|s: SlotId| #[trigger] final(self).accepts_slot(s) == old(self).accepts_slot(s),
    ;

    /// Binds a specific request slot to a sequence of physical page indices.
    ///
    /// This allows the backend to update its persistent page table for the given
    /// slot, enabling O(1) lookups during kernel execution.
    fn bind_slot(&mut self, slot: SlotId, pages: &[u32]) -> (r: Result<(), SpeculativeError>)
        requires
            old(self).accepts_slot(slot),
        ensures
            final(self).the_store() == old(self).the_store(),
            final(self).the_allocator() == old(self).the_allocator(),
            forall|s: SlotId| #[trigger] final(self).accepts_slot(s) == old(self).accepts_slot(s),
            r is Ok ==> Self::slot_bound(*old(self), slot, pages@, *final(self)),
            r is Err ==> old(self).refuses_slot(slot, pages@, r->Err_0) && final(self).page_table()
                == old(self).page_table(),
    ;
}

/// Configuration for the memory runtime and KV-cache layout.
#[derive(Debug, Clone, Copy, PartialEq, Eq, Structural)]
pub struct MemoryRuntimeConfig {
    /// Number of bytes required per KV token (total across all heads).
    pub bytes_per_token: usize,
    /// Number of tokens per page/block.
    pub paged_block_size: usize,
    /// Total number of pages available in the pool.
    pub paged_total_pages: usize,
    /// Number of layers in the model.
    pub n_layer: usize,
    /// Whether to use unified memory (Apple Silicon specific).
    pub unified_memory: bool,
    /// Maximum number of concurrent request slots to support.
    pub max_slots: usize,
}

impl MemoryRuntimeConfig {
    /// Creates a new configuration.
    pub fn new(
        bytes_per_token: usize,
        paged_block_size: usize,
        paged_total_pages: usize,
        n_layer: usize,
        max_slots: usize,
    ) -> (config: Self)
        ensures
            config == (MemoryRuntimeConfig {
                bytes_per_token,
                paged_block_size,
                paged_total_pages,
                n_layer,
                unified_memory: true,
                max_slots,
            }),
    {
        MemoryRuntimeConfig {
            bytes_per_token,
            paged_block_size,
            paged_total_pages,
            n_layer,
            unified_memory: true,
            max_slots,
        }
    }

    /// Creates a configuration optimized for CPU execution.
    pub fn cpu(
        bytes_per_token: usize,
        paged_block_size: usize,
        paged_total_pages: usize,
        n_layer: usize,
        max_slots: usize,
    ) -> (config: Self)
        ensures
            config == (MemoryRuntimeConfig {
                bytes_per_token,
                paged_block_size,
                paged_total_pages,
                n_layer,
                unified_memory: false,
                max_slots,
            }),
    {
        let mut config = MemoryRuntimeConfig::new(
            bytes_per_token,
            paged_block_size,
            paged_total_pages,
            n_layer,
            max_slots,
        );
        config.unified_memory = false;
        config
    }
}

impl Default for MemoryRuntimeConfig {
    /// No memory at all.
    fn default() -> (config: Self)
        ensures
            config == (MemoryRuntimeConfig {
                bytes_per_token: 0,
                paged_block_size: 0,
                paged_total_pages: 0,
                n_layer: 0,
                unified_memory: false,
                max_slots: 0,
            }),
    {
        MemoryRuntimeConfig {
            bytes_per_token: 0,
            paged_block_size: 0,
            paged_total_pages: 0,
            n_layer: 0,
            unified_memory: false,
            max_slots: 0,
        }
    }
}

/// A runtime without a device: it only accounts for memory.
#[derive(Debug)]
pub struct CpuMemoryRuntime {
    store: InMemoryKvStore,
    allocator: PagedAttentionBlockManager,
}

impl CpuMemoryRuntime {
    pub fn new(config: MemoryRuntimeConfig) -> (r: Result<Self, PageManagerError>)
        ensures
            config.paged_block_size == 0 ==> r == Err::<Self, PageManagerError>(
                PageManagerError::InvalidBlockSize,
            ),
            config.paged_block_size > 0 ==> {
                &&& r is Ok
                &&& r->Ok_0.the_store().store_wf()
                &&& r->Ok_0.the_store().held() == Map::<u64, KvCacheHandle>::empty()
                &&& r->Ok_0.the_store().numbers_left() == u64::MAX - 1
                &&& r->Ok_0.the_store().token_bytes() == config.bytes_per_token
                &&& r->Ok_0.the_allocator().allocator_wf()
                &&& r->Ok_0.the_allocator().pages_of() == Map::<u64, Seq<PageId>>::empty()
                &&& r->Ok_0.the_allocator()@.config.block_size == config.paged_block_size
                &&& r->Ok_0.the_allocator()@.config.total_pages == config.paged_total_pages
                &&& r->Ok_0.the_allocator()@.free == crate::paged_attention::all_pages(
                    config.paged_total_pages as nat,
                )
            },
    {
        let paged: PagedAttentionConfig = match PagedAttentionConfig::new(
            config.paged_block_size,
            config.paged_total_pages,
        ) {
            Ok(c) => c,
            Err(e) => {
                return Err(e);
            },
        };
        let runtime = CpuMemoryRuntime {
            store: InMemoryKvStore::new(config.bytes_per_token),
            allocator: PagedAttentionBlockManager::new(paged),
        };
        assert(runtime.store.held() =~= Map::<u64, KvCacheHandle>::empty());
        assert(runtime.allocator.pages_of() =~= Map::<u64, Seq<PageId>>::empty());
        Ok(runtime)
    }
}

impl MemoryRuntime for CpuMemoryRuntime {
    type Store = InMemoryKvStore;

    type Allocator = PagedAttentionBlockManager;

    closed spec fn the_store(&self) -> InMemoryKvStore {
        self.store
    }

    closed spec fn the_allocator(&self) -> PagedAttentionBlockManager {
        self.allocator
    }

    open spec fn accepts_slot(&self, slot: SlotId) -> bool {
        true
    }

    open spec fn refuses_slot(&self, slot: SlotId, pages: Seq<u32>, e: SpeculativeError) -> bool {
        false
    }

    /// There is none.
    open spec fn page_table(&self) -> PageTable {
        PageTable { width: 0, entries: Seq::empty() }
    }

    open spec fn slot_bound(before: Self, slot: SlotId, pages: Seq<u32>, after: Self) -> bool {
        after == before
    }

    fn store(&self) -> (store: &InMemoryKvStore) {
        &self.store
    }

    fn store_mut(&mut self) -> (store: &mut InMemoryKvStore) {
        &mut self.store
    }

    fn allocator(&self) -> (allocator: &PagedAttentionBlockManager) {
        &self.allocator
    }

    fn allocator_mut(&mut self) -> (allocator: &mut PagedAttentionBlockManager) {
        &mut self.allocator
    }

    /// There is no page table to update.
    fn bind_slot(&mut self, slot: SlotId, pages: &[u32]) -> (r: Result<(), SpeculativeError>)
        ensures
            r is Ok,
    {
        Ok(())
    }
}

impl KvBlockStore for InMemoryKvStore {
    open spec fn held(&self) -> Map<u64, KvCacheHandle> {
        kv_store::KvStore::blocks(self).map_values(|b: kv_store::KvBlock| b.handle)
    }

    open spec fn numbers_left(&self) -> nat {
        kv_store::KvStore::numbers_left(self)
    }

    open spec fn longest_block(&self) -> nat {
        if self.token_bytes() == 0 {
            usize::MAX as nat
        } else {
            usize::MAX as nat / self.token_bytes() as nat
        }
    }

    open spec fn grants(&self, token_len: usize) -> bool {
        token_len > 0
    }

    open spec fn refusal(&self, token_len: usize) -> KvStoreError {
        KvStoreError::EmptyBlock
    }

    open spec fn takes(&self, count: nat, longest: nat) -> bool {
        true
    }

    open spec fn bytes_of(&self, block_id: u64) -> nat {
        kv_store::KvStore::blocks(self)[block_id].bytes as nat
    }

    open spec fn total_bytes(&self) -> nat {
        kv_store::bytes_in(kv_store::KvStore::blocks(self))
    }

    open spec fn store_wf(&self) -> bool {
        kv_store::KvStore::wf(self)
    }

    /// An empty block is refused; any other one is made.
    fn allocate(&mut self, token_len: usize) -> (r: Result<KvCacheHandle, KvStoreError>)
        ensures
            token_len == 0 ==> r == Err::<KvCacheHandle, KvStoreError>(KvStoreError::EmptyBlock),
            token_len > 0 ==> r is Ok && r->Ok_0.block_id == old(self).next_id(),
            final(self).token_bytes() == old(self).token_bytes(),
    {
        proof {
            let b = self.token_bytes() as nat;
            let n = token_len as nat;
            assert(n * b <= usize::MAX) by (nonlinear_arith)
                requires
                    b == 0 || n <= usize::MAX as nat / b,
            ;
        }
        let r: Result<KvCacheHandle, KvStoreError> = kv_store::KvStore::allocate(self, token_len);
        proof {
            if r is Ok {
                let id = r->Ok_0.block_id;
                let blocks = kv_store::KvStore::blocks(self);
                assert(self.held() =~= old(self).held().insert(id, r->Ok_0));
                kv_store::blocks_are_finite(*self);
                kv_store::lemma_bytes_split(blocks, id);
                assert(blocks.remove(id) =~= kv_store::KvStore::blocks(old(self)));
            }
        }
        r
    }

    fn release(&mut self, handle: KvCacheHandle) -> (r: Result<(), KvStoreError>)
        ensures
            r is Ok <==> old(self).held().contains_pair(handle.block_id, handle),
            r is Err ==> r == Err::<(), KvStoreError>(KvStoreError::UnknownBlock(handle)),
            final(self).token_bytes() == old(self).token_bytes(),
    {
        let r: Result<(), KvStoreError> = kv_store::KvStore::release(self, handle);
        proof {
            if r is Ok {
                assert(self.held() =~= old(self).held().remove(handle.block_id));
                kv_store::blocks_are_finite(*old(self));
                kv_store::lemma_bytes_split(
                    kv_store::KvStore::blocks(old(self)),
                    handle.block_id,
                );
            }
        }
        r
    }

    fn allocated_bytes(&self) -> (n: usize) {
        InMemoryKvStore::allocated_bytes(self)
    }
}

impl PagedBlockAllocator for PagedAttentionBlockManager {
    open spec fn pages_of(&self) -> Map<u64, Seq<PageId>> {
        self@.mapped.map_values(|m: crate::paged_attention::MappingModel| m.pages)
    }

    open spec fn can_map(&self, token_len: usize) -> bool {
        crate::paged_attention::pages_needed(
            token_len as nat,
            self@.config.block_size as nat,
        ) <= self@.free.len()
    }

    open spec fn refusal(&self, token_len: usize) -> PageManagerError {
        PageManagerError::OutOfPages {
            requested: crate::paged_attention::pages_needed(
                token_len as nat,
                self@.config.block_size as nat,
            ) as usize,
            available: self@.free.len() as usize,
        }
    }

    open spec fn pages_free(&self) -> nat {
        self@.free.len()
    }

    open spec fn pages_for(&self, token_len: usize) -> nat {
        crate::paged_attention::pages_needed(token_len as nat, self@.config.block_size as nat)
    }

    open spec fn maps(&self, count: nat, longest: nat) -> bool {
        count * crate::paged_attention::pages_needed(longest, self@.config.block_size as nat)
            <= self@.free.len()
    }

    open spec fn allocator_wf(&self) -> bool {
        self@.config.block_size > 0
    }

    fn allocate(&mut self, handle: KvCacheHandle, token_len: usize) -> (r: Result<
        BlockMapping,
        PageManagerError,
    >)
        ensures
            r is Ok ==> final(self)@ == crate::paged_attention::pool_allocated(
                old(self)@,
                handle,
                token_len,
                crate::paged_attention::pages_needed(
                    token_len as nat,
                    old(self)@.config.block_size as nat,
                ),
            ),
            r is Err ==> final(self)@ == old(self)@,
    {
        let r: Result<BlockMapping, PageManagerError> = PagedAttentionBlockManager::allocate(
            self,
            handle,
            token_len,
        );
        proof {
            let size = old(self)@.config.block_size as nat;
            let own = crate::paged_attention::pages_needed(token_len as nat, size);
            assert forall|count: nat, longest: nat| #[trigger]
                old(self).maps(count, longest) && count > 0 && token_len <= longest implies r is Ok
                && self.maps((count - 1) as nat, longest) by {
                let most = crate::paged_attention::pages_needed(longest, size);
                crate::paged_attention::longer_blocks_need_no_fewer_pages(
                    token_len as nat,
                    longest,
                    size,
                );
                assert(count * most >= most && (count - 1) * most == count * most - most)
                    by (nonlinear_arith)
                    requires
                        count > 0,
                        most >= 0,
                ;
            }
            if r is Ok {
                assert(self.pages_of() =~= old(self).pages_of().insert(
                    handle.block_id,
                    r->Ok_0.pages@,
                ));
            }
        }
        r
    }

    fn release(&mut self, handle: KvCacheHandle) -> (r: Result<(), PageManagerError>)
        ensures
            r is Ok ==> final(self)@ == crate::paged_attention::pool_released(
                old(self)@,
                handle.block_id,
            ),
            r is Err ==> final(self)@ == old(self)@,
    {
        let r: Result<(), PageManagerError> = PagedAttentionBlockManager::release(self, handle);
        proof {
            if r is Ok {
                assert(self.pages_of() =~= old(self).pages_of().remove(handle.block_id));
            }
        }
        r
    }

    fn materialize_span(&self, handle: KvCacheHandle) -> (span: Option<PageSpan>) {
        PagedAttentionBlockManager::materialize_span(self, handle)
    }
}


/// A block gets its pages exactly where as many as it needs are free, the last one among
/// them, and the refusal tells both numbers.
pub proof fn blocks_are_mapped_where_pages_suffice(m: PagedAttentionBlockManager, token_len: usize)
    requires
        m.allocator_wf(),
        m.pages_for(token_len) <= usize::MAX,
        m.pages_free() <= usize::MAX,
    ensures
        m.can_map(token_len) <==> m.pages_for(token_len) <= m.pages_free(),
        m.maps(1, token_len as nat) <==> m.can_map(token_len),
        m.refusal(token_len) is OutOfPages,
        m.refusal(token_len)->requested == m.pages_for(token_len),
        m.refusal(token_len)->available == m.pages_free(),
{
    let p = m.pages_for(token_len);
    assert(1 * p == p) by (nonlinear_arith);
}
} // verus!
