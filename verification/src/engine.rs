//! Core orchestration logic for the inference engine.

use std::sync::Arc;
use llguidance::ParserFactory;
use vstd::prelude::*;
use vstd::string::*;
use crate::constraints;
use crate::constraints::{constrained_by, CfgMatcher, Constraint, LlguidanceMatcher};
use crate::kv_store::KvStoreError;
use crate::paged_attention::{KvCacheType, PageId, PageManagerError, PageSpan};
use crate::radix_cache;
use crate::radix_cache::{CacheInsert, CacheLookup, KvCacheHandle, RadixCache, TokenId};
use crate::runtime::{
    CpuMemoryRuntime, KvBlockStore, MemoryRuntime, MemoryRuntimeConfig, PageTable,
    PagedBlockAllocator,
};
use crate::slot_manager::{SlotId, SlotPool};
use crate::speculative;
use crate::speculative::{
    append_tokens, bind_models, copied, model_error, predicted_tokens, DraftAsk, DraftModel, DraftRequest,
    NextTokenPrediction, SpeculativeDecoder, SpeculativeError, SpeculativeSession,
    SpeculativeStats, TargetModel, VerifyAsk, VerifyRequest, VerifyStep,
};
use crate::text::joined;

verus! {

#[derive(Debug, Clone, Copy, PartialEq, Eq, Structural)]
pub struct EngineConfig {
    pub draft_window: usize,
    pub memory: MemoryRuntimeConfig,
    pub kv_type: KvCacheType,
}

impl Default for EngineConfig {
    fn default() -> (config: Self)
        ensures
            config.draft_window == 8,
            config.memory == (MemoryRuntimeConfig {
                bytes_per_token: 0,
                paged_block_size: 0,
                paged_total_pages: 0,
                n_layer: 0,
                unified_memory: false,
                max_slots: 0,
            }),
            config.kv_type == KvCacheType::Fp32,
    {
        EngineConfig {
            draft_window: 8,
            memory: MemoryRuntimeConfig::default(),
            kv_type: KvCacheType::Fp32,
        }
    }
}

#[derive(Debug, Clone, Copy, PartialEq, Eq, Structural)]
pub struct EngineStats {
    pub cache_hit_tokens: usize,
    pub cache_miss_tokens: usize,
    pub speculative: SpeculativeStats,
}

impl Default for EngineStats {
    fn default() -> (s: Self)
        ensures
            s == (EngineStats {
                cache_hit_tokens: 0,
                cache_miss_tokens: 0,
                speculative: speculative::no_stats(),
            }),
    {
        EngineStats {
            cache_hit_tokens: 0,
            cache_miss_tokens: 0,
            speculative: SpeculativeStats::default(),
        }
    }
}

#[derive(Debug, Clone, PartialEq, Eq)]
pub struct EngineOutput {
    pub tokens: Vec<TokenId>,
    pub cached_prefix: CacheLookup,
    pub cached_pages: Option<PageSpan>,
    pub inserted_handle: Option<KvCacheHandle>,
    pub inserted_pages: Option<PageSpan>,
    pub stats: EngineStats,
}

/// A request to be processed in a batch.
#[derive(Debug, Clone)]
pub struct BatchRequest {
    /// The prompt tokens.
    pub prompt: Vec<TokenId>,
    /// Maximum number of new tokens to generate.
    pub max_new_tokens: usize,
    /// Optional grammar/regex constraint.
    pub constraint: Option<Constraint>,
}

#[derive(Debug, Clone, PartialEq, Eq)]
pub struct EnginePrefillOutput {
    pub cached_prefix: CacheLookup,
    pub cached_pages: Option<PageSpan>,
    pub inserted_handle: Option<KvCacheHandle>,
    pub inserted_pages: Option<PageSpan>,
    pub stats: EngineStats,
}

/// Internal state for a request currently being processed in a batch.
pub struct ActiveRequest {
    /// The speculative decoding session.
    pub session: SpeculativeSession,
    /// The GPU slot assigned to this request.
    pub slot_id: SlotId,
    /// Maximum number of new tokens to generate.
    pub max_new_tokens: usize,
    /// Tokens generated so far.
    pub generated: Vec<TokenId>,
    /// Prefill results (prefix cache hits/misses).
    pub prefill: EnginePrefillOutput,
    /// Optional grammar matcher for constrained decoding.
    pub matcher: Option<LlguidanceMatcher>,
    /// Whether the draft model had nothing more to propose.
    pub finished: bool,
}

#[derive(Debug, Clone, PartialEq, Eq)]
pub enum EngineError {
    KvStore(KvStoreError),
    PagedAttention(PageManagerError),
    Speculative(SpeculativeError),
}

impl EngineError {
    /// The message of the error.
    pub open spec fn text(self) -> Seq<char> {
        match self {
            EngineError::KvStore(e) => "KV store failed: "@ + e.text(),
            EngineError::PagedAttention(e) => "paged attention failed: "@ + e.text(),
            EngineError::Speculative(e) => "speculative decoding failed: "@ + e.text(),
        }
    }

    pub fn to_string(&self) -> (s: String)
        ensures
            s@ == self.text(),
    {
        match self {
            EngineError::KvStore(e) => joined("KV store failed: ", e.to_string().as_str()),
            EngineError::PagedAttention(e) => joined(
                "paged attention failed: ",
                e.to_string().as_str(),
            ),
            EngineError::Speculative(e) => joined(
                "speculative decoding failed: ",
                e.to_string().as_str(),
            ),
        }
    }
}

impl From<KvStoreError> for EngineError {
    fn from(error: KvStoreError) -> (e: Self) {
        EngineError::KvStore(error)
    }
}

impl vstd::std_specs::convert::FromSpecImpl<KvStoreError> for EngineError {
    open spec fn obeys_from_spec() -> bool {
        true
    }

    open spec fn from_spec(error: KvStoreError) -> Self {
        EngineError::KvStore(error)
    }
}

impl From<PageManagerError> for EngineError {
    fn from(error: PageManagerError) -> (e: Self) {
        EngineError::PagedAttention(error)
    }
}

impl vstd::std_specs::convert::FromSpecImpl<PageManagerError> for EngineError {
    open spec fn obeys_from_spec() -> bool {
        true
    }

    open spec fn from_spec(error: PageManagerError) -> Self {
        EngineError::PagedAttention(error)
    }
}

impl From<SpeculativeError> for EngineError {
    fn from(error: SpeculativeError) -> (e: Self) {
        EngineError::Speculative(error)
    }
}

impl vstd::std_specs::convert::FromSpecImpl<SpeculativeError> for EngineError {
    open spec fn obeys_from_spec() -> bool {
        true
    }

    open spec fn from_spec(error: SpeculativeError) -> Self {
        EngineError::Speculative(error)
    }
}

/// High-performance inference engine for speculative decoding.
///
/// `VeloEngine` orchestrates the radix-prefix cache, paged-attention memory,
/// and the speculative draft/verify loop. It uses a `SlotPool` to isolate
/// concurrent requests and provide stable indexing for GPU backends.
pub struct VeloEngine<R = CpuMemoryRuntime> {
    /// Orchestrates the draft-and-verify speculative loop.
    decoder: SpeculativeDecoder,
    /// Manages prefix KV-cache reuse and eviction.
    prefix_cache: RadixCache,
    /// Backend-specific memory and execution runtime (CPU or Metal).
    runtime: R,
    /// Pool of stable indexes for concurrent request state.
    slot_pool: SlotPool,
    /// Factory for creating grammar matchers.
    pub parser_factory: Option<Arc<ParserFactory>>,
}

/// What an engine keeps: its parts are sound, and every slot of its pool can be
/// bound to pages.
pub open spec fn engine_wf<R: MemoryRuntime>(engine: VeloEngine<R>) -> bool {
    &&& engine.cached().wf()
    &&& engine.memory().the_store().store_wf()
    &&& engine.memory().the_allocator().allocator_wf()
    &&& forall|s: u32| s < engine.slots().max() ==> #[trigger] engine.memory().accepts_slot(SlotId(s))
    &&& engine.slots().in_range()
}

/// Whether every cached handle stands for a block of the store that has pages,
/// no two prefixes sharing one.
pub open spec fn backed(
    entries: Seq<radix_cache::CacheEntry>,
    held: Map<u64, KvCacheHandle>,
    pages: Map<u64, Seq<PageId>>,
) -> bool {
    &&& forall|i: int|
        0 <= i < entries.len() && (#[trigger] entries[i]).handle is Some ==> held.contains_pair(
            entries[i].handle->0.block_id,
            entries[i].handle->0,
        ) && pages.contains_key(entries[i].handle->0.block_id)
    &&& forall|i: int, j: int|
        0 <= i < entries.len() && 0 <= j < entries.len() && (#[trigger] entries[i]).handle is Some
            && (#[trigger] entries[j]).handle is Some && entries[i].handle->0.block_id
            == entries[j].handle->0.block_id ==> i == j
}

/// Whether what an engine caches is backed by its memory.
pub open spec fn engine_backed<R: MemoryRuntime>(engine: VeloEngine<R>) -> bool {
    backed(
        engine.cached()@.entries,
        engine.memory().the_store().held(),
        engine.memory().the_allocator().pages_of(),
    )
}

/// Whether the machine's numbers suffice to cache `count` more sequences of at
/// most `longest` tokens each.
pub open spec fn engine_room<R: MemoryRuntime>(engine: VeloEngine<R>, count: nat, longest: nat) -> bool {
    &&& longest <= engine.memory().the_store().longest_block()
    &&& count <= engine.memory().the_store().numbers_left()
    &&& radix_cache::tokens_resident(engine.cached()@.entries) + count * longest <= usize::MAX
}

/// Whether the memory is sure to take `count` more sequences of at most `longest`
/// tokens, none of them empty.
pub open spec fn ample<R: MemoryRuntime>(engine: VeloEngine<R>, count: nat, longest: nat) -> bool {
    &&& exists|k: nat| k >= count && #[trigger] engine.memory().the_store().takes(k, longest)
    &&& exists|k: nat| k >= count && #[trigger] engine.memory().the_allocator().maps(k, longest)
}

impl<R> VeloEngine<R> {
    /// The prefix cache.
    pub closed spec fn cached(&self) -> RadixCache {
        self.prefix_cache
    }

    /// The memory runtime.
    pub closed spec fn memory(&self) -> R {
        self.runtime
    }

    /// The slot pool.
    pub closed spec fn slots(&self) -> SlotPool {
        self.slot_pool
    }

    /// The factory of grammar matchers.
    pub closed spec fn factory(&self) -> Option<Arc<ParserFactory>> {
        self.parser_factory
    }

    /// The decoder.
    pub closed spec fn decodes(&self) -> SpeculativeDecoder {
        self.decoder
    }
}

impl VeloEngine<CpuMemoryRuntime> {
    /// An engine on the CPU runtime. Twice the draft window must be a number.
    pub fn new(config: EngineConfig) -> (r: Result<Self, EngineError>)
        requires
            config.draft_window * 2 <= usize::MAX,
        ensures
            r is Err <==> config.memory.paged_block_size == 0 || config.draft_window == 0,
            config.memory.paged_block_size == 0 ==> r == Err::<Self, EngineError>(
                EngineError::PagedAttention(PageManagerError::InvalidBlockSize),
            ),
            config.memory.paged_block_size > 0 && config.draft_window == 0 ==> r == Err::<
                Self,
                EngineError,
            >(EngineError::Speculative(SpeculativeError::EmptyDraftWindow)),
            r is Ok ==> engine_wf(r->Ok_0) && engine_backed(r->Ok_0)
                && r->Ok_0.slots().max() == config.memory.max_slots
                && r->Ok_0.decodes().window() == config.draft_window
                && r->Ok_0.factory() is None,
            r is Ok ==> {
                let engine = r->Ok_0;
                &&& engine.slots()@ == crate::slot_manager::fresh_slots(config.memory.max_slots)
                &&& engine.decodes().limit() == config.draft_window * 2
                &&& engine.cached()@ == radix_cache::empty_cache()
                &&& engine.memory().the_store().numbers_left() == u64::MAX - 1
                &&& engine.memory().the_store().token_bytes() == config.memory.bytes_per_token
                &&& engine.memory().the_allocator()@.config.block_size
                    == config.memory.paged_block_size
                &&& engine.memory().the_allocator()@.config.total_pages
                    == config.memory.paged_total_pages
                &&& engine.memory().the_allocator()@.free == crate::paged_attention::all_pages(
                    config.memory.paged_total_pages as nat,
                )
            },
    {
        let runtime: CpuMemoryRuntime = match CpuMemoryRuntime::new(config.memory) {
            Ok(runtime) => runtime,
            Err(e) => {
                return Err(EngineError::from(e));
            },
        };
        Self::with_runtime(config, runtime)
    }

    /// The store of the CPU runtime.
    pub fn kv_store(&self) -> (store: &crate::kv_store::InMemoryKvStore)
        ensures
            *store == self.memory().the_store(),
    {
        self.runtime.store()
    }
}

impl<R: MemoryRuntime> VeloEngine<R> {
    /// An engine on any runtime, with an empty cache and all slots free.
    pub fn with_runtime(config: EngineConfig, runtime: R) -> (r: Result<Self, EngineError>)
        requires
            config.draft_window * 2 <= usize::MAX,
            runtime.the_store().store_wf(),
            runtime.the_allocator().allocator_wf(),
            forall|s: u32| s < config.memory.max_slots ==> #[trigger] runtime.accepts_slot(SlotId(s)),
        ensures
            config.draft_window == 0 ==> r == Err::<Self, EngineError>(
                EngineError::Speculative(SpeculativeError::EmptyDraftWindow),
            ),
            config.draft_window > 0 ==> {
                &&& r is Ok
                &&& engine_wf(r->Ok_0)
                &&& engine_backed(r->Ok_0)
                &&& r->Ok_0.memory() == runtime
                &&& r->Ok_0.slots()@ == crate::slot_manager::fresh_slots(config.memory.max_slots)
                &&& r->Ok_0.slots().max() == config.memory.max_slots
                &&& r->Ok_0.decodes().window() == config.draft_window
                &&& r->Ok_0.decodes().limit() == config.draft_window * 2
                &&& radix_cache::handles_held(r->Ok_0.cached()@.entries) == 0
                &&& r->Ok_0.cached()@ == radix_cache::empty_cache()
                &&& r->Ok_0.factory() is None
            },
    {
        let decoder: SpeculativeDecoder = match SpeculativeDecoder::new(config.draft_window) {
            Ok(d) => d,
            Err(e) => {
                return Err(EngineError::from(e));
            },
        };
        let engine = VeloEngine {
            decoder,
            prefix_cache: RadixCache::new(),
            runtime,
            slot_pool: SlotPool::new(config.memory.max_slots),
            parser_factory: None,
        };
        proof {
            let e = engine.cached()@.entries;
            assert(e.drop_last() =~= Seq::empty());
            assert(radix_cache::handles_held(e.drop_last()) == 0);
        }
        Ok(engine)
    }

    pub fn decoder(&self) -> (d: &SpeculativeDecoder)
        ensures
            *d == self.decodes(),
    {
        &self.decoder
    }

    pub fn slot_pool_capacity(&self) -> (n: usize)
        ensures
            n == self.slots().max(),
    {
        self.slot_pool.capacity()
    }

    pub fn allocate_slot(&mut self) -> (slot: Option<SlotId>)
        ensures
            final(self).cached() == old(self).cached(),
            final(self).memory() == old(self).memory(),
            final(self).decodes() == old(self).decodes(),
            final(self).factory() == old(self).factory(),
            final(self).slots().max() == old(self).slots().max(),
            old(self).slots().in_range() ==> final(self).slots().in_range(),
            old(self).slots()@.len() == 0 ==> slot is None && final(self).slots()@ == old(self).slots()@,
            old(self).slots()@.len() > 0 ==> slot == Some(SlotId(old(self).slots()@[0]))
                && final(self).slots()@ == old(self).slots()@.drop_first(),
    {
        self.slot_pool.allocate()
    }

    /// The slot must lie in the range of the pool.
    pub fn release_slot(&mut self, slot_id: SlotId)
        requires
            slot_id.0 < old(self).slots().max(),
        ensures
            final(self).cached() == old(self).cached(),
            final(self).memory() == old(self).memory(),
            final(self).decodes() == old(self).decodes(),
            final(self).factory() == old(self).factory(),
            final(self).slots().max() == old(self).slots().max(),
            old(self).slots().in_range() ==> final(self).slots().in_range(),
            final(self).slots()@ == old(self).slots()@.push(slot_id.0),
    {
        self.slot_pool.release(slot_id);
    }

    pub fn cache(&self) -> (c: &RadixCache)
        ensures
            *c == self.cached(),
    {
        &self.prefix_cache
    }

    pub fn cache_mut(&mut self) -> (c: &mut RadixCache)
        ensures
            *c == old(self).cached(),
            final(self).cached() == *final(c),
            final(self).memory() == old(self).memory(),
            final(self).slots() == old(self).slots(),
            final(self).decodes() == old(self).decodes(),
            final(self).factory() == old(self).factory(),
    {
        &mut self.prefix_cache
    }

    pub fn runtime(&self) -> (r: &R)
        ensures
            *r == self.memory(),
    {
        &self.runtime
    }

    pub fn runtime_mut(&mut self) -> (r: &mut R)
        ensures
            *r == old(self).memory(),
            final(self).memory() == *final(r),
            final(self).cached() == old(self).cached(),
            final(self).slots() == old(self).slots(),
            final(self).decodes() == old(self).decodes(),
            final(self).factory() == old(self).factory(),
    {
        &mut self.runtime
    }

    /// Caches a sequence: a block of the store with pages of its own becomes
    /// the handle on it, and the block that was cached for the same sequence
    /// before, if any, is given up.
    ///
    /// As long as what is cached is backed by memory, this succeeds exactly if
    /// the store and the allocator have room, and changes nothing if not.
    fn cache_sequence(&mut self, tokens: &[TokenId]) -> (r: Result<KvCacheHandle, EngineError>)
        requires
            engine_wf(*old(self)),
            engine_room(*old(self), 1, tokens@.len()),
        ensures
            engine_wf(*final(self)),
            same_service(*old(self), *final(self)),
            final(self).slots() == old(self).slots(),
            final(self).memory().page_table() == old(self).memory().page_table(),
            final(self).memory().the_store().numbers_left() + 1
                >= old(self).memory().the_store().numbers_left(),
            radix_cache::tokens_resident(final(self).cached()@.entries)
                <= radix_cache::tokens_resident(old(self).cached()@.entries) + tokens@.len(),
            !can_hold(old(self).memory(), tokens@.len()) ==> r is Err && r->Err_0 == memory_refusal(
                old(self).memory(),
                tokens@.len(),
            ) && final(self).cached() == old(self).cached() && memory_kept(
                old(self).memory(),
                final(self).memory(),
            ),
            can_hold(old(self).memory(), tokens@.len()) && r is Err ==> exists|h: KvCacheHandle|
                #[trigger] stuck(*old(self), tokens@, h, *final(self), r->Err_0),
            r is Ok ==> r->Ok_0.token_len == tokens@.len() && final(self).cached()@
                == inserted(old(self).cached()@, tokens@, r->Ok_0),
            r is Ok ==> !old(self).memory().the_store().held().contains_key(r->Ok_0.block_id)
                && reblocked(
                old(self).memory().the_store().held(),
                radix_cache::handle_on(old(self).cached()@.entries, tokens@),
                r->Ok_0,
                final(self).memory().the_store().held(),
            ) && repaged(
                old(self).memory().the_allocator().pages_of(),
                radix_cache::handle_on(old(self).cached()@.entries, tokens@),
                r->Ok_0,
                final(self).memory().the_allocator().pages_of(),
            ),
            r is Ok && radix_cache::handle_on(old(self).cached()@.entries, tokens@) is None
                ==> final(self).memory().the_allocator().pages_free()
                == old(self).memory().the_allocator().pages_free()
                - old(self).memory().the_allocator().pages_for(tokens@.len() as usize),
            forall|n: usize| #[trigger]
                final(self).memory().the_allocator().pages_for(n)
                    == old(self).memory().the_allocator().pages_for(n),
            forall|count: nat, longest: nat| #[trigger]
                ample(*old(self), count, longest) && engine_backed(*old(self)) && count > 0 && 0
                    < tokens@.len() <= longest ==> r is Ok && ample(
                    *final(self),
                    (count - 1) as nat,
                    longest,
                ),
            engine_backed(*old(self)) ==> {
                &&& engine_backed(*final(self))
                &&& r is Ok <==> can_hold(old(self).memory(), tokens@.len())
                &&& r is Ok ==> final(self).memory().the_allocator().pages_of().contains_key(
                    r->Ok_0.block_id,
                )
            },
    {
        let handle: KvCacheHandle = match self.runtime.store_mut().allocate(tokens.len()) {
            Ok(h) => h,
            Err(e) => {
                return Err(EngineError::from(e));
            },
        };
        match self.runtime.allocator_mut().allocate(handle, tokens.len()) {
            Ok(_) => {},
            Err(error) => {
                match self.runtime.store_mut().release(handle) {
                    Ok(_) => {},
                    Err(e) => {
                        return Err(EngineError::from(e));
                    },
                }
                assert(self.memory().the_store().held() =~= old(self).memory().the_store().held());
                return Err(EngineError::from(error));
            },
        }
        proof {
            radix_cache::wf_is_sound(self.prefix_cache);
            if engine_backed(*old(self)) {
                lemma_insertion_stays_backed(
                    self.prefix_cache@,
                    old(self).memory().the_store().held(),
                    old(self).memory().the_allocator().pages_of(),
                    tokens@,
                    handle,
                    self.memory().the_allocator().pages_of()[handle.block_id],
                );
            }
        }
        proof {
            let c = self.prefix_cache@;
            radix_cache::insertion_bounds_residency(
                c.entries,
                tokens@,
                handle,
                radix_cache::tick_after(c.clock),
                c.capacity,
            );
        }
        let done: CacheInsert = self.prefix_cache.insert(tokens, handle);
        match done.replaced {
            Some(replaced) => {
                match self.runtime.store_mut().release(replaced) {
                    Ok(_) => {},
                    Err(e) => {
                        let error: EngineError = EngineError::from(e);
                        assert(stuck(*old(self), tokens@, handle, *self, error));
                        return Err(error);
                    },
                }
                match self.runtime.allocator_mut().release(replaced) {
                    Ok(_) => {},
                    Err(e) => {
                        let error: EngineError = EngineError::from(e);
                        assert(stuck(*old(self), tokens@, handle, *self, error));
                        return Err(error);
                    },
                }
            },
            None => {},
        }
        proof {
            assert forall|count: nat, longest: nat| #[trigger]
                ample(*old(self), count, longest) && engine_backed(*old(self)) && count > 0 && 0
                    < tokens@.len() <= longest implies ample(
                *self,
                (count - 1) as nat,
                longest,
            ) by {
                let a = choose|k: nat|
                    k >= count && #[trigger] old(self).memory().the_store().takes(k, longest);
                let b = choose|k: nat|
                    k >= count && #[trigger] old(self).memory().the_allocator().maps(k, longest);
                assert(self.memory().the_store().takes((a - 1) as nat, longest));
                assert(self.memory().the_allocator().maps((b - 1) as nat, longest));
            }
        }
        Ok(handle)
    }
}

impl<R: MemoryRuntime> VeloEngine<R> {
    /// The pages of a handle, if it has any.
    fn span_of(&self, handle: Option<KvCacheHandle>) -> (span: Option<PageSpan>)
        requires
            engine_wf(*self),
        ensures
            spans(self.memory().the_allocator().pages_of(), handle, span),
    {
        match handle {
            Some(h) => self.runtime.allocator().materialize_span(h),
            None => None,
        }
    }

    /// Looks a prompt up in the cache, and caches it as a whole unless it is
    /// empty or already cached.
    pub fn prefill(&mut self, prompt: &[TokenId]) -> (r: Result<EnginePrefillOutput, EngineError>)
        requires
            engine_wf(*old(self)),
            engine_room(*old(self), 1, prompt@.len()),
        ensures
            engine_wf(*final(self)),
            same_service(*old(self), *final(self)),
            final(self).slots() == old(self).slots(),
            final(self).memory().page_table() == old(self).memory().page_table(),
            final(self).memory().the_store().numbers_left() + 1
                >= old(self).memory().the_store().numbers_left(),
            radix_cache::tokens_resident(final(self).cached()@.entries)
                <= radix_cache::tokens_resident(old(self).cached()@.entries) + prompt@.len(),
            r is Ok ==> prefilled(
                old(self).cached()@,
                final(self).cached()@,
                final(self).memory().the_allocator().pages_of(),
                prompt@,
                r->Ok_0,
            ),
            r is Ok <==> !wants_block(old(self).cached()@, prompt@) || can_hold(
                old(self).memory(),
                prompt@.len(),
            ),
            forall|n: usize| #[trigger]
                final(self).memory().the_allocator().pages_for(n)
                    == old(self).memory().the_allocator().pages_for(n),
            forall|count: nat, longest: nat| #[trigger]
                ample(*old(self), count, longest) && engine_backed(*old(self)) && count > 0
                    && prompt@.len() <= longest ==> r is Ok && ample(
                    *final(self),
                    (count - 1) as nat,
                    longest,
                ),
            r is Ok ==> final(self).memory().the_allocator().pages_free()
                == old(self).memory().the_allocator().pages_free() - (if wants_block(
                old(self).cached()@,
                prompt@,
            ) {
                old(self).memory().the_allocator().pages_for(prompt@.len() as usize)
            } else {
                0
            }),
            engine_backed(*old(self)) ==> {
                &&& engine_backed(*final(self))
                &&& r is Ok && wants_block(old(self).cached()@, prompt@)
                    ==> r->Ok_0.inserted_pages is Some
                &&& r is Ok && r->Ok_0.cached_prefix.handle is Some ==> r->Ok_0.cached_pages is Some
            },
            r is Ok ==> stocked(old(self).memory(), r->Ok_0, final(self).memory()),
            r is Err ==> prefill_failed(*old(self), prompt@, *final(self), r->Err_0),
    {
        let ghost before = self.prefix_cache@;
        let cached_prefix: CacheLookup = self.prefix_cache.lookup(prompt);
        proof {
            radix_cache::wf_is_sound(old(self).prefix_cache);
            radix_cache::lookup_keeps_handles(
                before.entries,
                prompt@,
                radix_cache::tick_after(before.clock),
            );
            radix_cache::lookup_finds_the_longest_prefix(
                before.entries,
                prompt@,
                prompt@.len(),
                prompt@.len(),
            );
            lemma_backed_by_handles(
                before.entries,
                self.prefix_cache@.entries,
                self.memory().the_store().held(),
                self.memory().the_allocator().pages_of(),
            );
        }
        proof {
            assert(prompt@.take(prompt@.len() as int) =~= prompt@);
            if engine_backed(*old(self)) && cached_prefix.handle is Some {
                lemma_cached_handle_has_pages(
                    before.entries,
                    self.memory().the_store().held(),
                    self.memory().the_allocator().pages_of(),
                    prompt@.take(cached_prefix.matched_tokens as int),
                );
            }
        }
        let ghost mid = *self;
        let inserted_handle: Option<KvCacheHandle> = if prompt.len() > 0
            && cached_prefix.matched_tokens < prompt.len() {
            let stored: Result<KvCacheHandle, EngineError> = self.cache_sequence(prompt);
            proof {
                assert forall|count: nat, longest: nat| #[trigger]
                    ample(*old(self), count, longest) && engine_backed(*old(self)) && count > 0
                        && prompt@.len() <= longest implies stored is Ok && ample(
                    *self,
                    (count - 1) as nat,
                    longest,
                ) by {
                    assert(ample(mid, count, longest));
                }
            }
            match stored {
                Ok(h) => Some(h),
                Err(e) => {
                    return Err(e);
                },
            }
        } else {
            proof {
                assert forall|count: nat, longest: nat| #[trigger]
                    ample(*old(self), count, longest) && count > 0 implies ample(
                    *self,
                    (count - 1) as nat,
                    longest,
                ) by {
                    assert(self.memory() == old(self).memory());
                }
            }
            None
        };
        let cached_pages: Option<PageSpan> = self.span_of(cached_prefix.handle);
        let inserted_pages: Option<PageSpan> = self.span_of(inserted_handle);
        Ok(
            EnginePrefillOutput {
                cached_prefix,
                cached_pages,
                inserted_handle,
                inserted_pages,
                stats: EngineStats {
                    cache_hit_tokens: cached_prefix.matched_tokens,
                    cache_miss_tokens: prompt.len() - cached_prefix.matched_tokens,
                    speculative: SpeculativeStats::default(),
                },
            },
        )
    }
}

// ---------------------------------------------------------------------------
// Batches
// ---------------------------------------------------------------------------

/// Whether the rounds are such that a request for at most `max` tokens in a
/// batch may consist of them: each starts while tokens are still wanted, its draft
/// is answered in full, and it does not lead past the tokens that are wanted.
pub open spec fn batch_rounds(
    s: speculative::SessionModel,
    max: nat,
    drafts: Seq<Seq<TokenId>>,
    answers: Seq<Seq<TokenId>>,
) -> bool
    decreases drafts.len(),
{
    &&& drafts.len() == answers.len()
    &&& drafts.len() > 0 ==> {
        let before = speculative::play(s, drafts.drop_last(), answers.drop_last());
        &&& batch_rounds(s, max, drafts.drop_last(), answers.drop_last())
        &&& drafts.last().len() == answers.last().len()
        &&& before.context.len() - s.context.len() < max
        &&& speculative::play(s, drafts, answers).context.len() - s.context.len() <= max
    }
}

/// Whether a session and the tokens generated by it are where some rounds lead
/// to. A request finishes early after a round without any draft.
pub open spec fn led_to(
    s: speculative::SessionModel,
    max: nat,
    now: speculative::SessionModel,
    generated: Seq<TokenId>,
    finished: bool,
    drafts: Seq<Seq<TokenId>>,
    answers: Seq<Seq<TokenId>>,
) -> bool {
    &&& batch_rounds(s, max, drafts, answers)
    &&& now == speculative::play(s, drafts, answers)
    &&& now.context == s.context + generated
    &&& generated.len() <= max
    &&& finished ==> drafts.len() > 0 && drafts.last().len() == 0
}

/// Whether a request stands where some rounds from its prompt lead to.
pub open spec fn on_track(decoder: SpeculativeDecoder, req: ActiveRequest) -> bool {
    exists|drafts: Seq<Seq<TokenId>>, answers: Seq<Seq<TokenId>>| #[trigger]
        led_to(
            decoder.fresh(req.session@.prompt),
            req.max_new_tokens as nat,
            req.session@,
            req.generated@,
            req.finished,
            drafts,
            answers,
        )
}

/// Whether a request still wants tokens.
pub open spec fn working(req: ActiveRequest) -> bool {
    !req.finished && req.generated@.len() < req.max_new_tokens
}

/// Whether two states belong to the same request.
pub open spec fn same_request(a: ActiveRequest, b: ActiveRequest) -> bool {
    &&& a.slot_id == b.slot_id
    &&& a.max_new_tokens == b.max_new_tokens
    &&& a.prefill == b.prefill
    &&& a.session@.prompt == b.session@.prompt
}

/// The tokens that the requests still want at most.
pub open spec fn work_left(active: Seq<ActiveRequest>) -> nat
    decreases active.len(),
{
    if active.len() == 0 {
        0
    } else {
        work_left(active.drop_last()) + if working(active.last()) {
            (active.last().max_new_tokens - active.last().generated@.len()) as nat
        } else {
            0
        }
    }
}

/// The tokens that a request still wants at most.
pub open spec fn weight(req: ActiveRequest) -> nat {
    if working(req) {
        (req.max_new_tokens - req.generated@.len()) as nat
    } else {
        0
    }
}

proof fn lemma_work_shrinks(a: Seq<ActiveRequest>, b: Seq<ActiveRequest>, k: int)
    requires
        a.len() == b.len(),
        0 <= k < a.len(),
        forall|i: int| 0 <= i < a.len() ==> weight(#[trigger] b[i]) <= weight(a[i]),
        weight(b[k]) < weight(a[k]),
    ensures
        work_left(b) < work_left(a),
    decreases a.len(),
{
    let la = a.drop_last();
    let lb = b.drop_last();
    assert(weight(b[b.len() - 1]) <= weight(a[a.len() - 1]));
    if k == a.len() - 1 {
        lemma_work_falls(la, lb);
    } else {
        assert forall|i: int| 0 <= i < la.len() implies weight(#[trigger] lb[i]) <= weight(la[i]) by {
            assert(weight(b[i]) <= weight(a[i]));
        }
        lemma_work_shrinks(la, lb, k);
    }
}

proof fn lemma_work_falls(a: Seq<ActiveRequest>, b: Seq<ActiveRequest>)
    requires
        a.len() <= b.len(),
        a.len() == b.len(),
        forall|i: int| 0 <= i < a.len() ==> weight(#[trigger] b[i]) <= weight(a[i]),
    ensures
        work_left(b) <= work_left(a),
    decreases a.len(),
{
    if a.len() > 0 {
        let la = a.drop_last();
        let lb = b.drop_last();
        assert(weight(b[b.len() - 1]) <= weight(a[a.len() - 1]));
        assert forall|i: int| 0 <= i < la.len() implies weight(#[trigger] lb[i]) <= weight(la[i]) by {
            assert(weight(b[i]) <= weight(a[i]));
        }
        lemma_work_falls(la, lb);
    }
}

/// What is wrong with a draft for a request and the answer to it, if anything: the
/// answer has another length than the draft, or the request would come to more
/// tokens than it wants, which takes a draft that is longer than asked for.
pub open spec fn round_fault(
    req: ActiveRequest,
    window: usize,
    drafted: Seq<NextTokenPrediction>,
    verified: Seq<VerifyStep>,
) -> Option<SpeculativeError> {
    let d = speculative::tokens_of(drafted);
    let e = speculative::steps_of(verified);
    if verified.len() != drafted.len() {
        Some(
            SpeculativeError::TargetReturnedWrongLength {
                drafted: drafted.len() as usize,
                returned: verified.len() as usize,
            },
        )
    } else if req.generated@.len() + speculative::gained(d, e).len() > req.max_new_tokens {
        Some(
            SpeculativeError::DraftReturnedTooMany {
                requested: wanted(req, window),
                returned: drafted.len() as usize,
            },
        )
    } else {
        None
    }
}

/// A request whose drafts are no longer than asked for does not come to more
/// tokens than it wants.
pub proof fn drafts_as_asked_for_fit(
    req: ActiveRequest,
    window: usize,
    drafted: Seq<NextTokenPrediction>,
    verified: Seq<VerifyStep>,
)
    requires
        working(req),
        drafted.len() <= wanted(req, window),
        drafted.len() == verified.len(),
    ensures
        round_fault(req, window, drafted, verified) is None,
{
    speculative::lemma_gained_len(
        speculative::tokens_of(drafted),
        speculative::steps_of(verified),
    );
}

/// Works a round into one request. A round without any draft finishes it. A draft
/// that is longer than asked for is taken over as far as the target model agrees
/// with it, unless the request would then come to more tokens than it wants.
pub fn settle_request(
    decoder: &SpeculativeDecoder,
    req: &mut ActiveRequest,
    drafted: &Vec<NextTokenPrediction>,
    verified: &Vec<VerifyStep>,
) -> (r: Result<(), EngineError>)
    requires
        on_track(*decoder, *old(req)),
        working(*old(req)),
    ensures
        same_request(*old(req), *final(req)),
        match round_fault(*old(req), decoder.window(), drafted@, verified@) {
            None => r is Ok,
            Some(e) => r == Err::<(), EngineError>(EngineError::Speculative(e)),
        },
        r is Ok ==> on_track(*decoder, *final(req)) && weight(*final(req)) < weight(*old(req)),
        r is Ok ==> {
            let d = speculative::tokens_of(drafted@);
            let e = speculative::steps_of(verified@);
            &&& final(req).session@ == (speculative::SessionModel {
                rejected: None,
                ..speculative::played(old(req).session@, d, e)
            })
            &&& final(req).generated@ == old(req).generated@ + speculative::gained(d, e)
            &&& final(req).finished == (drafted@.len() == 0)
            &&& final(req).matcher == old(req).matcher
        },
{
    let ghost before = *req;
    let ghost d = speculative::tokens_of(drafted@);
    let ghost e = speculative::steps_of(verified@);
    let ghost start = decoder.fresh(req.session@.prompt);
    let ghost (drafts, answers) = choose|drafts: Seq<Seq<TokenId>>, answers: Seq<Seq<TokenId>>|
        #[trigger] led_to(
            start,
            before.max_new_tokens as nat,
            before.session@,
            before.generated@,
            before.finished,
            drafts,
            answers,
        );
    let remaining: usize = req.max_new_tokens - req.generated.len();
    req.session.record_draft_call();
    req.session.record_target_call();
    let accepted: Vec<TokenId> = match req.session.commit(drafted, verified) {
        Ok(a) => a,
        Err(e) => {
            return Err(EngineError::from(e));
        },
    };
    proof {
        speculative::lemma_agreement(d, e);
    }
    append_tokens(&mut req.generated, &accepted);
    match req.session.take_rejected_token() {
        Some(token) => {
            req.generated.push(token);
        },
        None => {},
    }
    assert(req.generated@ =~= before.generated@ + speculative::gained(d, e));
    if req.generated.len() > req.max_new_tokens {
        let window: usize = decoder.draft_window();
        let requested: usize = if remaining < window {
            remaining
        } else {
            window
        };
        return Err(
            EngineError::Speculative(
                SpeculativeError::DraftReturnedTooMany { requested, returned: drafted.len() },
            ),
        );
    }
    if drafted.len() == 0 {
        req.finished = true;
    }
    proof {
        let drafts1 = drafts.push(d);
        let answers1 = answers.push(e);
        assert(drafts1.drop_last() =~= drafts);
        assert(answers1.drop_last() =~= answers);
        assert(speculative::play(start, drafts1, answers1).context =~= start.context
            + req.generated@);
        assert(req.session@ == speculative::play(start, drafts1, answers1));
        assert(led_to(
            start,
            req.max_new_tokens as nat,
            req.session@,
            req.generated@,
            req.finished,
            drafts1,
            answers1,
        ));
        if drafted@.len() > 0 {
            speculative::rounds_make_progress(d, e);
        }
    }
    Ok(())
}

/// The places of those among the first `n` requests that still want tokens, in
/// ascending order.
pub open spec fn working_at(active: Seq<ActiveRequest>, n: nat) -> Seq<usize>
    decreases n,
{
    if n == 0 {
        Seq::empty()
    } else {
        let rest = working_at(active, (n - 1) as nat);
        if working(active[n - 1]) {
            rest.push((n - 1) as usize)
        } else {
            rest
        }
    }
}

/// Both models and the requests of a batch at one moment.
pub struct Moment<D, T> {
    pub draft: D,
    pub target: T,
    pub active: Seq<ActiveRequest>,
}

/// What the draft model is asked for in a round.
pub open spec fn drafts_wanted(active: Seq<ActiveRequest>, window: usize) -> Seq<DraftAsk> {
    let who = working_at(active, active.len());
    Seq::new(
        who.len(),
        |k: int|
            DraftAsk {
                context: active[who[k] as int].session@.context,
                max_tokens: wanted(active[who[k] as int], window),
                fed: speculative::fed_with(active[who[k] as int].matcher),
            },
    )
}

/// What the target model is asked for in a round with the given drafts.
pub open spec fn verdicts_wanted(
    active: Seq<ActiveRequest>,
    drafts: Seq<Vec<NextTokenPrediction>>,
) -> Seq<VerifyAsk> {
    let who = working_at(active, active.len());
    Seq::new(
        who.len(),
        |k: int|
            VerifyAsk {
                context: active[who[k] as int].session@.context,
                drafted: speculative::tokens_of(drafts[k]@),
                fed: speculative::fed_with(active[who[k] as int].matcher),
            },
    )
}

/// What a draft and the verdict on it make of a request.
pub open spec fn request_settled(
    before: ActiveRequest,
    after: ActiveRequest,
    drafted: Seq<NextTokenPrediction>,
    verified: Seq<VerifyStep>,
) -> bool {
    let d = speculative::tokens_of(drafted);
    let e = speculative::steps_of(verified);
    &&& same_request(before, after)
    &&& verified.len() == drafted.len()
    &&& after.session@ == (speculative::SessionModel {
        rejected: None,
        ..speculative::played(before.session@, d, e)
    })
    &&& after.generated@ == before.generated@ + speculative::gained(d, e)
    &&& after.generated@.len() <= after.max_new_tokens
    &&& after.finished == (drafted.len() == 0)
}

/// Whether a round took its drafts and verdicts over: each request that still
/// wanted tokens is settled, with the matcher as the target model left it, and
/// the others are as they were.
pub open spec fn round_settled(
    before: Seq<ActiveRequest>,
    after: Seq<ActiveRequest>,
    drafts: Seq<Vec<NextTokenPrediction>>,
    answers: Seq<Vec<VerifyStep>>,
    left: Seq<VerifyAsk>,
) -> bool {
    let who = working_at(before, before.len());
    &&& after.len() == before.len()
    &&& drafts.len() == who.len()
    &&& answers.len() == who.len()
    &&& left.len() == who.len()
    &&& forall|k: int|
        0 <= k < who.len() ==> request_settled(
            before[#[trigger] who[k] as int],
            after[who[k] as int],
            drafts[k]@,
            answers[k]@,
        ) && speculative::fed_with(after[who[k] as int].matcher) == left[k].fed
    &&& forall|i: int|
        0 <= i < before.len() && !working(#[trigger] before[i]) ==> after[i] == before[i]
}

/// Whether the draft model may answer the questions of a round so.
pub open spec fn drafts_made<D: DraftModel>(
    before: D,
    active: Seq<ActiveRequest>,
    window: usize,
    after: D,
    r: Result<Vec<Vec<NextTokenPrediction>>, SpeculativeError>,
) -> bool {
    exists|left: Seq<DraftAsk>| #[trigger]
        speculative::drafted_batch(before, drafts_wanted(active, window), after, left, r)
}

/// Whether the target model may answer the given drafts so.
pub open spec fn verdicts_made<T: TargetModel>(
    before: T,
    active: Seq<ActiveRequest>,
    drafts: Seq<Vec<NextTokenPrediction>>,
    after: T,
    left: Seq<VerifyAsk>,
    r: Result<Vec<Vec<VerifyStep>>, SpeculativeError>,
) -> bool {
    speculative::verified_batch(before, verdicts_wanted(active, drafts), after, left, r)
}

/// Whether a round took both models and the requests from one moment to the
/// next: the draft model proposed for all requests that still want tokens, the
/// target model answered all of them, and each took the outcome over.
pub open spec fn round_made<D: DraftModel, T: TargetModel>(
    window: usize,
    before: Moment<D, T>,
    after: Moment<D, T>,
) -> bool {
    exists|
        drafts: Vec<Vec<NextTokenPrediction>>,
        answers: Vec<Vec<VerifyStep>>,
        left: Seq<VerifyAsk>,
    | #[trigger]
        round_made_by(window, before, after, drafts, answers, left)
}

pub open spec fn round_made_by<D: DraftModel, T: TargetModel>(
    window: usize,
    before: Moment<D, T>,
    after: Moment<D, T>,
    drafts: Vec<Vec<NextTokenPrediction>>,
    answers: Vec<Vec<VerifyStep>>,
    left: Seq<VerifyAsk>,
) -> bool {
    &&& drafts_made(before.draft, before.active, window, after.draft, Ok(drafts))
    &&& verdicts_made(
        before.target,
        before.active,
        drafts@,
        after.target,
        left,
        Ok(answers),
    )
    &&& round_settled(before.active, after.active, drafts@, answers@, left)
}

/// Whether a round failed with `e`, and left both models so: a model failed, the
/// target model answered with the wrong number of steps, or a request would have
/// come to more tokens than it wants.
pub open spec fn round_failed<D: DraftModel, T: TargetModel>(
    window: usize,
    before: Moment<D, T>,
    draft: D,
    target: T,
    e: EngineError,
) -> bool {
    ||| e is Speculative && target == before.target && drafts_made(
        before.draft,
        before.active,
        window,
        draft,
        Err(e->Speculative_0),
    )
    ||| exists|drafts: Vec<Vec<NextTokenPrediction>>| #[trigger]
        verdicts_failed(before.target, before.active, window, drafts, target, e) && drafts_made(
            before.draft,
            before.active,
            window,
            draft,
            Ok(drafts),
        )
}

/// Whether a round with the given drafts failed with `e`, and left the target
/// model so.
pub open spec fn verdicts_failed<T: TargetModel>(
    before: T,
    active: Seq<ActiveRequest>,
    window: usize,
    drafts: Vec<Vec<NextTokenPrediction>>,
    after: T,
    e: EngineError,
) -> bool {
    ||| e is Speculative && exists|left: Seq<VerifyAsk>| #[trigger]
        verdicts_made(before, active, drafts@, after, left, Err(e->Speculative_0))
    ||| exists|left: Seq<VerifyAsk>, answers: Vec<Vec<VerifyStep>>| #[trigger]
        verdicts_made(before, active, drafts@, after, left, Ok(answers)) && some_fault(
            active,
            window,
            drafts@,
            answers@,
            e,
        )
}

/// Whether `e` is the fault of the first request of a round whose draft and answer
/// have one.
pub open spec fn some_fault(
    active: Seq<ActiveRequest>,
    window: usize,
    drafts: Seq<Vec<NextTokenPrediction>>,
    answers: Seq<Vec<VerifyStep>>,
    e: EngineError,
) -> bool {
    let who = working_at(active, active.len());
    e is Speculative && exists|k: int|
        0 <= k < who.len() && round_fault(
            active[#[trigger] who[k] as int],
            window,
            drafts[k]@,
            answers[k]@,
        ) == Some(e->Speculative_0) && forall|j: int|
            0 <= j < k ==> round_fault(
                active[#[trigger] who[j] as int],
                window,
                drafts[j]@,
                answers[j]@,
            ) is None
}

proof fn lemma_round_failed<D: DraftModel, T: TargetModel>(
    window: usize,
    before: Moment<D, T>,
    draft: D,
    target: T,
    drafts: Vec<Vec<NextTokenPrediction>>,
    e: EngineError,
)
    requires
        drafts_made(before.draft, before.active, window, draft, Ok(drafts)),
        verdicts_failed(before.target, before.active, window, drafts, target, e),
    ensures
        round_failed(window, before, draft, target, e),
{
}

/// The places of the requests that still want tokens: each once, in order.
pub proof fn lemma_working_at(active: Seq<ActiveRequest>, n: nat)
    requires
        n <= active.len() <= usize::MAX,
    ensures
        ({
            let who = working_at(active, n);
            &&& forall|k: int|
                0 <= k < who.len() ==> #[trigger] who[k] < n && working(active[who[k] as int])
            &&& forall|a: int, b: int|
                0 <= a < b < who.len() ==> #[trigger] who[a] < #[trigger] who[b]
            &&& forall|i: int|
                0 <= i < n && working(#[trigger] active[i]) ==> who.contains(i as usize)
        }),
    decreases n,
{
    if n > 0 {
        lemma_working_at(active, (n - 1) as nat);
        let rest = working_at(active, (n - 1) as nat);
        let who = working_at(active, n);
        assert forall|i: int| 0 <= i < n && working(#[trigger] active[i]) implies who.contains(
            i as usize,
        ) by {
            if i < n - 1 {
                let a = rest.index_of(i as usize);
                assert(who[a] == i as usize);
            } else {
                assert(who[rest.len() as int] == i as usize);
            }
        }
    }
}

/// No more requests want tokens than there are.
pub proof fn lemma_working_at_most(active: Seq<ActiveRequest>, n: nat)
    ensures
        working_at(active, n).len() <= n,
    decreases n,
{
    if n > 0 {
        lemma_working_at_most(active, (n - 1) as nat);
    }
}

/// The places of the requests that still want tokens, in ascending order.
fn working_indices(active: &Vec<ActiveRequest>) -> (indices: Vec<usize>)
    ensures
        indices@ == working_at(active@, active@.len()),
        forall|k: int|
            0 <= k < indices@.len() ==> #[trigger] indices@[k] < active@.len() && working(
                active@[indices@[k] as int],
            ),
        forall|a: int, b: int|
            0 <= a < b < indices@.len() ==> #[trigger] indices@[a] < #[trigger] indices@[b],
        indices@.len() == 0 ==> forall|i: int| 0 <= i < active@.len() ==> !working(#[trigger] active@[i]),
{
    let mut indices: Vec<usize> = Vec::new();
    let mut i: usize = 0;
    while i < active.len()
        invariant
            i <= active@.len(),
            indices@ == working_at(active@, i as nat),
            forall|k: int|
                0 <= k < indices@.len() ==> #[trigger] indices@[k] < i && working(
                    active@[indices@[k] as int],
                ),
            forall|a: int, b: int|
                0 <= a < b < indices@.len() ==> #[trigger] indices@[a] < #[trigger] indices@[b],
            indices@.len() == 0 ==> forall|k: int| 0 <= k < i ==> !working(#[trigger] active@[k]),
        decreases active@.len() - i,
    {
        if !active[i].finished && active[i].generated.len() < active[i].max_new_tokens {
            indices.push(i);
        }
        i = i + 1;
    }
    indices
}

/// How many tokens the draft model is asked for: as many as are still wanted,
/// but not more than the window.
pub open spec fn wanted(req: ActiveRequest, window: usize) -> usize {
    if req.max_new_tokens - req.generated@.len() < window {
        (req.max_new_tokens - req.generated@.len()) as usize
    } else {
        window
    }
}

/// Whether two matchers, if they are there, are at the same point of the same
/// grammar.
pub open spec fn same_matcher(a: Option<LlguidanceMatcher>, b: Option<LlguidanceMatcher>) -> bool {
    match a {
        Some(m) => b is Some && b->0.guided() == m.guided() && b->0.grammar() == m.grammar(),
        None => b is None,
    }
}

/// Whether a draft is asked for what a request has so far, with a copy of its
/// matcher.
pub open spec fn drafts_for(
    req: ActiveRequest,
    window: usize,
    d: DraftRequest<LlguidanceMatcher>,
) -> bool {
    &&& d.context@ == req.session@.context
    &&& d.max_tokens == wanted(req, window)
    &&& same_matcher(req.matcher, d.matcher)
}

/// What the draft model is asked for in a round: the requests with the given
/// indices, in order.
pub fn draft_requests(active: &Vec<ActiveRequest>, indices: &Vec<usize>, window: usize) -> (requests:
    Vec<DraftRequest<LlguidanceMatcher>>)
    requires
        forall|k: int|
            0 <= k < indices@.len() ==> #[trigger] indices@[k] < active@.len() && working(
                active@[indices@[k] as int],
            ),
    ensures
        requests@.len() == indices@.len(),
        forall|k: int|
            0 <= k < indices@.len() ==> drafts_for(
                active@[indices@[k] as int],
                window,
                #[trigger] requests@[k],
            ),
{
    let mut requests: Vec<DraftRequest<LlguidanceMatcher>> = Vec::with_capacity(indices.len());
    let mut k: usize = 0;
    while k < indices.len()
        invariant
            k <= indices@.len(),
            requests@.len() == k,
            forall|k: int|
                0 <= k < indices@.len() ==> #[trigger] indices@[k] < active@.len() && working(
                    active@[indices@[k] as int],
                ),
            forall|j: int|
                0 <= j < k ==> drafts_for(
                    active@[indices@[j] as int],
                    window,
                    #[trigger] requests@[j],
                ),
        decreases indices@.len() - k,
    {
        let at: usize = indices[k];
        let remaining: usize = active[at].max_new_tokens - active[at].generated.len();
        let max_tokens: usize = if remaining < window {
            remaining
        } else {
            window
        };
        let matcher: Option<LlguidanceMatcher> = match &active[at].matcher {
            Some(m) => Some(*m.clone_box()),
            None => None,
        };
        requests.push(
            DraftRequest { context: copied(active[at].session.context()), max_tokens, matcher },
        );
        k = k + 1;
    }
    requests
}

/// Whether an answer is asked for to a draft, after what a request has so far
/// and with its matcher.
pub open spec fn verifies_for(
    req: ActiveRequest,
    drafted: Seq<NextTokenPrediction>,
    v: VerifyRequest<LlguidanceMatcher>,
) -> bool {
    &&& v.context@ == req.session@.context
    &&& v.drafted@ == speculative::tokens_of(drafted)
    &&& v.matcher == req.matcher
}

/// What the target model is asked for in a round, in the same order. The matchers
/// go with the requests.
pub fn verify_requests(
    active: &mut Vec<ActiveRequest>,
    indices: &Vec<usize>,
    drafts: &Vec<Vec<NextTokenPrediction>>,
) -> (requests: Vec<VerifyRequest<LlguidanceMatcher>>)
    requires
        drafts@.len() == indices@.len(),
        forall|k: int| 0 <= k < indices@.len() ==> #[trigger] indices@[k] < old(active)@.len(),
        forall|a: int, b: int|
            0 <= a < b < indices@.len() ==> #[trigger] indices@[a] < #[trigger] indices@[b],
    ensures
        final(active)@.len() == old(active)@.len(),
        forall|i: int|
            0 <= i < old(active)@.len() ==> same_progress(
                old(active)@[i],
                #[trigger] final(active)@[i],
            ),
        forall|i: int|
            0 <= i < old(active)@.len() && !indices@.contains(i as usize)
                ==> #[trigger] final(active)@[i] == old(active)@[i],
        requests@.len() == indices@.len(),
        forall|k: int|
            0 <= k < indices@.len() ==> verifies_for(
                old(active)@[indices@[k] as int],
                drafts@[k]@,
                #[trigger] requests@[k],
            ),
{
    let ghost start = active@;
    let n: usize = indices.len();
    let mut requests: Vec<VerifyRequest<LlguidanceMatcher>> = Vec::with_capacity(n);
    let mut k: usize = 0;
    while k < n
        invariant
            k <= n,
            n == indices@.len(),
            start == old(active)@,
            drafts@.len() == n,
            active@.len() == start.len(),
            requests@.len() == k,
            forall|k: int| 0 <= k < indices@.len() ==> #[trigger] indices@[k] < start.len(),
            forall|a: int, b: int|
                0 <= a < b < indices@.len() ==> #[trigger] indices@[a] < #[trigger] indices@[b],
            forall|i: int|
                0 <= i < start.len() ==> same_progress(start[i], #[trigger] active@[i]),
            forall|i: int|
                0 <= i < start.len() && !indices@.contains(i as usize) ==> #[trigger] active@[i]
                    == start[i],
            forall|j: int|
                k <= j < n ==> active@[#[trigger] indices@[j] as int]
                    == start[indices@[j] as int],
            forall|j: int|
                0 <= j < k ==> verifies_for(
                    start[indices@[j] as int],
                    drafts@[j]@,
                    #[trigger] requests@[j],
                ),
        decreases n - k,
    {
        let at: usize = indices[k];
        let ghost before = active@;
        assert(active@[indices@[k as int] as int] == start[at as int]);
        let context: Vec<TokenId> = copied(active[at].session.context());
        let matcher: Option<LlguidanceMatcher> = active[at].matcher.take();
        proof {
            assert(indices@.contains(at)) by {
                assert(indices@[k as int] == at);
            }
            assert forall|i: int| 0 <= i < start.len() implies same_progress(
                start[i],
                #[trigger] active@[i],
            ) by {
                assert(same_progress(start[i], before[i]));
            }
            assert forall|j: int| k < j < n implies active@[#[trigger] indices@[j] as int]
                == start[indices@[j] as int] by {
                assert(indices@[k as int] < indices@[j]);
                assert(before[indices@[j] as int] == start[indices@[j] as int]);
            }
        }
        requests.push(
            VerifyRequest { context, drafted: predicted_tokens(&drafts[k]), matcher },
        );
        k = k + 1;
    }
    requests
}

/// Asks the draft model for the drafts of a round. It works on copies of the
/// matchers.
fn propose<D: DraftModel>(
    draft_model: &mut D,
    active: &Vec<ActiveRequest>,
    indices: &Vec<usize>,
    window: usize,
) -> (r: Result<Vec<Vec<NextTokenPrediction>>, SpeculativeError>)
    requires
        indices@ == working_at(active@, active@.len()),
        forall|k: int|
            0 <= k < indices@.len() ==> #[trigger] indices@[k] < active@.len() && working(
                active@[indices@[k] as int],
            ),
    ensures
        r is Ok ==> r->Ok_0@.len() == indices@.len(),
        drafts_made(*old(draft_model), active@, window, *final(draft_model), r),
{
    let mut requests: Vec<DraftRequest<LlguidanceMatcher>> = draft_requests(
        active,
        indices,
        window,
    );
    let ghost asked = requests@;
    let r: Result<Vec<Vec<NextTokenPrediction>>, SpeculativeError> = draft_model.draft_batch(
        &mut requests,
    );
    proof {
        assert forall|k: int| 0 <= k < asked.len() implies speculative::draft_asks(asked)[k]
            == #[trigger] drafts_wanted(active@, window)[k] by {
            assert(drafts_for(active@[indices@[k] as int], window, asked[k]));
        }
        assert(speculative::draft_asks(asked) =~= drafts_wanted(active@, window));
        assert(speculative::drafted_batch(
            *old(draft_model),
            drafts_wanted(active@, window),
            *draft_model,
            speculative::draft_asks(requests@),
            r,
        ));
    }
    r
}

/// Takes the outcome of a round over, request by request. The matchers come back
/// with the requests. `start` is what the round started with.
#[verifier::rlimit(40)]
fn settle_round(
    decoder: &SpeculativeDecoder,
    active: &mut Vec<ActiveRequest>,
    indices: &Vec<usize>,
    drafts: &Vec<Vec<NextTokenPrediction>>,
    answers: &Vec<Vec<VerifyStep>>,
    requests: Vec<VerifyRequest<LlguidanceMatcher>>,
    Ghost(start): Ghost<Seq<ActiveRequest>>,
) -> (r: Result<(), EngineError>)
    requires
        indices@.len() > 0,
        indices@ == working_at(start, start.len()),
        start.len() == old(active)@.len(),
        drafts@.len() == indices@.len(),
        answers@.len() == indices@.len(),
        requests@.len() == indices@.len(),
        forall|i: int| 0 <= i < start.len() ==> on_track(*decoder, #[trigger] start[i]),
        forall|i: int|
            0 <= i < start.len() ==> same_progress(start[i], #[trigger] old(active)@[i]),
        forall|i: int|
            0 <= i < start.len() && !indices@.contains(i as usize) ==> #[trigger] old(active)@[i]
                == start[i],
    ensures
        final(active)@.len() == start.len(),
        forall|i: int| 0 <= i < start.len() ==> same_request(start[i], #[trigger] final(active)@[i]),
        r is Ok ==> {
            &&& work_left(final(active)@) < work_left(start)
            &&& forall|i: int| 0 <= i < start.len() ==> on_track(*decoder, #[trigger] final(active)@[i])
            &&& round_settled(
                start,
                final(active)@,
                drafts@,
                answers@,
                speculative::verify_asks(requests@),
            )
        },
        r is Err ==> some_fault(start, decoder.window(), drafts@, answers@, r->Err_0),
{
    let n: usize = indices.len();
    let total: usize = active.len();
    let mut requests: Vec<VerifyRequest<LlguidanceMatcher>> = requests;
    let ghost left = speculative::verify_asks(requests@);
    let ghost window = decoder.window();
    proof {
        lemma_working_at(start, active@.len() as nat);
        assert forall|i: int| 0 <= i < start.len() implies on_track(
            *decoder,
            #[trigger] active@[i],
        ) && weight(active@[i]) <= weight(start[i]) by {
            assert(same_progress(start[i], active@[i]));
            assert(on_track(*decoder, start[i]));
        }
    }
    let mut k: usize = 0;
    while k < n
        invariant
            k <= n,
            n == indices@.len(),
            n > 0,
            drafts@.len() == n,
            answers@.len() == n,
            requests@.len() == n,
            window == decoder.window(),
            active@.len() == start.len(),
            total == start.len(),
            forall|k: int|
                0 <= k < indices@.len() ==> #[trigger] indices@[k] < start.len() && working(
                    start[indices@[k] as int],
                ),
            forall|a: int, b: int|
                0 <= a < b < indices@.len() ==> #[trigger] indices@[a] < #[trigger] indices@[b],
            forall|j: int|
                0 <= j < k ==> round_fault(
                    start[#[trigger] indices@[j] as int],
                    window,
                    drafts@[j]@,
                    answers@[j]@,
                ) is None,
            forall|i: int| 0 <= i < start.len() ==> same_request(start[i], #[trigger] active@[i]),
            forall|i: int| 0 <= i < start.len() ==> on_track(*decoder, #[trigger] active@[i]),
            forall|i: int| 0 <= i < start.len() ==> weight(#[trigger] active@[i]) <= weight(start[i]),
            forall|j: int|
                k <= j < n ==> same_progress(
                    start[#[trigger] indices@[j] as int],
                    active@[indices@[j] as int],
                ),
            k > 0 ==> weight(active@[indices@[0] as int]) < weight(start[indices@[0] as int]),
            indices@ == working_at(start, start.len()),
            left.len() == n,
            forall|j: int|
                k <= j < n ==> speculative::fed_with((#[trigger] requests@[j]).matcher)
                    == left[j].fed,
            forall|j: int|
                0 <= j < k ==> request_settled(
                    start[#[trigger] indices@[j] as int],
                    active@[indices@[j] as int],
                    drafts@[j]@,
                    answers@[j]@,
                ) && speculative::fed_with(active@[indices@[j] as int].matcher) == left[j].fed,
            forall|i: int|
                0 <= i < start.len() && !indices@.contains(i as usize) ==> #[trigger] active@[i]
                    == start[i],
        decreases n - k,
    {
        let at: usize = indices[k];
        let ghost before = active@;
        assert(same_progress(start[at as int], active@[at as int]));
        active[at].matcher = requests[k].matcher.take();
        let ghost given_back = active@;
        assert(same_progress(before[at as int], given_back[at as int]));
        assert(on_track(*decoder, before[at as int]));
        let ghost fault = round_fault(
            start[at as int],
            window,
            drafts@[k as int]@,
            answers@[k as int]@,
        );
        match settle_request(decoder, &mut active[at], &drafts[k], &answers[k]) {
            Ok(_) => {},
            Err(e) => {
                assert forall|i: int| 0 <= i < start.len() implies same_request(
                    start[i],
                    #[trigger] active@[i],
                ) by {
                    assert(same_request(start[i], before[i]));
                }
                assert(fault == Some(e->Speculative_0));
                assert(working_at(start, start.len())[k as int] == at);
                assert(some_fault(start, window, drafts@, answers@, e));
                return Err(e);
            },
        }
        proof {
            assert(indices@.contains(at)) by {
                assert(indices@[k as int] == at);
            }
            assert forall|j: int| 0 <= j < k + 1 implies request_settled(
                start[#[trigger] indices@[j] as int],
                active@[indices@[j] as int],
                drafts@[j]@,
                answers@[j]@,
            ) && speculative::fed_with(active@[indices@[j] as int].matcher) == left[j].fed by {
                if j < k {
                    assert(indices@[j] < indices@[k as int]);
                    assert(request_settled(
                        start[indices@[j] as int],
                        before[indices@[j] as int],
                        drafts@[j]@,
                        answers@[j]@,
                    ));
                }
            }
            assert forall|i: int| 0 <= i < start.len() implies same_request(
                start[i],
                #[trigger] active@[i],
            ) by {
                assert(same_request(start[i], before[i]));
            }
            assert forall|i: int| 0 <= i < start.len() implies on_track(
                *decoder,
                #[trigger] active@[i],
            ) by {
                if i != at {
                    assert(on_track(*decoder, before[i]));
                }
            }
            assert forall|i: int| 0 <= i < start.len() implies weight(#[trigger] active@[i])
                <= weight(start[i]) by {
                if i != at {
                    assert(weight(before[i]) <= weight(start[i]));
                }
            }
            assert forall|j: int| k < j < n implies same_progress(
                start[#[trigger] indices@[j] as int],
                active@[indices@[j] as int],
            ) by {
                assert(indices@[k as int] < indices@[j]);
                assert(same_progress(
                    start[indices@[j] as int],
                    before[indices@[j] as int],
                ));
            }
            if k > 0 {
                assert(indices@[0] < indices@[k as int]);
            }
        }
        k = k + 1;
    }
    proof {
        lemma_work_shrinks(start, active@, indices@[0] as int);
        assert forall|i: int| 0 <= i < start.len() && !working(#[trigger] start[i]) implies active@[i]
            == start[i] by {
            assert(i <= total);
            if indices@.contains(i as usize) {
                let j = indices@.index_of(i as usize);
                assert(working(start[indices@[j] as int]));
            }
        }
        assert(round_settled(start, active@, drafts@, answers@, left));
    }
    Ok(())
}

/// One round for all requests that still want tokens: the draft model proposes
/// for all of them, the target model answers all of them, and each takes the
/// outcome over. The draft model works on copies of the matchers, the target
/// model on the matchers themselves.
fn run_round<D: DraftModel, T: TargetModel>(
    decoder: &SpeculativeDecoder,
    draft_model: &mut D,
    target_model: &mut T,
    active: &mut Vec<ActiveRequest>,
    indices: &Vec<usize>,
) -> (r: Result<(), EngineError>)
    requires
        indices@.len() > 0,
        indices@ == working_at(old(active)@, old(active)@.len()),
        forall|i: int| 0 <= i < old(active)@.len() ==> on_track(*decoder, #[trigger] old(active)@[i]),
        forall|k: int|
            0 <= k < indices@.len() ==> #[trigger] indices@[k] < old(active)@.len() && working(
                old(active)@[indices@[k] as int],
            ),
        forall|a: int, b: int|
            0 <= a < b < indices@.len() ==> #[trigger] indices@[a] < #[trigger] indices@[b],
    ensures
        final(active)@.len() == old(active)@.len(),
        forall|i: int|
            0 <= i < old(active)@.len() ==> same_request(old(active)@[i], #[trigger] final(active)@[i]),
        r is Ok ==> work_left(final(active)@) < work_left(old(active)@),
        r is Ok ==> forall|i: int|
            0 <= i < old(active)@.len() ==> on_track(*decoder, #[trigger] final(active)@[i]),
        r is Ok ==> round_made(
            decoder.window(),
            (Moment {
                draft: *old(draft_model),
                target: *old(target_model),
                active: old(active)@,
            }),
            (Moment {
                draft: *final(draft_model),
                target: *final(target_model),
                active: final(active)@,
            }),
        ),
        r is Err ==> round_failed(
            decoder.window(),
            (Moment {
                draft: *old(draft_model),
                target: *old(target_model),
                active: old(active)@,
            }),
            *final(draft_model),
            *final(target_model),
            r->Err_0,
        ),
{
    let ghost start = active@;
    let ghost moment = Moment { draft: *draft_model, target: *target_model, active: start };
    let window: usize = decoder.draft_window();

    // 1. Prepare and execute the draft batch.
    let proposals: Result<Vec<Vec<NextTokenPrediction>>, SpeculativeError> = propose(
        draft_model,
        active,
        indices,
        window,
    );
    let drafts: Vec<Vec<NextTokenPrediction>> = match proposals {
        Ok(d) => d,
        Err(e) => {
            return Err(EngineError::from(e));
        },
    };

    // 2. Prepare and execute the verification batch.
    let mut requests: Vec<VerifyRequest<LlguidanceMatcher>> = verify_requests(
        active,
        indices,
        &drafts,
    );
    let ghost questions = requests@;
    let outcome: Result<Vec<Vec<VerifyStep>>, SpeculativeError> = target_model.verify_batch(
        &mut requests,
    );
    let ghost left = speculative::verify_asks(requests@);
    proof {
        assert forall|k: int| 0 <= k < questions.len() implies speculative::verify_asks(
            questions,
        )[k] == #[trigger] verdicts_wanted(start, drafts@)[k] by {
            assert(verifies_for(start[indices@[k] as int], drafts@[k]@, questions[k]));
        }
        assert(speculative::verify_asks(questions) =~= verdicts_wanted(start, drafts@));
        assert(verdicts_made(moment.target, start, drafts@, *target_model, left, outcome));
    }
    let answers: Vec<Vec<VerifyStep>> = match outcome {
        Ok(v) => v,
        Err(e) => {
            let error: EngineError = EngineError::from(e);
            proof {
                assert(verdicts_made(
                    moment.target,
                    start,
                    drafts@,
                    *target_model,
                    left,
                    Err(error->Speculative_0),
                ));
                lemma_round_failed(window, moment, *draft_model, *target_model, drafts, error);
            }
            return Err(error);
        },
    };

    // 3. Commit the results.
    match settle_round(decoder, active, indices, &drafts, &answers, requests, Ghost(start)) {
        Ok(_) => {
            proof {
                let after = Moment { draft: *draft_model, target: *target_model, active: active@ };
                assert(round_made_by(window, moment, after, drafts, answers, left));
            }
            Ok(())
        },
        Err(e) => {
            proof {
                assert(some_fault(start, window, drafts@, answers@, e));
                assert(verdicts_made(
                    moment.target,
                    start,
                    drafts@,
                    *target_model,
                    left,
                    Ok(answers),
                ));
                lemma_round_failed(window, moment, *draft_model, *target_model, drafts, e);
            }
            Err(e)
        },
    }
}

/// Whether two states of a request are at the same point of the generation.
pub open spec fn same_progress(a: ActiveRequest, b: ActiveRequest) -> bool {
    &&& same_request(a, b)
    &&& a.session == b.session
    &&& a.generated == b.generated
    &&& a.finished == b.finished
}

/// The longest sequence that some requests may come to.
pub open spec fn longest_wanted(requests: Seq<BatchRequest>) -> nat
    decreases requests.len(),
{
    if requests.len() == 0 {
        0
    } else {
        let rest = longest_wanted(requests.drop_last());
        let own = requests.last().prompt@.len() + requests.last().max_new_tokens as nat;
        if own > rest {
            own
        } else {
            rest
        }
    }
}

proof fn lemma_longest_wanted(requests: Seq<BatchRequest>, i: int)
    requires
        0 <= i < requests.len(),
    ensures
        requests[i].prompt@.len() + requests[i].max_new_tokens <= longest_wanted(requests),
    decreases requests.len(),
{
    if i < requests.len() - 1 {
        assert(requests.drop_last()[i] == requests[i]);
        lemma_longest_wanted(requests.drop_last(), i);
    }
}

/// The slots after `taken` of them were handed out and the first `back` of
/// those came back.
pub open spec fn slots_cycled(slots: Seq<u32>, taken: int, back: int) -> Seq<u32> {
    slots.skip(taken) + slots.take(back)
}

/// What a batch delivers for a request: tokens and counts as some rounds from
/// the prompt lead to, all tokens that were asked for unless the draft model
/// had nothing more to propose, and the account of the prefix cache.
pub open spec fn delivered(decoder: SpeculativeDecoder, req: BatchRequest, out: EngineOutput) -> bool {
    &&& exists|drafts: Seq<Seq<TokenId>>, answers: Seq<Seq<TokenId>>| #[trigger]
        delivered_by(decoder, req.prompt@, req.max_new_tokens as nat, out, drafts, answers)
    &&& out.tokens@.len() <= req.max_new_tokens
    &&& out.stats.cache_hit_tokens == out.cached_prefix.matched_tokens
    &&& out.stats.cache_hit_tokens + out.stats.cache_miss_tokens == req.prompt@.len()
    &&& match out.inserted_handle {
        Some(h) => h.token_len == req.prompt@.len() + out.tokens@.len(),
        None => req.prompt@.len() + out.tokens@.len() == 0,
    }
}

pub open spec fn delivered_by(
    decoder: SpeculativeDecoder,
    prompt: Seq<TokenId>,
    max: nat,
    out: EngineOutput,
    drafts: Seq<Seq<TokenId>>,
    answers: Seq<Seq<TokenId>>,
) -> bool {
    let end = speculative::play(decoder.fresh(prompt), drafts, answers);
    &&& batch_rounds(decoder.fresh(prompt), max, drafts, answers)
    &&& end.context == prompt + out.tokens@
    &&& out.stats.speculative == end.stats
    &&& out.tokens@.len() == max || (drafts.len() > 0 && drafts.last().len() == 0)
}

/// Whether a request was taken in: it holds a slot, its session starts on its
/// prompt, and a matcher, if it has one, was compiled by the factory for its
/// constraint, covers the factory's words, and was fed with the prompt.
pub open spec fn admitted(
    decoder: SpeculativeDecoder,
    factory: Option<Arc<ParserFactory>>,
    req: BatchRequest,
    active: ActiveRequest,
) -> bool {
    &&& active.session@ == decoder.fresh(req.prompt@)
    &&& active.max_new_tokens == req.max_new_tokens
    &&& active.generated@.len() == 0
    &&& !active.finished
    &&& accounted(req.prompt@, active.prefill)
    &&& req.constraint is None || factory is None ==> active.matcher is None
    &&& active.matcher is Some ==> {
        &&& active.matcher->0.fed() == req.prompt@
        &&& active.matcher->0.grammar() == constraints::grammar_for(req.constraint->0)
        &&& active.matcher->0.compiled_by() == *factory->0
        &&& active.matcher->0.vocab() == constraints::factory_words(*factory->0).len()
    }
}

/// The pages of a prompt that are bound to its slot: those of the block that was
/// cached for it, else those of its cached prefix.
pub open spec fn pages_to_bind(prefill: EnginePrefillOutput) -> Seq<u32> {
    let span = match prefill.inserted_pages {
        Some(span) => span,
        None => prefill.cached_pages->0,
    };
    span.pages@.map_values(|p: PageId| p.0 as u32)
}

/// Whether `memory` is left by binding pages to a slot of a page table.
pub open spec fn pages_bound<R: MemoryRuntime>(
    table: PageTable,
    slot: SlotId,
    pages: Seq<u32>,
    memory: R,
) -> bool {
    exists|before: R| #[trigger] bound_from(table, before, slot, pages, memory)
}

/// Whether binding pages to a slot leads from a runtime with that page table to
/// another one.
pub open spec fn bound_from<R: MemoryRuntime>(
    table: PageTable,
    before: R,
    slot: SlotId,
    pages: Seq<u32>,
    after: R,
) -> bool {
    before.page_table() == table && R::slot_bound(before, slot, pages, after)
}

/// Whether taking a request in leads from one state of an engine to another: the
/// request gets the next free slot, its prompt is prefilled, and the pages of the
/// prompt are bound to the slot.
pub open spec fn taken_in<R: MemoryRuntime>(
    before: VeloEngine<R>,
    req: BatchRequest,
    active: ActiveRequest,
    after: VeloEngine<R>,
) -> bool {
    &&& same_service(before, after)
    &&& before.slots()@.len() > 0
    &&& active.slot_id == SlotId(before.slots()@[0])
    &&& after.slots()@ == before.slots()@.drop_first()
    &&& admitted(before.decodes(), before.factory(), req, active)
    &&& prefilled(
        before.cached()@,
        after.cached()@,
        after.memory().the_allocator().pages_of(),
        req.prompt@,
        active.prefill,
    )
    &&& stocked(before.memory(), active.prefill, after.memory())
    &&& active.prefill.inserted_pages is Some || active.prefill.cached_pages is Some
    &&& pages_bound(
        before.memory().page_table(),
        active.slot_id,
        pages_to_bind(active.prefill),
        after.memory(),
    )
}

/// Whether the hits and misses of a prefill add up to the prompt.
pub open spec fn accounted(prompt: Seq<TokenId>, prefill: EnginePrefillOutput) -> bool {
    &&& prefill.stats.cache_hit_tokens == prefill.cached_prefix.matched_tokens
    &&& prefill.stats.cache_hit_tokens + prefill.stats.cache_miss_tokens == prompt.len()
}

proof fn lemma_room_after_insertion<R: MemoryRuntime>(
    before: VeloEngine<R>,
    after: VeloEngine<R>,
    tokens: Seq<TokenId>,
    handle: KvCacheHandle,
    count: nat,
    longest: nat,
)
    requires
        before.cached().wf(),
        count > 0,
        engine_room(before, count, longest),
        tokens.len() == handle.token_len,
        tokens.len() <= longest,
        same_service(before, after),
        after.memory().the_store().numbers_left() + 1
            >= before.memory().the_store().numbers_left(),
        after.cached()@ == inserted(before.cached()@, tokens, handle),
    ensures
        engine_room(after, (count - 1) as nat, longest),
{
    let c = before.cached()@;
    radix_cache::wf_is_sound(before.cached());
    radix_cache::insertion_bounds_residency(
        c.entries,
        tokens,
        handle,
        radix_cache::tick_after(c.clock),
        c.capacity,
    );
    assert((count - 1) * longest + longest == count * longest) by (nonlinear_arith);
}

/// Whether a runtime with that page table may refuse to bind pages to a slot.
pub open spec fn binding_refused_by<R: MemoryRuntime>(
    table: PageTable,
    memory: R,
    slot: SlotId,
    pages: Seq<u32>,
    e: SpeculativeError,
) -> bool {
    memory.page_table() == table && memory.refuses_slot(slot, pages, e)
}

/// Whether a request whose prompt was prefilled with `out` is given up with `e`:
/// the prompt has no pages, or the memory does not bind them to the slot.
pub open spec fn prefilled_in_vain<R: MemoryRuntime>(
    before: VeloEngine<R>,
    req: BatchRequest,
    out: EnginePrefillOutput,
    after: VeloEngine<R>,
    e: EngineError,
) -> bool {
    &&& prefilled(
        before.cached()@,
        after.cached()@,
        after.memory().the_allocator().pages_of(),
        req.prompt@,
        out,
    )
    &&& stocked(before.memory(), out, after.memory())
    &&& after.memory().page_table() == before.memory().page_table()
    &&& e is Speculative
    &&& if out.inserted_pages is None && out.cached_pages is None {
        e->Speculative_0 is Model && e->Speculative_0.text()
            == "Failed to resolve pages for prefill"@
    } else {
        exists|memory: R| #[trigger]
            binding_refused_by(
                before.memory().page_table(),
                memory,
                SlotId(before.slots()@[0]),
                pages_to_bind(out),
                e->Speculative_0,
            )
    }
}

/// What the attempt to take a request in leaves when it fails with `e`. A slot
/// that was taken is gone.
pub open spec fn not_taken<R: MemoryRuntime>(
    before: VeloEngine<R>,
    req: BatchRequest,
    after: VeloEngine<R>,
    e: EngineError,
) -> bool {
    &&& same_service(before, after)
    &&& if before.slots()@.len() == 0 {
        &&& after.slots()@ == before.slots()@
        &&& after.cached() == before.cached()
        &&& after.memory() == before.memory()
        &&& e is Speculative && e->Speculative_0 is Model
        &&& e->Speculative_0.text() == "No free slots available"@
    } else {
        &&& after.slots()@ == before.slots()@.drop_first()
        &&& prefill_failed(before, req.prompt@, after, e) || exists|out: EnginePrefillOutput|
            #[trigger] prefilled_in_vain(before, req, out, after, e)
    }
}

impl<R: MemoryRuntime> VeloEngine<R> {
    /// Takes a request of a batch in: it gets a slot, its prompt is prefilled,
    /// and the pages of the prompt are bound to the slot. Fails without a free
    /// slot or without pages for the prompt.
    fn take_in(&mut self, req: &BatchRequest) -> (r: Result<ActiveRequest, EngineError>)
        requires
            engine_wf(*old(self)),
            engine_room(*old(self), 1, req.prompt@.len()),
        ensures
            engine_wf(*final(self)),
            same_service(*old(self), *final(self)),
            final(self).memory().the_store().numbers_left() + 1
                >= old(self).memory().the_store().numbers_left(),
            engine_backed(*old(self)) ==> engine_backed(*final(self)),
            old(self).slots()@.len() == 0 ==> final(self).slots()@ == old(self).slots()@ && r is Err
                && r->Err_0 is Speculative && r->Err_0->Speculative_0 is Model
                && r->Err_0->Speculative_0.text() == "No free slots available"@,
            old(self).slots()@.len() > 0 ==> final(self).slots()@ == old(self).slots()@.drop_first(),
            r is Err ==> not_taken(*old(self), *req, *final(self), r->Err_0),
            forall|count: nat, longest: nat| #[trigger]
                ample(*old(self), count, longest) && engine_backed(*old(self)) && count > 0
                    && req.prompt@.len() <= longest && old(self).slots()@.len() > 0 ==> ample(
                    *final(self),
                    (count - 1) as nat,
                    longest,
                ) && (r is Err && req.prompt@.len() > 0 ==> slot_refusal::<R>(r->Err_0)),
            r is Ok ==> taken_in(*old(self), *req, r->Ok_0, *final(self)),
    {
        let slot_id: SlotId = match self.slot_pool.allocate() {
            Some(s) => s,
            None => {
                return Err(EngineError::Speculative(model_error("No free slots available")));
            },
        };
        assert(slot_id.0 < self.slots().max());
        let ghost mid = *self;
        let outcome: Result<EnginePrefillOutput, EngineError> = self.prefill(&req.prompt);
        let ghost cached = *self;
        proof {
            assert forall|count: nat, longest: nat| #[trigger]
                ample(*old(self), count, longest) && engine_backed(*old(self)) && count > 0
                    && req.prompt@.len() <= longest implies outcome is Ok && ample(
                cached,
                (count - 1) as nat,
                longest,
            ) by {
                assert(mid.memory() == old(self).memory());
                assert(ample(mid, count, longest));
            }
        }
        let prefill: EnginePrefillOutput = match outcome {
            Ok(p) => p,
            Err(e) => {
                assert(prefill_failed(*old(self), req.prompt@, *self, e));
                return Err(e);
            },
        };
        proof {
            radix_cache::lookup_finds_the_longest_prefix(
                old(self).cached()@.entries,
                req.prompt@,
                req.prompt@.len(),
                0,
            );
        }
        let page_ids: Vec<u32> = {
            let pages: &PageSpan = match &prefill.inserted_pages {
                Some(span) => span,
                None => match &prefill.cached_pages {
                    Some(span) => span,
                    None => {
                        let e: EngineError = EngineError::Speculative(
                            model_error("Failed to resolve pages for prefill"),
                        );
                        assert(prefilled_in_vain(*old(self), *req, prefill, *self, e));
                        return Err(e);
                    },
                },
            };
            page_numbers(pages)
        };
        let bound: Result<(), SpeculativeError> = self.runtime.bind_slot(slot_id, &page_ids);
        proof {
            assert forall|count: nat, longest: nat| #[trigger]
                ample(cached, count, longest) implies ample(*self, count, longest) by {
                assert(self.memory().the_store() == cached.memory().the_store());
                assert(self.memory().the_allocator() == cached.memory().the_allocator());
            }
        }
        proof {
            if bound is Ok {
                assert(page_ids@ =~= pages_to_bind(prefill));
                assert(bound_from(
                    old(self).memory().page_table(),
                    cached.memory(),
                    slot_id,
                    page_ids@,
                    self.memory(),
                ));
            }
        }
        match bound {
            Ok(_) => {},
            Err(e) => {
                let error: EngineError = EngineError::from(e);
                proof {
                    assert(page_ids@ =~= pages_to_bind(prefill));
                    assert(cached.memory().refuses_slot(slot_id, page_ids@, e));
                    assert(binding_refused_by(
                        old(self).memory().page_table(),
                        cached.memory(),
                        slot_id,
                        page_ids@,
                        e,
                    ));
                    assert(prefilled_in_vain(*old(self), *req, prefill, *self, error));
                }
                return Err(error);
            },
        }
        let session: SpeculativeSession = match self.decoder.begin(&req.prompt) {
            Ok(s) => s,
            Err(e) => {
                return Err(EngineError::from(e));
            },
        };
        let mut matcher: Option<LlguidanceMatcher> = self.matcher_for(&req.constraint);
        match &mut matcher {
            Some(m) => {
                feed(m, &req.prompt);
            },
            None => {},
        }
        Ok(
            ActiveRequest {
                session,
                slot_id,
                max_new_tokens: req.max_new_tokens,
                generated: Vec::new(),
                prefill,
                matcher,
                finished: false,
            },
        )
    }

    /// The matcher for a constraint. Without a constraint, without a factory,
    /// or where the grammar cannot be compiled, generation is not constrained.
    fn matcher_for(&self, constraint: &Option<Constraint>) -> (m: Option<LlguidanceMatcher>)
        ensures
            constraint is None || self.factory() is None ==> m is None,
            m is Some ==> {
                let factory = *self.factory()->0;
                &&& m->0.fed() == Seq::<TokenId>::empty()
                &&& m->0.grammar() == constraints::grammar_for(constraint->0)
                &&& m->0.compiled_by() == factory
                &&& m->0.vocab() == constraints::factory_words(factory).len()
            },
    {
        match constraint {
            Some(c) => match &self.parser_factory {
                Some(factory) => constrained_by(
                    LlguidanceMatcher::for_constraint(factory, c.copy()),
                ),
                None => None,
            },
            None => None,
        }
    }

    /// Closes a request of a batch: its slot goes back, and its whole sequence
    /// is cached.
    fn finish(&mut self, req: ActiveRequest) -> (r: Result<EngineOutput, EngineError>)
        requires
            engine_wf(*old(self)),
            on_track(old(self).decodes(), req),
            !working(req),
            accounted(req.session@.prompt, req.prefill),
            req.slot_id.0 < old(self).slots().max(),
            engine_room(*old(self), 1, req.session@.prompt.len() + req.max_new_tokens as nat),
        ensures
            engine_wf(*final(self)),
            same_service(*old(self), *final(self)),
            final(self).slots()@ == old(self).slots()@.push(req.slot_id.0),
            final(self).memory().the_store().numbers_left() + 1
                >= old(self).memory().the_store().numbers_left(),
            engine_backed(*old(self)) ==> engine_backed(*final(self)),
            r is Ok ==> closed_by(*old(self), req, r->Ok_0, *final(self)),
            r is Err ==> not_closed(*old(self), req, *final(self), r->Err_0),
            forall|count: nat, longest: nat| #[trigger]
                ample(*old(self), count, longest) && engine_backed(*old(self)) && count > 0
                    && req.session@.prompt.len() + req.max_new_tokens <= longest ==> r is Ok
                    && ample(*final(self), (count - 1) as nat, longest),
    {
        self.slot_pool.release(req.slot_id);
        let mut full_sequence: Vec<TokenId> = copied(req.session.prompt());
        append_tokens(&mut full_sequence, &req.generated);
        proof {
            assert(1 * (req.session@.prompt.len() + req.max_new_tokens) >= full_sequence@.len())
                by (nonlinear_arith)
                requires
                    req.session@.prompt.len() + req.max_new_tokens >= full_sequence@.len(),
            ;
        }
        let ghost mid = *self;
        proof {
            assert forall|count: nat, longest: nat| #[trigger]
                ample(*old(self), count, longest) implies ample(mid, count, longest) by {
                assert(mid.memory() == old(self).memory());
            }
        }
        let inserted_handle: Option<KvCacheHandle> = if full_sequence.len() > 0 {
            let stored: Result<KvCacheHandle, EngineError> = self.cache_sequence(&full_sequence);
            proof {
                assert forall|count: nat, longest: nat| #[trigger]
                    ample(*old(self), count, longest) && engine_backed(*old(self)) && count > 0
                        && full_sequence@.len() <= longest implies stored is Ok && ample(
                    *self,
                    (count - 1) as nat,
                    longest,
                ) by {
                    assert(ample(mid, count, longest));
                }
            }
            match stored {
                Ok(h) => Some(h),
                Err(e) => {
                    proof {
                        let full = req.session@.prompt + req.generated@;
                        assert(full_sequence@ =~= full);
                        if can_hold(mid.memory(), full.len()) {
                            let h = choose|h: KvCacheHandle| #[trigger]
                                stuck(mid, full, h, *self, e);
                            assert(stuck(*old(self), full, h, *self, e));
                        }
                    }
                    return Err(e);
                },
            }
        } else {
            None
        };
        let inserted_pages: Option<PageSpan> = self.span_of(inserted_handle);
        let stats = EngineStats {
            cache_hit_tokens: req.prefill.stats.cache_hit_tokens,
            cache_miss_tokens: req.prefill.stats.cache_miss_tokens,
            speculative: *req.session.stats(),
        };
        Ok(
            EngineOutput {
                tokens: req.generated,
                cached_prefix: req.prefill.cached_prefix,
                cached_pages: req.prefill.cached_pages,
                inserted_handle,
                inserted_pages,
                stats,
            },
        )
    }
}

proof fn lemma_room_after_prefill<R: MemoryRuntime>(
    before: VeloEngine<R>,
    after: VeloEngine<R>,
    pages: Map<u64, Seq<PageId>>,
    prompt: Seq<TokenId>,
    out: EnginePrefillOutput,
    count: nat,
    longest: nat,
)
    requires
        before.cached().wf(),
        count > 0,
        engine_room(before, count, longest),
        prompt.len() <= longest,
        same_service(before, after),
        after.memory().the_store().numbers_left() + 1
            >= before.memory().the_store().numbers_left(),
        prefilled(before.cached()@, after.cached()@, pages, prompt, out),
    ensures
        engine_room(after, (count - 1) as nat, longest),
        after.cached()@.capacity == before.cached()@.capacity,
{
    let c = before.cached()@;
    let seen = looked_up(c, prompt);
    radix_cache::wf_is_sound(before.cached());
    radix_cache::lookup_keeps_handles(c.entries, prompt, radix_cache::tick_after(c.clock));
    if out.inserted_handle is Some {
        radix_cache::insertion_bounds_residency(
            seen.entries,
            prompt,
            out.inserted_handle->0,
            radix_cache::tick_after(seen.clock),
            seen.capacity,
        );
    }
    assert((count - 1) * longest + longest == count * longest) by (nonlinear_arith);
}

/// Whether closing a request leads from one state of an engine to another and
/// delivers `out`: its slot goes back, its whole sequence is cached under the
/// handle of the output, and the pages of the output are those of the handle.
pub open spec fn closed_by<R: MemoryRuntime>(
    before: VeloEngine<R>,
    req: ActiveRequest,
    out: EngineOutput,
    after: VeloEngine<R>,
) -> bool {
    &&& same_service(before, after)
    &&& after.memory().page_table() == before.memory().page_table()
    &&& after.slots()@ == before.slots()@.push(req.slot_id.0)
    &&& delivered_from(req, out)
    &&& out.inserted_handle is Some <==> (req.session@.prompt + req.generated@).len() > 0
    &&& match out.inserted_handle {
        Some(h) => {
            let full = req.session@.prompt + req.generated@;
            &&& !before.memory().the_store().held().contains_key(h.block_id)
            &&& after.cached()@ == inserted(before.cached()@, full, h)
            &&& reblocked(
                before.memory().the_store().held(),
                radix_cache::handle_on(before.cached()@.entries, full),
                h,
                after.memory().the_store().held(),
            )
            &&& repaged(
                before.memory().the_allocator().pages_of(),
                radix_cache::handle_on(before.cached()@.entries, full),
                h,
                after.memory().the_allocator().pages_of(),
            )
        },
        None => after.cached()@ == before.cached()@ && after.memory() == before.memory(),
    }
    &&& spans(
        after.memory().the_allocator().pages_of(),
        out.inserted_handle,
        out.inserted_pages,
    )
}

/// What the attempt to close a request leaves when its sequence cannot be cached:
/// its slot goes back, and where the memory refuses the sequence, nothing else
/// changes.
pub open spec fn not_closed<R: MemoryRuntime>(
    before: VeloEngine<R>,
    req: ActiveRequest,
    after: VeloEngine<R>,
    e: EngineError,
) -> bool {
    let full = req.session@.prompt + req.generated@;
    &&& same_service(before, after)
    &&& after.memory().page_table() == before.memory().page_table()
    &&& after.slots()@ == before.slots()@.push(req.slot_id.0)
    &&& if !can_hold(before.memory(), full.len()) {
        &&& e == memory_refusal(before.memory(), full.len())
        &&& after.cached() == before.cached()
        &&& memory_kept(before.memory(), after.memory())
    } else {
        &&& !engine_backed(before)
        &&& exists|h: KvCacheHandle| #[trigger] stuck(before, full, h, after, e)
    }
}

/// Whether closing the requests one after the other fails with `e` at one of them.
pub open spec fn closing_failed<R: MemoryRuntime>(
    before: VeloEngine<R>,
    active: Seq<ActiveRequest>,
    after: VeloEngine<R>,
    e: EngineError,
) -> bool {
    exists|engines: Seq<VeloEngine<R>>, outputs: Seq<EngineOutput>| #[trigger]
        closed_through(engines, active, outputs) && engines[0] == before && outputs.len()
            < active.len() && not_closed(
            engines.last(),
            active[outputs.len() as int],
            after,
            e,
        )
}

/// Whether the handle of an output is the one that is cached for its sequence, and
/// its pages are the pages of that handle.
pub open spec fn is_kept<R: MemoryRuntime>(
    engine: VeloEngine<R>,
    full: Seq<TokenId>,
    out: EngineOutput,
) -> bool {
    full.len() > 0 ==> {
        &&& out.inserted_handle is Some
        &&& radix_cache::handle_on(engine.cached()@.entries, full) == out.inserted_handle
        &&& spans(
            engine.memory().the_allocator().pages_of(),
            out.inserted_handle,
            out.inserted_pages,
        )
    }
}

/// Whether no later request of a batch came to the same sequence.
pub open spec fn last_of_its_kind(
    requests: Seq<BatchRequest>,
    outputs: Seq<EngineOutput>,
    i: int,
) -> bool {
    forall|j: int|
        i < j < outputs.len() ==> requests[j].prompt@ + (#[trigger] outputs[j]).tokens@
            != requests[i].prompt@ + outputs[i].tokens@
}

/// Closing another request keeps what is cached for a sequence, unless it came to
/// the same sequence.
proof fn lemma_closing_keeps<R: MemoryRuntime>(
    before: VeloEngine<R>,
    req: ActiveRequest,
    out: EngineOutput,
    after: VeloEngine<R>,
    own: Seq<TokenId>,
    kept: EngineOutput,
)
    requires
        before.cached().wf(),
        before.cached()@.capacity is None,
        engine_backed(before),
        closed_by(before, req, out, after),
        is_kept(before, own, kept),
        own != req.session@.prompt + req.generated@,
    ensures
        is_kept(after, own, kept),
{
    radix_cache::wf_is_sound(before.cached());
    let c = before.cached()@;
    let full = req.session@.prompt + req.generated@;
    if own.len() > 0 && out.inserted_handle is Some {
        let h = out.inserted_handle->0;
        let mine = kept.inserted_handle->0;
        radix_cache::stored_is_read_back(
            c.entries,
            full,
            h,
            radix_cache::tick_after(c.clock),
            own,
        );
        let i = radix_cache::entry_of(c.entries, own);
        assert(0 <= i < c.entries.len() && c.entries[i].prefix == own);
        assert(c.entries[i].handle == Some(mine));
        assert(before.memory().the_store().held().contains_key(mine.block_id));
        let replaced = radix_cache::handle_on(c.entries, full);
        if replaced is Some {
            let j = radix_cache::entry_of(c.entries, full);
            assert(0 <= j < c.entries.len() && c.entries[j].prefix == full);
            assert(c.entries[j].handle == replaced);
            assert(replaced->0.block_id != mine.block_id);
        }
    }
}

/// A request that was just closed is kept.
proof fn lemma_closed_is_kept<R: MemoryRuntime>(
    before: VeloEngine<R>,
    req: ActiveRequest,
    out: EngineOutput,
    after: VeloEngine<R>,
)
    requires
        before.cached().wf(),
        before.cached()@.capacity is None,
        closed_by(before, req, out, after),
    ensures
        is_kept(after, req.session@.prompt + req.generated@, out),
{
    radix_cache::wf_is_sound(before.cached());
    let c = before.cached()@;
    let full = req.session@.prompt + req.generated@;
    if full.len() > 0 {
        radix_cache::stored_is_read_back(
            c.entries,
            full,
            out.inserted_handle->0,
            radix_cache::tick_after(c.clock),
            full,
        );
    }
}

/// Whether the requests were closed one after the other through these states of
/// an engine, and delivered the outputs.
pub open spec fn closed_through<R: MemoryRuntime>(
    engines: Seq<VeloEngine<R>>,
    active: Seq<ActiveRequest>,
    outputs: Seq<EngineOutput>,
) -> bool {
    &&& outputs.len() <= active.len()
    &&& engines.len() == outputs.len() + 1
    &&& forall|i: int|
        0 <= i < outputs.len() ==> closed_by(
            engines[i],
            active[i],
            #[trigger] outputs[i],
            engines[i + 1],
        )
}

/// Whether the requests may have been closed one after the other in this way.
pub open spec fn closed_in_turn<R: MemoryRuntime>(
    before: VeloEngine<R>,
    active: Seq<ActiveRequest>,
    outputs: Seq<EngineOutput>,
    after: VeloEngine<R>,
) -> bool {
    exists|engines: Seq<VeloEngine<R>>| #[trigger]
        closed_through(engines, active, outputs) && engines[0] == before && engines.last() == after
}

/// Whether a sequence is cached, if it is not empty.
pub open spec fn is_cached(entries: Seq<radix_cache::CacheEntry>, tokens: Seq<TokenId>) -> bool {
    tokens.len() > 0 ==> radix_cache::handle_on(entries, tokens) is Some
}

/// Whether the models were told about the first `n` requests, one after the
/// other, through the given states.
pub open spec fn bound_in_turn<D: DraftModel, T: TargetModel>(
    active: Seq<ActiveRequest>,
    n: int,
    drafters: Seq<D>,
    targets: Seq<T>,
) -> bool {
    &&& 0 <= n <= active.len()
    &&& drafters.len() == n + 1
    &&& targets.len() == n + 1
    &&& forall|i: int|
        0 <= i < n ==> speculative::models_bound(
            (#[trigger] active[i]).slot_id,
            active[i].prefill.cached_prefix,
            drafters[i],
            targets[i],
            drafters[i + 1],
            targets[i + 1],
        )
}

/// Whether the models may have been told about all requests in this way.
pub open spec fn all_bound<D: DraftModel, T: TargetModel>(
    active: Seq<ActiveRequest>,
    draft0: D,
    target0: T,
    draft1: D,
    target1: T,
) -> bool {
    exists|drafters: Seq<D>, targets: Seq<T>| #[trigger]
        bound_in_turn(active, active.len() as int, drafters, targets) && drafters[0] == draft0
            && targets[0] == target0 && drafters.last() == draft1 && targets.last() == target1
}

/// Whether a model may have refused one of the requests with `e`.
pub open spec fn some_refused<D: DraftModel, T: TargetModel>(
    active: Seq<ActiveRequest>,
    draft0: D,
    target0: T,
    draft1: D,
    target1: T,
    e: EngineError,
) -> bool {
    exists|n: int, drafters: Seq<D>, targets: Seq<T>| #[trigger]
        bound_in_turn(active, n, drafters, targets) && drafters[0] == draft0 && targets[0]
            == target0 && n < active.len() && e is Speculative && speculative::binding_refused(
            active[n].slot_id,
            active[n].prefill.cached_prefix,
            drafters[n],
            targets[n],
            draft1,
            target1,
            e->Speculative_0,
        )
}

/// Tells both models about the requests, one after the other.
fn bind_all<D: DraftModel, T: TargetModel>(
    draft_model: &mut D,
    target_model: &mut T,
    active: &Vec<ActiveRequest>,
) -> (r: Result<(), EngineError>)
    ensures
        r is Ok ==> all_bound(
            active@,
            *old(draft_model),
            *old(target_model),
            *final(draft_model),
            *final(target_model),
        ),
        r is Err ==> some_refused(
            active@,
            *old(draft_model),
            *old(target_model),
            *final(draft_model),
            *final(target_model),
            r->Err_0,
        ),
{
    let ghost mut drafters: Seq<D> = seq![*draft_model];
    let ghost mut targets: Seq<T> = seq![*target_model];
    let mut i: usize = 0;
    while i < active.len()
        invariant
            i <= active@.len(),
            bound_in_turn(active@, i as int, drafters, targets),
            drafters[0] == *old(draft_model),
            targets[0] == *old(target_model),
            drafters[i as int] == *draft_model,
            targets[i as int] == *target_model,
        decreases active@.len() - i,
    {
        match bind_models(
            draft_model,
            target_model,
            active[i].slot_id,
            &active[i].prefill.cached_prefix,
        ) {
            Ok(_) => {},
            Err(e) => {
                let error: EngineError = EngineError::from(e);
                assert(bound_in_turn(active@, i as int, drafters, targets));
                return Err(error);
            },
        }
        proof {
            let seen = drafters;
            let heard = targets;
            drafters = drafters.push(*draft_model);
            targets = targets.push(*target_model);
            assert forall|k: int| 0 <= k < i + 1 implies speculative::models_bound(
                (#[trigger] active@[k]).slot_id,
                active@[k].prefill.cached_prefix,
                drafters[k],
                targets[k],
                drafters[k + 1],
                targets[k + 1],
            ) by {
                if k < i {
                    assert(speculative::models_bound(
                        active@[k].slot_id,
                        active@[k].prefill.cached_prefix,
                        seen[k],
                        heard[k],
                        seen[k + 1],
                        heard[k + 1],
                    ));
                }
            }
        }
        i = i + 1;
    }
    assert(bound_in_turn(active@, active@.len() as int, drafters, targets));
    Ok(())
}

/// Whether each moment leads to the next one by a round.
pub open spec fn round_chain<D: DraftModel, T: TargetModel>(
    window: usize,
    moments: Seq<Moment<D, T>>,
) -> bool {
    &&& moments.len() > 0
    &&& forall|k: int|
        0 <= k < moments.len() - 1 ==> round_made(window, #[trigger] moments[k], moments[k + 1])
}

/// Whether some rounds may lead from one moment to another.
pub open spec fn rounds_made<D: DraftModel, T: TargetModel>(
    window: usize,
    before: Moment<D, T>,
    after: Moment<D, T>,
) -> bool {
    exists|moments: Seq<Moment<D, T>>| #[trigger]
        round_chain(window, moments) && moments[0] == before && moments.last() == after
}

proof fn lemma_another_round<D: DraftModel, T: TargetModel>(
    window: usize,
    before: Moment<D, T>,
    now: Moment<D, T>,
    after: Moment<D, T>,
)
    requires
        rounds_made(window, before, now),
        round_made(window, now, after),
    ensures
        rounds_made(window, before, after),
{
    let moments = choose|moments: Seq<Moment<D, T>>| #[trigger]
        round_chain(window, moments) && moments[0] == before && moments.last() == now;
    let more = moments.push(after);
    assert forall|k: int| 0 <= k < more.len() - 1 implies round_made(
        window,
        #[trigger] more[k],
        more[k + 1],
    ) by {
        if k < moments.len() - 1 {
            assert(round_made(window, moments[k], moments[k + 1]));
        }
    }
    assert(round_chain(window, more));
}

/// Whether no request wants tokens any more.
pub open spec fn none_working(active: Seq<ActiveRequest>) -> bool {
    forall|i: int| 0 <= i < active.len() ==> !working(#[trigger] active[i])
}

/// Runs rounds until no request wants tokens any more.
fn run_rounds<D: DraftModel, T: TargetModel>(
    decoder: &SpeculativeDecoder,
    draft_model: &mut D,
    target_model: &mut T,
    active: &mut Vec<ActiveRequest>,
) -> (r: Result<(), EngineError>)
    requires
        forall|i: int| 0 <= i < old(active)@.len() ==> on_track(*decoder, #[trigger] old(active)@[i]),
    ensures
        final(active)@.len() == old(active)@.len(),
        forall|i: int|
            0 <= i < old(active)@.len() ==> same_request(old(active)@[i], #[trigger] final(active)@[i]),
        none_working(old(active)@) ==> r is Ok && final(active)@ == old(active)@,
        r is Ok ==> {
            &&& none_working(final(active)@)
            &&& forall|i: int|
                0 <= i < old(active)@.len() ==> on_track(*decoder, #[trigger] final(active)@[i])
            &&& rounds_made(
                decoder.window(),
                (Moment {
                    draft: *old(draft_model),
                    target: *old(target_model),
                    active: old(active)@,
                }),
                (Moment {
                    draft: *final(draft_model),
                    target: *final(target_model),
                    active: final(active)@,
                }),
            )
        },
        r is Err ==> exists|now: Moment<D, T>| #[trigger]
            rounds_made(
                decoder.window(),
                (Moment {
                    draft: *old(draft_model),
                    target: *old(target_model),
                    active: old(active)@,
                }),
                now,
            ) && round_failed(
                decoder.window(),
                now,
                *final(draft_model),
                *final(target_model),
                r->Err_0,
            ),
{
    let ghost start = active@;
    let ghost first = Moment { draft: *draft_model, target: *target_model, active: start };
    proof {
        let moments = seq![first];
        assert(round_chain(decoder.window(), moments));
        assert(rounds_made(decoder.window(), first, first));
    }
    let mut indices: Vec<usize> = working_indices(active);
    proof {
        if none_working(start) && indices@.len() > 0 {
            assert(working(start[indices@[0] as int]));
        }
    }
    while indices.len() > 0
        invariant
            start == old(active)@,
            active@.len() == start.len(),
            first == (Moment {
                draft: *old(draft_model),
                target: *old(target_model),
                active: start,
            }),
            rounds_made(
                decoder.window(),
                first,
                (Moment { draft: *draft_model, target: *target_model, active: active@ }),
            ),
            forall|i: int| 0 <= i < start.len() ==> same_request(start[i], #[trigger] active@[i]),
            forall|i: int| 0 <= i < start.len() ==> on_track(*decoder, #[trigger] active@[i]),
            forall|k: int|
                0 <= k < indices@.len() ==> #[trigger] indices@[k] < active@.len() && working(
                    active@[indices@[k] as int],
                ),
            forall|a: int, b: int|
                0 <= a < b < indices@.len() ==> #[trigger] indices@[a] < #[trigger] indices@[b],
            indices@.len() == 0 ==> forall|i: int| 0 <= i < active@.len() ==> !working(#[trigger] active@[i]),
            indices@ == working_at(active@, active@.len()),
            none_working(start) ==> indices@.len() == 0 && active@ == start,
        decreases work_left(active@),
    {
        let ghost before = active@;
        let ghost now = Moment { draft: *draft_model, target: *target_model, active: before };
        assert(indices@[0] < active@.len());
        match run_round(decoder, draft_model, target_model, active, &indices) {
            Ok(_) => {},
            Err(e) => {
                proof {
                    assert(rounds_made(decoder.window(), first, now));
                    assert forall|i: int| 0 <= i < start.len() implies same_request(
                        start[i],
                        #[trigger] active@[i],
                    ) by {
                        assert(same_request(start[i], before[i]));
                        assert(same_request(before[i], active@[i]));
                    }
                }
                return Err(e);
            },
        }
        proof {
            lemma_another_round(
                decoder.window(),
                first,
                now,
                Moment { draft: *draft_model, target: *target_model, active: active@ },
            );
            assert forall|i: int| 0 <= i < start.len() implies same_request(
                start[i],
                #[trigger] active@[i],
            ) by {
                assert(same_request(start[i], before[i]));
                assert(same_request(before[i], active@[i]));
            }
        }
        indices = working_indices(active);
    }
    Ok(())
}

/// Whether all requests of a batch were taken in.
pub open spec fn all_admitted<R>(
    engine: VeloEngine<R>,
    requests: Seq<BatchRequest>,
    active: Seq<ActiveRequest>,
) -> bool {
    &&& active.len() == requests.len()
    &&& forall|i: int|
        0 <= i < requests.len() ==> admitted(
            engine.decodes(),
            engine.factory(),
            requests[i],
            #[trigger] active[i],
        )
}

/// Whether the first requests were taken in one after the other through these
/// states of an engine.
pub open spec fn taken_through<R: MemoryRuntime>(
    engines: Seq<VeloEngine<R>>,
    requests: Seq<BatchRequest>,
    active: Seq<ActiveRequest>,
) -> bool {
    &&& active.len() <= requests.len()
    &&& engines.len() == active.len() + 1
    &&& forall|i: int|
        0 <= i < active.len() ==> taken_in(
            engines[i],
            requests[i],
            #[trigger] active[i],
            engines[i + 1],
        )
}

/// Whether all requests of a batch were taken in one after the other, which led
/// from one state of an engine to another. Each holds a slot of its own: the
/// free slots, in order.
pub open spec fn requests_taken<R: MemoryRuntime>(
    before: VeloEngine<R>,
    requests: Seq<BatchRequest>,
    active: Seq<ActiveRequest>,
    after: VeloEngine<R>,
) -> bool {
    &&& all_admitted(before, requests, active)
    &&& slots_given(before.slots()@, before.slots().max(), active)
    &&& exists|engines: Seq<VeloEngine<R>>| #[trigger]
        taken_through(engines, requests, active) && engines[0] == before && engines.last() == after
}

/// Whether taking the requests of a batch in one after the other fails with `e` at
/// one of them.
pub open spec fn taking_failed<R: MemoryRuntime>(
    before: VeloEngine<R>,
    requests: Seq<BatchRequest>,
    after: VeloEngine<R>,
    e: EngineError,
) -> bool {
    exists|engines: Seq<VeloEngine<R>>, active: Seq<ActiveRequest>| #[trigger]
        taken_through(engines, requests, active) && engines[0] == before && active.len()
            < requests.len() && not_taken(
            engines.last(),
            requests[active.len() as int],
            after,
            e,
        )
}

/// Whether `first` is the moment at which the requests of a batch were taken in,
/// which left the engine as `taken`, and both models were told about them, and
/// some rounds lead from there to `last`.
pub open spec fn batch_run<R: MemoryRuntime, D: DraftModel, T: TargetModel>(
    engine: VeloEngine<R>,
    requests: Seq<BatchRequest>,
    draft0: D,
    target0: T,
    taken: VeloEngine<R>,
    first: Moment<D, T>,
    last: Moment<D, T>,
) -> bool {
    &&& requests_taken(engine, requests, first.active, taken)
    &&& all_bound(first.active, draft0, target0, first.draft, first.target)
    &&& rounds_made(engine.decodes().window(), first, last)
}

/// Whether a batch may have taken an engine and the models from their first
/// states to their last ones and delivered `outputs`: its rounds went on until no
/// request wanted tokens any more, and each output is where its request came to.
pub open spec fn batch_delivered<R: MemoryRuntime, D: DraftModel, T: TargetModel>(
    before: VeloEngine<R>,
    after: VeloEngine<R>,
    requests: Seq<BatchRequest>,
    draft0: D,
    target0: T,
    draft1: D,
    target1: T,
    outputs: Seq<EngineOutput>,
) -> bool {
    exists|taken: VeloEngine<R>, first: Moment<D, T>, last: Moment<D, T>| #[trigger]
        batch_run(before, requests, draft0, target0, taken, first, last) && batch_closed(
            last,
            draft1,
            target1,
            outputs,
        ) && closed_in_turn(taken, last.active, outputs, after)
}

/// Whether a batch ends at a moment with these outputs.
pub open spec fn batch_closed<D, T>(
    last: Moment<D, T>,
    draft1: D,
    target1: T,
    outputs: Seq<EngineOutput>,
) -> bool {
    &&& none_working(last.active)
    &&& draft1 == last.draft
    &&& target1 == last.target
    &&& outputs.len() == last.active.len()
    &&& forall|i: int|
        0 <= i < outputs.len() ==> delivered_from(last.active[i], #[trigger] outputs[i])
}

/// Whether an error is one with which the memory may refuse to bind pages to a
/// slot.
pub open spec fn slot_refusal<R: MemoryRuntime>(e: EngineError) -> bool {
    e is Speculative && exists|memory: R, slot: SlotId, pages: Seq<u32>| #[trigger]
        memory.refuses_slot(slot, pages, e->Speculative_0)
}

/// Whether a model may have ended a batch with `e`, and engine and models were left
/// so: one of the models refused a request, or a round failed.
pub open spec fn models_failed<R: MemoryRuntime, D: DraftModel, T: TargetModel>(
    before: VeloEngine<R>,
    after: VeloEngine<R>,
    requests: Seq<BatchRequest>,
    draft0: D,
    target0: T,
    draft1: D,
    target1: T,
    e: EngineError,
) -> bool {
    ||| exists|active: Seq<ActiveRequest>| #[trigger]
        requests_taken(before, requests, active, after) && some_refused(
            active,
            draft0,
            target0,
            draft1,
            target1,
            e,
        )
    ||| exists|first: Moment<D, T>, last: Moment<D, T>| #[trigger]
        batch_run(before, requests, draft0, target0, after, first, last) && round_failed(
            before.decodes().window(),
            last,
            draft1,
            target1,
            e,
        )
}

/// Whether nothing but the models can fail a batch: there is a slot for each
/// request, no prompt is empty, and the memory is ample.
pub open spec fn well_provided<R: MemoryRuntime>(
    engine: VeloEngine<R>,
    requests: Seq<BatchRequest>,
) -> bool {
    &&& engine_backed(engine)
    &&& requests.len() <= engine.slots()@.len()
    &&& ample(engine, 2 * requests.len(), longest_wanted(requests))
    &&& prompts_not_empty(requests)
}

/// Whether no prompt is empty.
pub open spec fn prompts_not_empty(requests: Seq<BatchRequest>) -> bool {
    forall|i: int| 0 <= i < requests.len() ==> (#[trigger] requests[i]).prompt@.len() > 0
}

/// Whether a batch may have failed with `e` and left engine and models so: a
/// request was not taken in, a model refused one, a round failed, or what was
/// generated could not be stored.
pub open spec fn batch_failed<R: MemoryRuntime, D: DraftModel, T: TargetModel>(
    before: VeloEngine<R>,
    after: VeloEngine<R>,
    requests: Seq<BatchRequest>,
    draft0: D,
    target0: T,
    draft1: D,
    target1: T,
    e: EngineError,
) -> bool {
    ||| draft1 == draft0 && target1 == target0 && taking_failed(before, requests, after, e)
    ||| models_failed(before, after, requests, draft0, target0, draft1, target1, e)
    ||| exists|
        taken: VeloEngine<R>,
        first: Moment<D, T>,
        last: Moment<D, T>,
    | #[trigger]
        batch_run(before, requests, draft0, target0, taken, first, last) && none_working(
            last.active,
        ) && draft1 == last.draft && target1 == last.target && closing_failed(
            taken,
            last.active,
            after,
            e,
        )
}

proof fn lemma_ample_for_fewer<R: MemoryRuntime>(
    engine: VeloEngine<R>,
    count: nat,
    fewer: nat,
    longest: nat,
)
    requires
        ample(engine, count, longest),
        fewer <= count,
    ensures
        ample(engine, fewer, longest),
{
}

/// What a batch leaves of the slots when it fails: some were taken, and the
/// first of them may have come back.
pub open spec fn slots_after_failure(before: Seq<u32>, after: Seq<u32>) -> bool {
    exists|taken: int, back: int|
        0 <= back <= taken <= before.len() && after == #[trigger] slots_cycled(before, taken, back)
}

/// Whether the requests hold the first slots, in order, each below `max`.
pub open spec fn slots_given(slots: Seq<u32>, max: usize, active: Seq<ActiveRequest>) -> bool {
    &&& active.len() <= slots.len()
    &&& forall|i: int|
        0 <= i < active.len() ==> (#[trigger] active[i]).slot_id == SlotId(slots[i]) && slots[i]
            < max
}

/// Whether a request in work belongs to a request of a batch.
spec fn belongs_to(req: BatchRequest, active: ActiveRequest) -> bool {
    &&& active.max_new_tokens == req.max_new_tokens
    &&& active.session@.prompt == req.prompt@
    &&& accounted(req.prompt@, active.prefill)
}

impl<R: MemoryRuntime> VeloEngine<R> {
    /// Takes the requests of a batch in, one after the other, each with a slot of
    /// its own.
    fn take_all(&mut self, requests: &Vec<BatchRequest>) -> (r: Result<
        Vec<ActiveRequest>,
        EngineError,
    >)
        requires
            engine_wf(*old(self)),
            engine_room(*old(self), 2 * requests@.len(), longest_wanted(requests@)),
        ensures
            engine_wf(*final(self)),
            same_service(*old(self), *final(self)),
            engine_backed(*old(self)) ==> engine_backed(*final(self)),
            requests@.len() > old(self).slots()@.len() ==> r is Err,
            requests@.len() == 0 ==> r is Ok,
            r is Err ==> taking_failed(
                *old(self),
                requests@,
                *final(self),
                r->Err_0,
            ) && slots_after_failure(old(self).slots()@, final(self).slots()@),
            well_provided(*old(self), requests@) ==> {
                &&& r is Err ==> slot_refusal::<R>(r->Err_0)
                &&& ample(*final(self), requests@.len(), longest_wanted(requests@))
            },
            r is Ok ==> {
                &&& requests_taken(*old(self), requests@, r->Ok_0@, *final(self))
                &&& final(self).slots()@ == slots_cycled(
                    old(self).slots()@,
                    requests@.len() as int,
                    0,
                )
                &&& final(self).cached()@.capacity == old(self).cached()@.capacity
                &&& engine_room(*final(self), requests@.len(), longest_wanted(requests@))
                &&& requests@.len() > 0 ==> r->Ok_0@[0].prefill.cached_prefix
                    == radix_cache::longest_cached(
                    old(self).cached()@.entries,
                    requests@[0].prompt@,
                    requests@[0].prompt@.len(),
                )
            },
    {
        let ghost slots0 = self.slots()@;
        let ghost longest = longest_wanted(requests@);
        let ghost decoder = self.decodes();
        let n: usize = requests.len();
        let mut active: Vec<ActiveRequest> = Vec::with_capacity(n);
        let ghost mut engines: Seq<VeloEngine<R>> = seq![*self];
        assert(slots_cycled(slots0, 0, 0) =~= slots0);
        let mut j: usize = 0;
        while j < n
            invariant
                j <= n,
                n == requests@.len(),
                longest == longest_wanted(requests@),
                slots0 == old(self).slots()@,
                decoder == old(self).decodes(),
                engine_wf(*self),
                same_service(*old(self), *self),
                engine_backed(*old(self)) ==> engine_backed(*self),
                engine_room(*self, (2 * n - j) as nat, longest),
                well_provided(*old(self), requests@) ==> ample(
                    *self,
                    (2 * n - j) as nat,
                    longest,
                ),
                self.cached()@.capacity == old(self).cached()@.capacity,
                j <= slots0.len(),
                self.slots()@ == slots0.skip(j as int),
                active@.len() == j,
                taken_through(engines, requests@, active@),
                engines[0] == *old(self),
                engines[j as int] == *self,
                forall|i: int|
                    0 <= i < j ==> admitted(
                        decoder,
                        old(self).factory(),
                        requests@[i],
                        #[trigger] active@[i],
                    ) && active@[i].slot_id == SlotId(slots0[i]) && slots0[i] < self.slots().max(),
                j == 0 ==> self.cached() == old(self).cached(),
                j > 0 ==> active@[0].prefill.cached_prefix == radix_cache::longest_cached(
                    old(self).cached()@.entries,
                    requests@[0].prompt@,
                    requests@[0].prompt@.len(),
                ),
            decreases n - j,
        {
            let ghost before = *self;
            proof {
                lemma_longest_wanted(requests@, j as int);
                let p = requests@[j as int].prompt@.len();
                let c = (2 * n - j) as nat;
                assert(1 * p <= c * longest) by (nonlinear_arith)
                    requires
                        p <= longest,
                        c >= 1,
                ;
            }
            let outcome: Result<ActiveRequest, EngineError> = self.take_in(&requests[j]);
            proof {
                if well_provided(*old(self), requests@) {
                    assert(ample(before, (2 * n - j) as nat, longest));
                    assert(requests@[j as int].prompt@.len() > 0);
                    lemma_ample_for_fewer(*self, (2 * n - j - 1) as nat, n as nat, longest);
                }
            }
            match outcome {
                Ok(req) => {
                    proof {
                        assert(slots0.skip(j as int).drop_first() =~= slots0.skip(j as int + 1));
                        lemma_room_after_prefill(
                            before,
                            *self,
                            self.memory().the_allocator().pages_of(),
                            requests@[j as int].prompt@,
                            req.prefill,
                            (2 * n - j) as nat,
                            longest,
                        );
                        assert(before.slots()@[0] == slots0[j as int]);
                    }
                    let ghost known = active@;
                    let ghost through = engines;
                    active.push(req);
                    proof {
                        engines = engines.push(*self);
                        assert forall|i: int| 0 <= i < active@.len() implies taken_in(
                            engines[i],
                            requests@[i],
                            #[trigger] active@[i],
                            engines[i + 1],
                        ) by {
                            if i < j {
                                assert(active@[i] == known[i]);
                                assert(taken_in(
                                    through[i],
                                    requests@[i],
                                    known[i],
                                    through[i + 1],
                                ));
                            }
                        }
                    }
                },
                Err(e) => {
                    proof {
                        assert(engines.last() == before);
                        assert(taken_through(engines, requests@, active@));
                        assert(taking_failed(*old(self), requests@, *self, e));
                        if before.slots()@.len() > 0 {
                            assert(slots0.skip(j as int).drop_first() =~= slots_cycled(
                                slots0,
                                j as int + 1,
                                0,
                            ));
                        } else {
                            assert(slots0.skip(j as int) =~= slots_cycled(slots0, j as int, 0));
                        }
                    }
                    return Err(e);
                },
            }
            j = j + 1;
        }
        proof {
            assert(self.slots()@ =~= slots_cycled(slots0, n as int, 0));
            assert((2 * n - n) as nat == n as nat);
            assert(taken_through(engines, requests@, active@));
            assert(slots_given(slots0, old(self).slots().max(), active@));
            assert(all_admitted(*old(self), requests@, active@));
        }
        Ok(active)
    }

    /// Closes the requests of a batch, one after the other. The slots come back in
    /// the order in which they were handed out.
    fn finish_all(
        &mut self,
        requests: &Vec<BatchRequest>,
        active: Vec<ActiveRequest>,
        Ghost(slots0): Ghost<Seq<u32>>,
    ) -> (r: Result<Vec<EngineOutput>, EngineError>)
        requires
            engine_wf(*old(self)),
            engine_room(*old(self), requests@.len(), longest_wanted(requests@)),
            active@.len() == requests@.len() <= slots0.len(),
            old(self).slots()@ == slots_cycled(slots0, requests@.len() as int, 0),
            slots_given(slots0, old(self).slots().max(), active@),
            forall|i: int|
                0 <= i < requests@.len() ==> belongs_to(requests@[i], #[trigger] active@[i]),
            forall|i: int|
                0 <= i < active@.len() ==> on_track(old(self).decodes(), #[trigger] active@[i]),
            none_working(active@),
        ensures
            engine_wf(*final(self)),
            same_service(*old(self), *final(self)),
            engine_backed(*old(self)) ==> engine_backed(*final(self)),
            requests@.len() == 0 ==> r is Ok,
            r is Err ==> closing_failed(
                *old(self),
                active@,
                *final(self),
                r->Err_0,
            ) && slots_after_failure(slots0, final(self).slots()@),
            engine_backed(*old(self)) && ample(
                *old(self),
                requests@.len(),
                longest_wanted(requests@),
            ) ==> r is Ok,
            r is Ok ==> {
                &&& r->Ok_0@.len() == requests@.len()
                &&& closed_in_turn(*old(self), active@, r->Ok_0@, *final(self))
                &&& forall|i: int|
                    0 <= i < requests@.len() ==> delivered(
                        old(self).decodes(),
                        requests@[i],
                        #[trigger] r->Ok_0@[i],
                    ) && delivered_from(active@[i], r->Ok_0@[i])
                &&& final(self).slots()@ == slots_cycled(
                    slots0,
                    requests@.len() as int,
                    requests@.len() as int,
                )
                &&& old(self).cached()@.capacity is None ==> forall|i: int|
                    0 <= i < requests@.len() ==> is_cached(
                        final(self).cached()@.entries,
                        requests@[i].prompt@ + (#[trigger] r->Ok_0@[i]).tokens@,
                    )
                &&& old(self).cached()@.capacity is None && engine_backed(*old(self))
                    ==> forall|i: int|
                    0 <= i < requests@.len() && last_of_its_kind(requests@, r->Ok_0@, i)
                        ==> is_kept(
                        *final(self),
                        requests@[i].prompt@ + (#[trigger] r->Ok_0@[i]).tokens@,
                        r->Ok_0@[i],
                    )
            },
    {
        let n: usize = requests.len();
        let ghost longest = longest_wanted(requests@);
        let ghost decoder = self.decodes();
        let ghost done = active@;
        let mut outputs: Vec<EngineOutput> = Vec::with_capacity(n);
        let mut rest: Vec<ActiveRequest> = active;
        let ghost mut engines: Seq<VeloEngine<R>> = seq![*self];
        let mut j: usize = 0;
        assert(done.skip(0) =~= done);
        while j < n
            invariant
                j <= n,
                n == requests@.len(),
                longest == longest_wanted(requests@),
                n <= slots0.len(),
                decoder == old(self).decodes(),
                engine_wf(*self),
                same_service(*old(self), *self),
                engine_backed(*old(self)) ==> engine_backed(*self),
                engine_room(*self, (n - j) as nat, longest),
                engine_backed(*old(self)) && ample(*old(self), n as nat, longest) ==> ample(
                    *self,
                    (n - j) as nat,
                    longest,
                ),
                self.cached()@.capacity == old(self).cached()@.capacity,
                self.slots()@ == slots_cycled(slots0, n as int, j as int),
                done == active@,
                done.len() == n,
                rest@ == done.skip(j as int),
                slots_given(slots0, self.slots().max(), done),
                forall|i: int|
                    0 <= i < n ==> belongs_to(requests@[i], #[trigger] done[i]),
                forall|i: int| 0 <= i < n ==> on_track(decoder, #[trigger] done[i]),
                forall|i: int| 0 <= i < n ==> !working(#[trigger] done[i]),
                outputs@.len() == j,
                closed_through(engines, done, outputs@),
                engines[0] == *old(self),
                engines[j as int] == *self,
                forall|i: int|
                    0 <= i < j ==> delivered(decoder, requests@[i], #[trigger] outputs@[i])
                        && delivered_from(done[i], outputs@[i]),
                old(self).cached()@.capacity is None ==> forall|i: int|
                    0 <= i < j ==> is_cached(
                        self.cached()@.entries,
                        requests@[i].prompt@ + (#[trigger] outputs@[i]).tokens@,
                    ),
                old(self).cached()@.capacity is None && engine_backed(*old(self)) ==> forall|i: int|
                    0 <= i < j && last_of_its_kind(requests@, outputs@, i) ==> is_kept(
                        *self,
                        requests@[i].prompt@ + (#[trigger] outputs@[i]).tokens@,
                        outputs@[i],
                    ),
            decreases n - j,
        {
            let ghost before = *self;
            let ghost given = outputs@;
            let req: ActiveRequest = rest.remove(0);
            proof {
                assert(req == done[j as int]);
                assert(rest@ =~= done.skip(j as int + 1));
                lemma_longest_wanted(requests@, j as int);
                let p = (req.session@.prompt.len() + req.max_new_tokens) as nat;
                let c = (n - j) as nat;
                assert(1 * p <= c * longest) by (nonlinear_arith)
                    requires
                        p <= longest,
                        c >= 1,
                ;
            }
            let outcome: Result<EngineOutput, EngineError> = self.finish(req);
            proof {
                if engine_backed(*old(self)) && ample(*old(self), n as nat, longest) {
                    assert(ample(before, (n - j) as nat, longest));
                }
            }
            match outcome {
                Ok(out) => {
                    proof {
                        lemma_delivered(decoder, requests@[j as int], done[j as int], out);
                        assert(slots_cycled(slots0, n as int, j as int).push(slots0[j as int])
                            =~= slots_cycled(slots0, n as int, j as int + 1));
                        let full = requests@[j as int].prompt@ + out.tokens@;
                        match out.inserted_handle {
                            Some(h) => {
                                lemma_room_after_insertion(
                                    before,
                                    *self,
                                    full,
                                    h,
                                    (n - j) as nat,
                                    longest,
                                );
                            },
                            None => {
                                assert((n - j - 1) * longest <= (n - j) * longest)
                                    by (nonlinear_arith)
                                    requires
                                        longest >= 0,
                                ;
                            },
                        }
                    }
                    outputs.push(out);
                    proof {
                        assert(outputs@.drop_last() =~= given);
                        let through = engines;
                        engines = engines.push(*self);
                        assert forall|i: int| 0 <= i < outputs@.len() implies closed_by(
                            engines[i],
                            done[i],
                            #[trigger] outputs@[i],
                            engines[i + 1],
                        ) by {
                            if i < j {
                                assert(outputs@[i] == given[i]);
                                assert(closed_by(through[i], done[i], given[i], through[i + 1]));
                            }
                        }
                        if old(self).cached()@.capacity is None {
                            lemma_caching_keeps_cached(before, *self, requests@, given, outputs@);
                            lemma_closed_is_kept(before, done[j as int], out, *self);
                        }
                        if old(self).cached()@.capacity is None && engine_backed(*old(self)) {
                            assert forall|i: int|
                                0 <= i < j + 1 && last_of_its_kind(
                                    requests@,
                                    outputs@,
                                    i,
                                ) implies is_kept(
                                *self,
                                requests@[i].prompt@ + (#[trigger] outputs@[i]).tokens@,
                                outputs@[i],
                            ) by {
                                let own = requests@[i].prompt@ + outputs@[i].tokens@;
                                if i < j {
                                    assert(outputs@[i] == given[i]);
                                    assert(last_of_its_kind(requests@, given, i)) by {
                                        assert forall|k: int| i < k < given.len() implies
                                            requests@[k].prompt@ + (#[trigger] given[k]).tokens@
                                            != requests@[i].prompt@ + given[i].tokens@ by {
                                            assert(outputs@[k] == given[k]);
                                        }
                                    }
                                    assert(outputs@[j as int] == out);
                                    lemma_closing_keeps(
                                        before,
                                        done[j as int],
                                        out,
                                        *self,
                                        own,
                                        outputs@[i],
                                    );
                                }
                            }
                        }
                    }
                },
                Err(e) => {
                    proof {
                        assert(engines.last() == before);
                        assert(closed_through(engines, done, outputs@));
                        assert(closing_failed(*old(self), done, *self, e));
                        assert(slots_cycled(slots0, n as int, j as int).push(slots0[j as int])
                            =~= slots_cycled(slots0, n as int, j as int + 1));
                    }
                    return Err(e);
                },
            }
            j = j + 1;
        }
        assert(closed_through(engines, done, outputs@));
        Ok(outputs)
    }
}

impl<R: MemoryRuntime> VeloEngine<R> {
    /// Generates tokens for multiple requests concurrently using speculative decoding.
    ///
    /// This method orchestrates the draft-and-verify loop for all requests in the batch.
    /// It leverages the `SlotPool` for memory isolation and handles asynchronous finishing
    /// (requests can have different `max_new_tokens` or finish early). A draft that is
    /// longer than asked for is verified and taken over like any other; one that leads
    /// a request past its `max_new_tokens` ends the batch with an error.
    ///
    /// The models, the store and the allocator decide whether it succeeds. Each
    /// request needs a slot of its own until the end.
    pub fn generate_batch<D: DraftModel, T: TargetModel>(
        &mut self,
        draft_model: &mut D,
        target_model: &mut T,
        requests: Vec<BatchRequest>,
    ) -> (r: Result<Vec<EngineOutput>, EngineError>)
        requires
            engine_wf(*old(self)),
            engine_room(*old(self), 2 * requests@.len(), longest_wanted(requests@)),
        ensures
            engine_wf(*final(self)),
            same_service(*old(self), *final(self)),
            engine_backed(*old(self)) ==> engine_backed(*final(self)),
            requests@.len() == 0 ==> r is Ok,
            requests@.len() > old(self).slots()@.len() ==> r is Err,
            r is Err ==> batch_failed::<R, D, T>(
                *old(self),
                *final(self),
                requests@,
                *old(draft_model),
                *old(target_model),
                *final(draft_model),
                *final(target_model),
                r->Err_0,
            ),
            r is Err && well_provided(*old(self), requests@) ==> slot_refusal::<R>(r->Err_0)
                || models_failed(
                *old(self),
                *final(self),
                requests@,
                *old(draft_model),
                *old(target_model),
                *final(draft_model),
                *final(target_model),
                r->Err_0,
            ),
            r is Ok ==> {
                &&& batch_delivered(
                    *old(self),
                    *final(self),
                    requests@,
                    *old(draft_model),
                    *old(target_model),
                    *final(draft_model),
                    *final(target_model),
                    r->Ok_0@,
                )
                &&& r->Ok_0@.len() == requests@.len()
                &&& forall|i: int|
                    0 <= i < requests@.len() ==> delivered(
                        old(self).decodes(),
                        requests@[i],
                        #[trigger] r->Ok_0@[i],
                    )
                &&& final(self).slots()@ == slots_cycled(
                    old(self).slots()@,
                    requests@.len() as int,
                    requests@.len() as int,
                )
                &&& requests@.len() > 0 ==> r->Ok_0@[0].cached_prefix == radix_cache::longest_cached(
                    old(self).cached()@.entries,
                    requests@[0].prompt@,
                    requests@[0].prompt@.len(),
                )
                &&& old(self).cached()@.capacity is None ==> forall|i: int|
                    0 <= i < requests@.len() ==> is_cached(
                        final(self).cached()@.entries,
                        requests@[i].prompt@ + (#[trigger] r->Ok_0@[i]).tokens@,
                    )
                &&& old(self).cached()@.capacity is None && engine_backed(*old(self))
                    ==> forall|i: int|
                    0 <= i < requests@.len() && last_of_its_kind(requests@, r->Ok_0@, i)
                        ==> is_kept(
                        *final(self),
                        requests@[i].prompt@ + (#[trigger] r->Ok_0@[i]).tokens@,
                        r->Ok_0@[i],
                    )
            },
            r is Err ==> slots_after_failure(old(self).slots()@, final(self).slots()@),
    {
        let ghost slots0 = self.slots()@;
        let ghost decoder = self.decodes();
        let ghost n = requests@.len() as int;
        let mut active: Vec<ActiveRequest> = match self.take_all(&requests) {
            Ok(a) => a,
            Err(e) => {
                return Err(e);
            },
        };
        let ghost start = active@;
        let ghost taken = *self;
        proof {
            assert(slots_after_failure(slots0, self.slots()@));
        }

        // Bind slots and prefix caches before starting.
        match bind_all(draft_model, target_model, &active) {
            Ok(_) => {},
            Err(e) => {
                return Err(e);
            },
        }
        let ghost first = Moment { draft: *draft_model, target: *target_model, active: start };
        proof {
            assert forall|i: int| 0 <= i < active@.len() implies on_track(
                decoder,
                #[trigger] active@[i],
            ) by {
                let a = active@[i];
                assert(admitted(decoder, old(self).factory(), requests@[i], a));
                let none: Seq<Seq<TokenId>> = Seq::empty();
                let fresh = decoder.fresh(a.session@.prompt);
                assert(fresh.context + a.generated@ =~= fresh.context);
                assert(led_to(
                    fresh,
                    a.max_new_tokens as nat,
                    a.session@,
                    a.generated@,
                    a.finished,
                    none,
                    none,
                ));
            }
        }
        match run_rounds(&self.decoder, draft_model, target_model, &mut active) {
            Ok(_) => {},
            Err(e) => {
                proof {
                    let now = choose|now: Moment<D, T>| #[trigger]
                        rounds_made(decoder.window(), first, now) && round_failed(
                            decoder.window(),
                            now,
                            *draft_model,
                            *target_model,
                            e,
                        );
                    assert(batch_run(
                        *old(self),
                        requests@,
                        *old(draft_model),
                        *old(target_model),
                        taken,
                        first,
                        now,
                    ));
                }
                return Err(e);
            },
        }
        let ghost last = Moment { draft: *draft_model, target: *target_model, active: active@ };
        assert(batch_run(
            *old(self),
            requests@,
            *old(draft_model),
            *old(target_model),
            taken,
            first,
            last,
        ));

        proof {
            assert forall|i: int| 0 <= i < n implies belongs_to(
                requests@[i],
                #[trigger] active@[i],
            ) by {
                assert(same_request(start[i], active@[i]));
                assert(admitted(decoder, old(self).factory(), requests@[i], start[i]));
            }
            assert(slots_given(slots0, self.slots().max(), active@)) by {
                assert forall|i: int| 0 <= i < active@.len() implies (
                #[trigger] active@[i]).slot_id == SlotId(slots0[i]) && slots0[i]
                    < self.slots().max() by {
                    assert(same_request(start[i], active@[i]));
                    assert(start[i].slot_id == SlotId(slots0[i]));
                }
            }
            if n > 0 {
                assert(same_request(start[0], active@[0]));
            }
        }
        let outputs: Vec<EngineOutput> = match self.finish_all(&requests, active, Ghost(slots0)) {
            Ok(o) => o,
            Err(e) => {
                return Err(e);
            },
        };
        assert(n > 0 ==> delivered_from(last.active[0], outputs@[0]));
        assert(batch_closed(last, *draft_model, *target_model, outputs@));
        Ok(outputs)
    }
}

/// Whether a request asks for up to `max` tokens after a prompt, unconstrained.
pub open spec fn asks_for(req: BatchRequest, prompt: Seq<TokenId>, max: usize) -> bool {
    req.prompt@ == prompt && req.max_new_tokens == max && req.constraint is None
}

impl<R: MemoryRuntime> VeloEngine<R> {
    /// Generates up to `max_new_tokens` tokens after one prompt: a batch of one.
    pub fn generate<D: DraftModel, T: TargetModel>(
        &mut self,
        draft_model: &mut D,
        target_model: &mut T,
        prompt: &[TokenId],
        max_new_tokens: usize,
    ) -> (r: Result<EngineOutput, EngineError>)
        requires
            engine_wf(*old(self)),
            engine_room(*old(self), 2, prompt@.len() + max_new_tokens as nat),
        ensures
            engine_wf(*final(self)),
            same_service(*old(self), *final(self)),
            engine_backed(*old(self)) ==> engine_backed(*final(self)),
            old(self).slots()@.len() == 0 ==> r is Err,
            r is Ok ==> {
                &&& exists|req: BatchRequest|
                    asks_for(req, prompt@, max_new_tokens) && #[trigger] delivered(
                        old(self).decodes(),
                        req,
                        r->Ok_0,
                    ) && batch_delivered(
                        *old(self),
                        *final(self),
                        seq![req],
                        *old(draft_model),
                        *old(target_model),
                        *final(draft_model),
                        *final(target_model),
                        seq![r->Ok_0],
                    )
                &&& r->Ok_0.cached_prefix == radix_cache::longest_cached(
                    old(self).cached()@.entries,
                    prompt@,
                    prompt@.len(),
                )
                &&& final(self).slots()@ == slots_cycled(old(self).slots()@, 1, 1)
                &&& old(self).cached()@.capacity is None ==> is_cached(
                    final(self).cached()@.entries,
                    prompt@ + r->Ok_0.tokens@,
                )
                &&& old(self).cached()@.capacity is None && engine_backed(*old(self)) ==> is_kept(
                    *final(self),
                    prompt@ + r->Ok_0.tokens@,
                    r->Ok_0,
                )
            },
            r is Err ==> slots_after_failure(old(self).slots()@, final(self).slots()@)
                && exists|req: BatchRequest| #[trigger]
                asks_for(req, prompt@, max_new_tokens) && batch_failed::<R, D, T>(
                    *old(self),
                    *final(self),
                    seq![req],
                    *old(draft_model),
                    *old(target_model),
                    *final(draft_model),
                    *final(target_model),
                    r->Err_0,
                ) && (well_provided(*old(self), seq![req]) ==> slot_refusal::<R>(r->Err_0)
                    || models_failed(
                    *old(self),
                    *final(self),
                    seq![req],
                    *old(draft_model),
                    *old(target_model),
                    *final(draft_model),
                    *final(target_model),
                    r->Err_0,
                )),
    {
        let req = BatchRequest { prompt: copied(prompt), max_new_tokens, constraint: None };
        let ghost the_req = req;
        let mut requests: Vec<BatchRequest> = Vec::new();
        requests.push(req);
        proof {
            assert(requests@.drop_last() =~= Seq::empty());
            assert(longest_wanted(requests@.drop_last()) == 0);
            assert(longest_wanted(requests@) == prompt@.len() + max_new_tokens);
            assert(requests@ =~= seq![the_req]);
            assert(asks_for(the_req, prompt@, max_new_tokens));
        }
        match self.generate_batch(draft_model, target_model, requests) {
            Ok(outputs) => {
                let mut outputs: Vec<EngineOutput> = outputs;
                let ghost all = outputs@;
                let output: EngineOutput = outputs.remove(0);
                assert(all =~= seq![output]);
                assert(delivered(old(self).decodes(), the_req, output));
                assert(last_of_its_kind(seq![the_req], all, 0));
                assert(all[0] == output);
                Ok(output)
            },
            Err(e) => Err(e),
        }
    }
}

proof fn lemma_delivered(
    decoder: SpeculativeDecoder,
    req: BatchRequest,
    active: ActiveRequest,
    out: EngineOutput,
)
    requires
        on_track(decoder, active),
        !working(active),
        active.max_new_tokens == req.max_new_tokens,
        active.session@.prompt == req.prompt@,
        accounted(req.prompt@, active.prefill),
        delivered_from(active, out),
    ensures
        delivered(decoder, req, out),
{
    let (drafts, answers) = choose|drafts: Seq<Seq<TokenId>>, answers: Seq<Seq<TokenId>>|
        #[trigger] led_to(
            decoder.fresh(active.session@.prompt),
            active.max_new_tokens as nat,
            active.session@,
            active.generated@,
            active.finished,
            drafts,
            answers,
        );
    assert(delivered_by(
        decoder,
        req.prompt@,
        req.max_new_tokens as nat,
        out,
        drafts,
        answers,
    ));
}

proof fn lemma_caching_keeps_cached<R: MemoryRuntime>(
    before: VeloEngine<R>,
    after: VeloEngine<R>,
    requests: Seq<BatchRequest>,
    given: Seq<EngineOutput>,
    outputs: Seq<EngineOutput>,
)
    requires
        before.cached().wf(),
        before.cached()@.capacity is None,
        outputs.len() <= requests.len(),
        given == outputs.drop_last(),
        outputs.len() > 0,
        ({
            let full = requests[outputs.len() - 1].prompt@ + outputs.last().tokens@;
            after.cached()@ == (match outputs.last().inserted_handle {
                Some(h) => inserted(before.cached()@, full, h),
                None => before.cached()@,
            }) && (outputs.last().inserted_handle is None ==> full.len() == 0)
        }),
        forall|i: int|
            0 <= i < given.len() ==> is_cached(
                before.cached()@.entries,
                requests[i].prompt@ + (#[trigger] given[i]).tokens@,
            ),
    ensures
        forall|i: int|
            0 <= i < outputs.len() ==> is_cached(
                after.cached()@.entries,
                requests[i].prompt@ + (#[trigger] outputs[i]).tokens@,
            ),
{
    radix_cache::wf_is_sound(before.cached());
    let c = before.cached()@;
    let full = requests[outputs.len() - 1].prompt@ + outputs.last().tokens@;
    assert forall|i: int| 0 <= i < outputs.len() implies is_cached(
        after.cached()@.entries,
        requests[i].prompt@ + (#[trigger] outputs[i]).tokens@,
    ) by {
        let own = requests[i].prompt@ + outputs[i].tokens@;
        if outputs.last().inserted_handle is Some {
            radix_cache::stored_is_read_back(
                c.entries,
                full,
                outputs.last().inserted_handle->0,
                radix_cache::tick_after(c.clock),
                own,
            );
        }
        if i < given.len() {
            assert(given[i] == outputs[i]);
        }
    }
}

/// What closing a request delivers.
pub open spec fn delivered_from(req: ActiveRequest, out: EngineOutput) -> bool {
    &&& out.tokens == req.generated
    &&& out.cached_prefix == req.prefill.cached_prefix
    &&& out.cached_pages == req.prefill.cached_pages
    &&& out.stats.speculative == req.session@.stats
    &&& out.stats.cache_hit_tokens == req.prefill.stats.cache_hit_tokens
    &&& out.stats.cache_miss_tokens == req.prefill.stats.cache_miss_tokens
    &&& match out.inserted_handle {
        Some(h) => h.token_len == req.session@.prompt.len() + req.generated@.len(),
        None => req.session@.prompt.len() + req.generated@.len() == 0,
    }
}

/// Feeds a matcher with some tokens.
fn feed(matcher: &mut LlguidanceMatcher, tokens: &Vec<TokenId>)
    ensures
        final(matcher).fed() == old(matcher).fed() + tokens@,
        final(matcher).grammar() == old(matcher).grammar(),
        final(matcher).compiled_by() == old(matcher).compiled_by(),
        final(matcher).vocab() == old(matcher).vocab(),
{
    let ghost before = matcher.fed();
    let mut i: usize = 0;
    assert(before + tokens@.take(0) =~= before);
    while i < tokens.len()
        invariant
            i <= tokens@.len(),
            matcher.fed() == before + tokens@.take(i as int),
            matcher.grammar() == old(matcher).grammar(),
            matcher.compiled_by() == old(matcher).compiled_by(),
            matcher.vocab() == old(matcher).vocab(),
        decreases tokens@.len() - i,
    {
        matcher.advance(tokens[i]);
        i = i + 1;
        assert(before + tokens@.take(i as int) =~= (before + tokens@.take(i as int - 1)).push(
            tokens@[i as int - 1],
        ));
    }
    assert(tokens@.take(i as int) =~= tokens@);
}

/// The page numbers of a span as the GPU's page table has them, 32 bits wide.
fn page_numbers(span: &PageSpan) -> (numbers: Vec<u32>)
    ensures
        numbers@ == span.pages@.map_values(|p: PageId| p.0 as u32),
{
    let mut numbers: Vec<u32> = Vec::with_capacity(span.pages.len());
    let mut i: usize = 0;
    while i < span.pages.len()
        invariant
            i <= span.pages@.len(),
            numbers@ == span.pages@.map_values(|p: PageId| p.0 as u32).take(i as int),
        decreases span.pages@.len() - i,
    {
        numbers.push(span.pages[i].0 as u32);
        i = i + 1;
        assert(numbers@ =~= span.pages@.map_values(|p: PageId| p.0 as u32).take(i as int));
    }
    assert(numbers@ =~= span.pages@.map_values(|p: PageId| p.0 as u32));
    numbers
}

/// Whether `span` holds the pages of `handle`: none without a handle or
/// without pages for it.
pub open spec fn spans(
    pages: Map<u64, Seq<PageId>>,
    handle: Option<KvCacheHandle>,
    span: Option<PageSpan>,
) -> bool {
    match handle {
        Some(h) => {
            &&& span is Some <==> pages.contains_key(h.block_id)
            &&& span is Some ==> span->0.pages@ == pages[h.block_id]
        },
        None => span is None,
    }
}

/// Whether the block of `handle` came into a store, and the block that it
/// replaced, if any, went.
pub open spec fn reblocked(
    before: Map<u64, KvCacheHandle>,
    replaced: Option<KvCacheHandle>,
    handle: KvCacheHandle,
    after: Map<u64, KvCacheHandle>,
) -> bool {
    match replaced {
        Some(old_handle) => after == before.insert(handle.block_id, handle).remove(
            old_handle.block_id,
        ),
        None => after == before.insert(handle.block_id, handle),
    }
}

/// Whether a prefill took from memory what it reports: a new block with pages for
/// the handle that it inserted, or nothing.
pub open spec fn stocked<R: MemoryRuntime>(before: R, out: EnginePrefillOutput, after: R) -> bool {
    match out.inserted_handle {
        Some(h) => {
            &&& !before.the_store().held().contains_key(h.block_id)
            &&& reblocked(before.the_store().held(), None, h, after.the_store().held())
            &&& repaged(
                before.the_allocator().pages_of(),
                None,
                h,
                after.the_allocator().pages_of(),
            )
        },
        None => after.the_store() == before.the_store() && after.the_allocator()
            == before.the_allocator(),
    }
}

/// Whether there is room in memory for a block of that many tokens.
pub open spec fn can_hold<R: MemoryRuntime>(memory: R, len: nat) -> bool {
    memory.the_store().grants(len as usize) && memory.the_allocator().can_map(len as usize)
}

/// The error with which the memory refuses a block of that many tokens: that of the
/// store, or where the store has room, that of the allocator.
pub open spec fn memory_refusal<R: MemoryRuntime>(memory: R, len: nat) -> EngineError {
    if !memory.the_store().grants(len as usize) {
        EngineError::KvStore(memory.the_store().refusal(len as usize))
    } else {
        EngineError::PagedAttention(memory.the_allocator().refusal(len as usize))
    }
}

/// What is left where a sequence was cached under `h`, but the block that it
/// replaces is not in the store, or has no pages. This never happens as long as
/// what is cached is backed by memory.
pub open spec fn stuck<R: MemoryRuntime>(
    before: VeloEngine<R>,
    tokens: Seq<TokenId>,
    h: KvCacheHandle,
    after: VeloEngine<R>,
    e: EngineError,
) -> bool {
    let replaced = radix_cache::handle_on(before.cached()@.entries, tokens);
    let held = before.memory().the_store().held().insert(h.block_id, h);
    &&& h.token_len == tokens.len()
    &&& !before.memory().the_store().held().contains_key(h.block_id)
    &&& after.cached()@ == inserted(before.cached()@, tokens, h)
    &&& repaged(
        before.memory().the_allocator().pages_of(),
        None,
        h,
        after.memory().the_allocator().pages_of(),
    )
    &&& replaced is Some
    &&& {
        ||| e == EngineError::KvStore(KvStoreError::UnknownBlock(replaced->0))
            && after.memory().the_store().held() == held
        ||| e == EngineError::PagedAttention(PageManagerError::UnknownHandle(replaced->0))
            && after.memory().the_store().held() == held.remove(replaced->0.block_id)
            && !after.memory().the_allocator().pages_of().contains_key(replaced->0.block_id)
    }
}

/// What a prefill that fails with `e` leaves: the memory refuses the prompt, and
/// nothing changes but that its cached prefixes count as used.
pub open spec fn prefill_failed<R: MemoryRuntime>(
    before: VeloEngine<R>,
    prompt: Seq<TokenId>,
    after: VeloEngine<R>,
    e: EngineError,
) -> bool {
    &&& wants_block(before.cached()@, prompt)
    &&& !can_hold(before.memory(), prompt.len())
    &&& e == memory_refusal(before.memory(), prompt.len())
    &&& after.memory().page_table() == before.memory().page_table()
    &&& after.cached()@ == looked_up(before.cached()@, prompt)
    &&& same_handles(before.cached()@, after.cached()@)
    &&& memory_kept(before.memory(), after.memory())
}

/// Whether a store holds the same blocks and an allocator has the same pages.
pub open spec fn memory_kept<R: MemoryRuntime>(before: R, after: R) -> bool {
    &&& after.the_store().held() == before.the_store().held()
    &&& after.the_store().total_bytes() == before.the_store().total_bytes()
    &&& after.the_allocator().pages_of() == before.the_allocator().pages_of()
    &&& after.the_allocator().pages_free() == before.the_allocator().pages_free()
}

/// Whether the block of `handle` got pages, and the block that it replaced, if
/// any, gave its own back.
pub open spec fn repaged(
    before: Map<u64, Seq<PageId>>,
    replaced: Option<KvCacheHandle>,
    handle: KvCacheHandle,
    after: Map<u64, Seq<PageId>>,
) -> bool {
    match replaced {
        Some(old_handle) => exists|span: Seq<PageId>|
            after == (#[trigger] before.insert(handle.block_id, span)).remove(old_handle.block_id),
        None => exists|span: Seq<PageId>|
            after == #[trigger] before.insert(handle.block_id, span),
    }
}

/// Whether a prompt is to be cached: it is not empty and not cached yet.
pub open spec fn wants_block(cache: radix_cache::CacheModel, prompt: Seq<TokenId>) -> bool {
    prompt.len() > 0 && radix_cache::longest_cached(
        cache.entries,
        prompt,
        prompt.len(),
    ).matched_tokens < prompt.len()
}

/// Whether two states of a cache hold the same handles on the same prefixes.
pub open spec fn same_handles(a: radix_cache::CacheModel, b: radix_cache::CacheModel) -> bool {
    &&& radix_cache::handles_held(a.entries) == radix_cache::handles_held(b.entries)
    &&& radix_cache::tokens_resident(a.entries) == radix_cache::tokens_resident(b.entries)
    &&& forall|p: Seq<TokenId>| #[trigger]
        radix_cache::handle_on(a.entries, p) == radix_cache::handle_on(b.entries, p)
}

/// The cache after a lookup.
pub open spec fn looked_up(cache: radix_cache::CacheModel, tokens: Seq<TokenId>) -> radix_cache::CacheModel {
    let tick = radix_cache::tick_after(cache.clock);
    radix_cache::CacheModel {
        entries: radix_cache::touched(cache.entries, tokens, tick),
        clock: tick,
        ..cache
    }
}

/// What a successful prefill reports and leaves behind: the longest cached
/// prefix; where the prompt was to be cached, a handle on it; the pages of both;
/// and how many tokens the cache had and had not.
pub open spec fn prefilled(
    before: radix_cache::CacheModel,
    after: radix_cache::CacheModel,
    pages: Map<u64, Seq<PageId>>,
    prompt: Seq<TokenId>,
    out: EnginePrefillOutput,
) -> bool {
    let found = radix_cache::longest_cached(before.entries, prompt, prompt.len());
    &&& out.cached_prefix == found
    &&& out.inserted_handle is Some <==> wants_block(before, prompt)
    &&& match out.inserted_handle {
        Some(h) => h.token_len == prompt.len() && after == inserted(
            looked_up(before, prompt),
            prompt,
            h,
        ),
        None => after == looked_up(before, prompt),
    }
    &&& spans(pages, found.handle, out.cached_pages)
    &&& spans(pages, out.inserted_handle, out.inserted_pages)
    &&& out.stats == (EngineStats {
        cache_hit_tokens: found.matched_tokens,
        cache_miss_tokens: (prompt.len() - found.matched_tokens) as usize,
        speculative: speculative::no_stats(),
    })
}

proof fn lemma_cached_handle_has_pages(
    entries: Seq<radix_cache::CacheEntry>,
    held: Map<u64, KvCacheHandle>,
    pages: Map<u64, Seq<PageId>>,
    p: Seq<TokenId>,
)
    requires
        backed(entries, held, pages),
        radix_cache::handle_on(entries, p) is Some,
    ensures
        pages.contains_key(radix_cache::handle_on(entries, p)->0.block_id),
{
    let i = radix_cache::entry_of(entries, p);
    assert(0 <= i < entries.len() && entries[i].prefix == p);
    assert(entries[i].handle is Some);
}

proof fn lemma_backed_by_handles(
    a: Seq<radix_cache::CacheEntry>,
    b: Seq<radix_cache::CacheEntry>,
    held: Map<u64, KvCacheHandle>,
    pages: Map<u64, Seq<PageId>>,
)
    requires
        a.len() == b.len(),
        forall|i: int| 0 <= i < a.len() ==> (#[trigger] a[i]).handle == b[i].handle,
    ensures
        backed(a, held, pages) ==> backed(b, held, pages),
{
    if backed(a, held, pages) {
        assert forall|i: int| 0 <= i < b.len() && (#[trigger] b[i]).handle is Some implies
            held.contains_pair(b[i].handle->0.block_id, b[i].handle->0) && pages.contains_key(
            b[i].handle->0.block_id,
        ) by {
            assert(a[i].handle == b[i].handle);
        }
        assert forall|i: int, j: int|
            0 <= i < b.len() && 0 <= j < b.len() && (#[trigger] b[i]).handle is Some && (
            #[trigger] b[j]).handle is Some && b[i].handle->0.block_id
                == b[j].handle->0.block_id implies i == j by {
            assert(a[i].handle == b[i].handle);
            assert(a[j].handle == b[j].handle);
        }
    }
}

/// The cache after a sequence was inserted.
pub open spec fn inserted(
    cache: radix_cache::CacheModel,
    tokens: Seq<TokenId>,
    handle: KvCacheHandle,
) -> radix_cache::CacheModel {
    let tick = radix_cache::tick_after(cache.clock);
    radix_cache::CacheModel {
        entries: radix_cache::trimmed(
            radix_cache::stored(cache.entries, tokens, handle, tick),
            cache.capacity,
        ),
        clock: tick,
        ..cache
    }
}

proof fn lemma_insertion_stays_backed(
    cache: radix_cache::CacheModel,
    held: Map<u64, KvCacheHandle>,
    pages: Map<u64, Seq<PageId>>,
    tokens: Seq<TokenId>,
    handle: KvCacheHandle,
    span: Seq<PageId>,
)
    requires
        radix_cache::sound(cache.entries),
        backed(cache.entries, held, pages),
        !held.contains_key(handle.block_id),
    ensures
        ({
            let after = inserted(cache, tokens, handle).entries;
            let id = handle.block_id;
            let held1 = held.insert(id, handle);
            let pages1 = pages.insert(id, span);
            match radix_cache::handle_on(cache.entries, tokens) {
                Some(r) => {
                    &&& held1.contains_pair(r.block_id, r)
                    &&& pages1.contains_key(r.block_id)
                    &&& r.block_id != id
                    &&& backed(after, held1.remove(r.block_id), pages1.remove(r.block_id))
                },
                None => backed(after, held1, pages1),
            }
        }),
{
    let entries = cache.entries;
    let tick = radix_cache::tick_after(cache.clock);
    let full = radix_cache::stored(entries, tokens, handle, tick);
    let leaf = radix_cache::storing_changes_one_handle(entries, tokens, handle, tick);
    let after = inserted(cache, tokens, handle).entries;
    let id = handle.block_id;
    let replaced = radix_cache::handle_on(entries, tokens);
    if cache.capacity is Some {
        let c = cache.capacity->0;
        if radix_cache::tokens_resident(full) > c {
            radix_cache::eviction_spares_the_warmest(
                full,
                (radix_cache::tokens_resident(full) - c) as nat,
            );
        }
    }
    assert(after.len() == full.len());
    assert forall|i: int| 0 <= i < after.len() && (#[trigger] after[i]).handle is Some implies
        after[i].handle == full[i].handle by {
    }
    let (held2, pages2) = match replaced {
        Some(r) => (
            held.insert(id, handle).remove(r.block_id),
            pages.insert(id, span).remove(r.block_id),
        ),
        None => (held.insert(id, handle), pages.insert(id, span)),
    };
    if replaced is Some {
        assert(entries[leaf].handle is Some);
    }
    assert forall|i: int| 0 <= i < after.len() && (#[trigger] after[i]).handle is Some implies
        held2.contains_pair(after[i].handle->0.block_id, after[i].handle->0)
            && pages2.contains_key(after[i].handle->0.block_id) by {
        assert(after[i].handle == full[i].handle);
        if i != leaf {
            assert(i < entries.len());
            assert(entries[i].handle is Some);
        }
    }
    assert forall|i: int, j: int|
        0 <= i < after.len() && 0 <= j < after.len() && (#[trigger] after[i]).handle is Some && (
        #[trigger] after[j]).handle is Some && after[i].handle->0.block_id
            == after[j].handle->0.block_id implies i == j by {
        assert(after[i].handle == full[i].handle);
        assert(after[j].handle == full[j].handle);
        if i != leaf {
            assert(entries[i].handle is Some);
        }
        if j != leaf {
            assert(entries[j].handle is Some);
        }
    }
}

/// Whether two states of an engine serve requests in the same way: they decode
/// alike, and their memory takes the same slots and sizes.
pub open spec fn same_service<R: MemoryRuntime>(a: VeloEngine<R>, b: VeloEngine<R>) -> bool {
    &&& a.decodes() == b.decodes()
    &&& a.factory() == b.factory()
    &&& a.slots().max() == b.slots().max()
    &&& a.memory().the_store().longest_block() == b.memory().the_store().longest_block()
}

// ---------------------------------------------------------------------------
// Laws
// ---------------------------------------------------------------------------

/// Whether a target model of which `holds` is true answers drafts without a
/// matcher with the tokens of `next`, in a batch too, and `holds` stays true of
/// it.
pub open spec fn follows_in_batches<T: TargetModel>(
    holds: spec_fn(T) -> bool,
    next: spec_fn(Seq<TokenId>) -> TokenId,
) -> bool {
    forall|before: T, asks: Seq<VerifyAsk>, after: T, left: Seq<VerifyAsk>, v: Vec<Vec<VerifyStep>>|
        #[trigger] speculative::verified_batch(before, asks, after, left, Ok(v)) && holds(before)
            ==> holds(after) && forall|j: int|
            0 <= j < asks.len() && (#[trigger] asks[j]).fed is None ==> left[j].fed is None
                && answers_as(asks[j], v@[j]@, next)
}

/// Whether a verdict, if it is complete, consists of the tokens of `next`.
pub open spec fn answers_as(
    ask: VerifyAsk,
    steps: Seq<VerifyStep>,
    next: spec_fn(Seq<TokenId>) -> TokenId,
) -> bool {
    steps.len() == ask.drafted.len() ==> forall|i: int|
        0 <= i < steps.len() ==> (#[trigger] steps[i]).expected == next(
            ask.context + ask.drafted.take(i),
        )
}

/// Whether `holds` stays true of a target model that is told about a request.
pub open spec fn kept_when_bound<T: TargetModel>(holds: spec_fn(T) -> bool) -> bool {
    &&& forall|before: T, slot: SlotId, after: T|
        #[trigger] speculative::target_slot_bound(before, slot, after, Ok(())) && holds(before)
            ==> holds(after)
    &&& forall|before: T, prefix: CacheLookup, after: T|
        #[trigger] speculative::target_prefix_bound(before, prefix, after, Ok(())) && holds(before)
            ==> holds(after)
}

/// Whether a draft model of which `holds` is true proposes something wherever tokens
/// are asked for, in a batch too, and `holds` stays true of it.
pub open spec fn proposes_in_batches<D: DraftModel>(holds: spec_fn(D) -> bool) -> bool {
    forall|
        before: D,
        asks: Seq<DraftAsk>,
        after: D,
        left: Seq<DraftAsk>,
        drafts: Vec<Vec<NextTokenPrediction>>,
    | #[trigger]
        speculative::drafted_batch(before, asks, after, left, Ok(drafts)) && holds(before)
            ==> holds(after) && forall|j: int|
            0 <= j < asks.len() && (#[trigger] asks[j]).max_tokens > 0 ==> drafts@[j]@.len() > 0
}

/// Whether `holds` stays true of a draft model that is told about a request.
pub open spec fn drafter_kept_when_bound<D: DraftModel>(holds: spec_fn(D) -> bool) -> bool {
    &&& forall|before: D, slot: SlotId, after: D|
        #[trigger] speculative::draft_slot_bound(before, slot, after, Ok(())) && holds(before)
            ==> holds(after)
    &&& forall|before: D, prefix: CacheLookup, after: D|
        #[trigger] speculative::draft_prefix_bound(before, prefix, after, Ok(())) && holds(before)
            ==> holds(after)
}

/// With a draft model that proposes something wherever tokens are asked for, a
/// batch ends with all tokens that its requests wanted, or with an error.
pub proof fn batches_are_complete<R: MemoryRuntime, D: DraftModel, T: TargetModel>(
    before: VeloEngine<R>,
    after: VeloEngine<R>,
    requests: Seq<BatchRequest>,
    draft0: D,
    target0: T,
    draft1: D,
    target1: T,
    outputs: Seq<EngineOutput>,
    holds: spec_fn(D) -> bool,
    i: int,
)
    requires
        batch_delivered(before, after, requests, draft0, target0, draft1, target1, outputs),
        requests.len() <= usize::MAX,
        0 <= i < requests.len(),
        before.decodes().window() > 0,
        holds(draft0),
        proposes_in_batches(holds),
        drafter_kept_when_bound(holds),
    ensures
        outputs[i].tokens@.len() == requests[i].max_new_tokens,
{
    let window = before.decodes().window();
    let (taken, first, last) = choose|
        taken: VeloEngine<R>,
        first: Moment<D, T>,
        last: Moment<D, T>,
    | #[trigger]
        batch_run(before, requests, draft0, target0, taken, first, last) && batch_closed(
            last,
            draft1,
            target1,
            outputs,
        ) && closed_in_turn(taken, last.active, outputs, after);
    let (drafters, targets) = choose|drafters: Seq<D>, targets: Seq<T>| #[trigger]
        bound_in_turn(first.active, first.active.len() as int, drafters, targets) && drafters[0]
            == draft0 && targets[0] == target0 && drafters.last() == first.draft && targets.last()
            == first.target;
    lemma_bindings_keep_drafter(
        first.active,
        first.active.len() as int,
        drafters,
        targets,
        holds,
        first.active.len() as int,
    );
    let moments = choose|moments: Seq<Moment<D, T>>| #[trigger]
        round_chain(window, moments) && moments[0] == first && moments.last() == last;
    assert(admitted(before.decodes(), before.factory(), requests[i], first.active[i]));
    lemma_rounds_do_not_finish_early(window, moments, moments.len() - 1, holds, i);
    assert(!working(last.active[i]));
    assert(delivered_from(last.active[i], outputs[i]));
}

proof fn lemma_bindings_keep_drafter<D: DraftModel, T: TargetModel>(
    active: Seq<ActiveRequest>,
    n: int,
    drafters: Seq<D>,
    targets: Seq<T>,
    holds: spec_fn(D) -> bool,
    k: int,
)
    requires
        bound_in_turn(active, n, drafters, targets),
        holds(drafters[0]),
        drafter_kept_when_bound(holds),
        0 <= k <= n,
    ensures
        holds(drafters[k]),
    decreases k,
{
    if k > 0 {
        lemma_bindings_keep_drafter(active, n, drafters, targets, holds, k - 1);
        let slot = active[k - 1].slot_id;
        let prefix = active[k - 1].prefill.cached_prefix;
        assert(speculative::models_bound(
            slot,
            prefix,
            drafters[k - 1],
            targets[k - 1],
            drafters[k - 1 + 1],
            targets[k - 1 + 1],
        ));
        let (draft, target) = choose|draft: D, target: T| #[trigger]
            speculative::bound_through(
                slot,
                prefix,
                drafters[k - 1],
                targets[k - 1],
                draft,
                target,
                drafters[k],
                targets[k],
                Ok(()),
            );
        assert(holds(draft));
    }
}

proof fn lemma_rounds_do_not_finish_early<D: DraftModel, T: TargetModel>(
    window: usize,
    moments: Seq<Moment<D, T>>,
    n: int,
    holds: spec_fn(D) -> bool,
    i: int,
)
    requires
        round_chain(window, moments),
        0 <= n < moments.len(),
        moments[0].active.len() <= usize::MAX,
        0 <= i < moments[0].active.len(),
        !moments[0].active[i].finished,
        moments[0].active[i].generated@.len() == 0,
        window > 0,
        holds(moments[0].draft),
        proposes_in_batches(holds),
    ensures
        moments[n].active.len() == moments[0].active.len(),
        holds(moments[n].draft),
        !moments[n].active[i].finished,
        moments[n].active[i].max_new_tokens == moments[0].active[i].max_new_tokens,
        moments[n].active[i].generated@.len() <= moments[n].active[i].max_new_tokens,
    decreases n,
{
    if n > 0 {
        lemma_rounds_do_not_finish_early(window, moments, n - 1, holds, i);
        let before = moments[n - 1];
        let after = moments[n];
        assert(round_made(window, moments[n - 1], moments[n - 1 + 1]));
        let (drafts, answers, left) = choose|
            drafts: Vec<Vec<NextTokenPrediction>>,
            answers: Vec<Vec<VerifyStep>>,
            left: Seq<VerifyAsk>,
        | #[trigger]
            round_made_by(window, before, after, drafts, answers, left);
        lemma_working_at(before.active, before.active.len());
        let who = working_at(before.active, before.active.len());
        let asks = drafts_wanted(before.active, window);
        let dleft = choose|left: Seq<DraftAsk>| #[trigger]
            speculative::drafted_batch(before.draft, asks, after.draft, left, Ok(drafts));
        assert(speculative::drafted_batch(before.draft, asks, after.draft, dleft, Ok(drafts)));
        if working(before.active[i]) {
            let k = who.index_of(i as usize);
            assert(who.contains(i as usize));
            assert(who[k] == i as usize);
            assert(asks[k].max_tokens > 0);
            assert(request_settled(
                before.active[who[k] as int],
                after.active[who[k] as int],
                drafts@[k]@,
                answers@[k]@,
            ));
        }
    }
}

/// Whether a draft model of which `holds` is true never fails and never proposes more
/// than it is asked for, and `holds` stays true of it.
pub open spec fn able_drafter<D: DraftModel>(holds: spec_fn(D) -> bool) -> bool {
    &&& forall|
        before: D,
        asks: Seq<DraftAsk>,
        after: D,
        left: Seq<DraftAsk>,
        r: Result<Vec<Vec<NextTokenPrediction>>, SpeculativeError>,
    | #[trigger]
        speculative::drafted_batch(before, asks, after, left, r) && holds(before) ==> r is Ok
            && holds(after) && forall|j: int|
            0 <= j < asks.len() ==> r->Ok_0@[j]@.len() <= (#[trigger] asks[j]).max_tokens
    &&& forall|before: D, slot: SlotId, after: D, r: Result<(), SpeculativeError>| #[trigger]
        speculative::draft_slot_bound(before, slot, after, r) && holds(before) ==> r is Ok
            && holds(after)
    &&& forall|before: D, prefix: CacheLookup, after: D, r: Result<(), SpeculativeError>|
        #[trigger]
        speculative::draft_prefix_bound(before, prefix, after, r) && holds(before) ==> r is Ok
            && holds(after)
}

/// Whether a target model of which `holds` is true never fails and answers each
/// draft with one step for each of its tokens, and `holds` stays true of it.
pub open spec fn able_target<T: TargetModel>(holds: spec_fn(T) -> bool) -> bool {
    &&& forall|
        before: T,
        asks: Seq<VerifyAsk>,
        after: T,
        left: Seq<VerifyAsk>,
        r: Result<Vec<Vec<VerifyStep>>, SpeculativeError>,
    | #[trigger]
        speculative::verified_batch(before, asks, after, left, r) && holds(before) ==> r is Ok
            && holds(after) && forall|j: int|
            0 <= j < asks.len() ==> r->Ok_0@[j]@.len() == (#[trigger] asks[j]).drafted.len()
    &&& forall|before: T, slot: SlotId, after: T, r: Result<(), SpeculativeError>| #[trigger]
        speculative::target_slot_bound(before, slot, after, r) && holds(before) ==> r is Ok
            && holds(after)
    &&& forall|before: T, prefix: CacheLookup, after: T, r: Result<(), SpeculativeError>|
        #[trigger]
        speculative::target_prefix_bound(before, prefix, after, r) && holds(before) ==> r is Ok
            && holds(after)
}

/// Models that never fail, and answer with as many tokens as they are asked for at
/// most and with one step for each drafted token, do not fail a batch.
pub proof fn able_models_fail_no_batch<R: MemoryRuntime, D: DraftModel, T: TargetModel>(
    before: VeloEngine<R>,
    after: VeloEngine<R>,
    requests: Seq<BatchRequest>,
    draft0: D,
    target0: T,
    draft1: D,
    target1: T,
    e: EngineError,
    drafter: spec_fn(D) -> bool,
    target: spec_fn(T) -> bool,
)
    requires
        requests.len() <= usize::MAX,
        drafter(draft0),
        target(target0),
        able_drafter(drafter),
        able_target(target),
    ensures
        !models_failed(before, after, requests, draft0, target0, draft1, target1, e),
{
    let window = before.decodes().window();
    if models_failed(before, after, requests, draft0, target0, draft1, target1, e) {
        if exists|first: Moment<D, T>, last: Moment<D, T>| #[trigger]
            batch_run(before, requests, draft0, target0, after, first, last) && round_failed(
                window,
                last,
                draft1,
                target1,
                e,
            ) {
            let (first, last) = choose|first: Moment<D, T>, last: Moment<D, T>| #[trigger]
                batch_run(before, requests, draft0, target0, after, first, last) && round_failed(
                    window,
                    last,
                    draft1,
                    target1,
                    e,
                );
            let (drafters, targets) = choose|drafters: Seq<D>, targets: Seq<T>| #[trigger]
                bound_in_turn(first.active, first.active.len() as int, drafters, targets)
                    && drafters[0] == draft0 && targets[0] == target0 && drafters.last()
                    == first.draft && targets.last() == first.target;
            let n = first.active.len() as int;
            lemma_bindings_keep_drafter(first.active, n, drafters, targets, drafter, n);
            lemma_bindings_keep(first.active, n, drafters, targets, target, n);
            let moments = choose|moments: Seq<Moment<D, T>>| #[trigger]
                round_chain(window, moments) && moments[0] == first && moments.last() == last;
            lemma_models_stay_able(window, moments, moments.len() - 1, drafter, target);
            lemma_able_round(window, last, draft1, target1, e, drafter, target);
        } else {
            let active = choose|active: Seq<ActiveRequest>| #[trigger]
                requests_taken(before, requests, active, after) && some_refused(
                    active,
                    draft0,
                    target0,
                    draft1,
                    target1,
                    e,
                );
            let (n, drafters, targets) = choose|n: int, drafters: Seq<D>, targets: Seq<T>|
                #[trigger]
                bound_in_turn(active, n, drafters, targets) && drafters[0] == draft0
                    && targets[0] == target0 && n < active.len() && e is Speculative
                    && speculative::binding_refused(
                    active[n].slot_id,
                    active[n].prefill.cached_prefix,
                    drafters[n],
                    targets[n],
                    draft1,
                    target1,
                    e->Speculative_0,
                );
            lemma_bindings_keep_drafter(active, n, drafters, targets, drafter, n);
            lemma_bindings_keep(active, n, drafters, targets, target, n);
        }
    }
}

proof fn lemma_models_stay_able<D: DraftModel, T: TargetModel>(
    window: usize,
    moments: Seq<Moment<D, T>>,
    n: int,
    drafter: spec_fn(D) -> bool,
    target: spec_fn(T) -> bool,
)
    requires
        round_chain(window, moments),
        0 <= n < moments.len(),
        moments[0].active.len() <= usize::MAX,
        drafter(moments[0].draft),
        target(moments[0].target),
        able_drafter(drafter),
        able_target(target),
    ensures
        moments[n].active.len() == moments[0].active.len(),
        drafter(moments[n].draft),
        target(moments[n].target),
    decreases n,
{
    if n > 0 {
        lemma_models_stay_able(window, moments, n - 1, drafter, target);
        let before = moments[n - 1];
        let after = moments[n];
        assert(round_made(window, moments[n - 1], moments[n - 1 + 1]));
        let (drafts, answers, left) = choose|
            drafts: Vec<Vec<NextTokenPrediction>>,
            answers: Vec<Vec<VerifyStep>>,
            left: Seq<VerifyAsk>,
        | #[trigger]
            round_made_by(window, before, after, drafts, answers, left);
        let asks = drafts_wanted(before.active, window);
        let dleft = choose|left: Seq<DraftAsk>| #[trigger]
            speculative::drafted_batch(before.draft, asks, after.draft, left, Ok(drafts));
        assert(speculative::drafted_batch(before.draft, asks, after.draft, dleft, Ok(drafts)));
        assert(speculative::verified_batch(
            before.target,
            verdicts_wanted(before.active, drafts@),
            after.target,
            left,
            Ok(answers),
        ));
    }
}

proof fn lemma_able_round<D: DraftModel, T: TargetModel>(
    window: usize,
    now: Moment<D, T>,
    draft: D,
    target: T,
    e: EngineError,
    able: spec_fn(D) -> bool,
    steady: spec_fn(T) -> bool,
)
    requires
        now.active.len() <= usize::MAX,
        able(now.draft),
        steady(now.target),
        able_drafter(able),
        able_target(steady),
    ensures
        !round_failed(window, now, draft, target, e),
{
    if round_failed(window, now, draft, target, e) {
        let asks = drafts_wanted(now.active, window);
        let who = working_at(now.active, now.active.len());
        lemma_working_at(now.active, now.active.len());
        if e is Speculative && drafts_made(
            now.draft,
            now.active,
            window,
            draft,
            Err(e->Speculative_0),
        ) {
            let left = choose|left: Seq<DraftAsk>| #[trigger]
                speculative::drafted_batch(now.draft, asks, draft, left, Err(e->Speculative_0));
            assert(speculative::drafted_batch(
                now.draft,
                asks,
                draft,
                left,
                Err(e->Speculative_0),
            ));
        } else {
            let drafts = choose|drafts: Vec<Vec<NextTokenPrediction>>| #[trigger]
                verdicts_failed(now.target, now.active, window, drafts, target, e) && drafts_made(
                    now.draft,
                    now.active,
                    window,
                    draft,
                    Ok(drafts),
                );
            let dleft = choose|left: Seq<DraftAsk>| #[trigger]
                speculative::drafted_batch(now.draft, asks, draft, left, Ok(drafts));
            assert(speculative::drafted_batch(now.draft, asks, draft, dleft, Ok(drafts)));
            let questions = verdicts_wanted(now.active, drafts@);
            if e is Speculative && exists|left: Seq<VerifyAsk>| #[trigger]
                verdicts_made(
                    now.target,
                    now.active,
                    drafts@,
                    target,
                    left,
                    Err(e->Speculative_0),
                ) {
                let left = choose|left: Seq<VerifyAsk>| #[trigger]
                    verdicts_made(
                        now.target,
                        now.active,
                        drafts@,
                        target,
                        left,
                        Err(e->Speculative_0),
                    );
                assert(speculative::verified_batch(
                    now.target,
                    questions,
                    target,
                    left,
                    Err(e->Speculative_0),
                ));
            } else {
                let (left, answers) = choose|left: Seq<VerifyAsk>, answers: Vec<Vec<VerifyStep>>|
                    #[trigger] verdicts_made(
                        now.target,
                        now.active,
                        drafts@,
                        target,
                        left,
                        Ok(answers),
                    ) && some_fault(now.active, window, drafts@, answers@, e);
                assert(speculative::verified_batch(
                    now.target,
                    questions,
                    target,
                    left,
                    Ok(answers),
                ));
                let k = choose|k: int|
                    0 <= k < who.len() && round_fault(
                        now.active[#[trigger] who[k] as int],
                        window,
                        drafts@[k]@,
                        answers@[k]@,
                    ) == Some(e->Speculative_0);
                assert(answers@[k]@.len() == questions[k].drafted.len());
                assert(drafts@[k]@.len() <= asks[k].max_tokens);
                drafts_as_asked_for_fit(
                    now.active[who[k] as int],
                    window,
                    drafts@[k]@,
                    answers@[k]@,
                );
            }
        }
    }
}

/// Whether a request in work has come so far with the tokens of `next` alone.
spec fn following(
    req: ActiveRequest,
    prompt: Seq<TokenId>,
    next: spec_fn(Seq<TokenId>) -> TokenId,
) -> bool {
    &&& req.matcher is None
    &&& req.session@.context == prompt + req.generated@
    &&& forall|k: int|
        0 <= k < req.generated@.len() ==> #[trigger] req.generated@[k] == next(
            prompt + req.generated@.take(k),
        )
}

/// Speculation and batching change nothing but the speed: if the target model's
/// token is a function `next` of the text before it, then every token that a
/// batch delivers for an unconstrained request is the one that the target model
/// alone would have produced there, whatever the draft model proposed and
/// whatever else was in the batch.
pub proof fn batches_give_the_target_models_tokens<
    R: MemoryRuntime,
    D: DraftModel,
    T: TargetModel,
>(
    before: VeloEngine<R>,
    after: VeloEngine<R>,
    requests: Seq<BatchRequest>,
    draft0: D,
    target0: T,
    draft1: D,
    target1: T,
    outputs: Seq<EngineOutput>,
    holds: spec_fn(T) -> bool,
    next: spec_fn(Seq<TokenId>) -> TokenId,
    i: int,
)
    requires
        batch_delivered(before, after, requests, draft0, target0, draft1, target1, outputs),
        requests.len() <= usize::MAX,
        0 <= i < requests.len(),
        requests[i].constraint is None,
        holds(target0),
        follows_in_batches(holds, next),
        kept_when_bound(holds),
    ensures
        forall|k: int|
            0 <= k < outputs[i].tokens@.len() ==> #[trigger] outputs[i].tokens@[k] == next(
                requests[i].prompt@ + outputs[i].tokens@.take(k),
            ),
{
    let decoder = before.decodes();
    let (taken, first, last) = choose|
        taken: VeloEngine<R>,
        first: Moment<D, T>,
        last: Moment<D, T>,
    | #[trigger]
        batch_run(before, requests, draft0, target0, taken, first, last) && batch_closed(
            last,
            draft1,
            target1,
            outputs,
        ) && closed_in_turn(taken, last.active, outputs, after);
    let prompt = requests[i].prompt@;
    let (drafters, targets) = choose|drafters: Seq<D>, targets: Seq<T>| #[trigger]
        bound_in_turn(first.active, first.active.len() as int, drafters, targets) && drafters[0]
            == draft0 && targets[0] == target0 && drafters.last() == first.draft && targets.last()
            == first.target;
    lemma_bindings_keep(
        first.active,
        first.active.len() as int,
        drafters,
        targets,
        holds,
        first.active.len() as int,
    );
    assert(admitted(decoder, before.factory(), requests[i], first.active[i]));
    assert(first.active[i].session@.context =~= prompt + first.active[i].generated@);
    let moments = choose|moments: Seq<Moment<D, T>>| #[trigger]
        round_chain(decoder.window(), moments) && moments[0] == first && moments.last() == last;
    lemma_rounds_follow_next(
        decoder.window(),
        moments,
        moments.len() - 1,
        i,
        prompt,
        holds,
        next,
    );
    assert(outputs.len() == last.active.len());
    assert(delivered_from(last.active[i], outputs[i]));
}

proof fn lemma_bindings_keep<D: DraftModel, T: TargetModel>(
    active: Seq<ActiveRequest>,
    n: int,
    drafters: Seq<D>,
    targets: Seq<T>,
    holds: spec_fn(T) -> bool,
    k: int,
)
    requires
        bound_in_turn(active, n, drafters, targets),
        holds(targets[0]),
        kept_when_bound(holds),
        0 <= k <= n,
    ensures
        holds(targets[k]),
    decreases k,
{
    if k > 0 {
        lemma_bindings_keep(active, n, drafters, targets, holds, k - 1);
        let slot = active[k - 1].slot_id;
        let prefix = active[k - 1].prefill.cached_prefix;
        assert(speculative::models_bound(
            slot,
            prefix,
            drafters[k - 1],
            targets[k - 1],
            drafters[k - 1 + 1],
            targets[k - 1 + 1],
        ));
        let (draft, target) = choose|draft: D, target: T| #[trigger]
            speculative::bound_through(
                slot,
                prefix,
                drafters[k - 1],
                targets[k - 1],
                draft,
                target,
                drafters[k],
                targets[k],
                Ok(()),
            );
        assert(holds(target));
    }
}

proof fn lemma_rounds_follow_next<D: DraftModel, T: TargetModel>(
    window: usize,
    moments: Seq<Moment<D, T>>,
    n: int,
    i: int,
    prompt: Seq<TokenId>,
    holds: spec_fn(T) -> bool,
    next: spec_fn(Seq<TokenId>) -> TokenId,
)
    requires
        round_chain(window, moments),
        0 <= n < moments.len(),
        moments[0].active.len() <= usize::MAX,
        0 <= i < moments[0].active.len(),
        holds(moments[0].target),
        following(moments[0].active[i], prompt, next),
        follows_in_batches(holds, next),
    ensures
        moments[n].active.len() == moments[0].active.len(),
        holds(moments[n].target),
        following(moments[n].active[i], prompt, next),
    decreases n,
{
    if n > 0 {
        lemma_rounds_follow_next(window, moments, n - 1, i, prompt, holds, next);
        let before = moments[n - 1];
        let after = moments[n];
        assert(round_made(window, moments[n - 1], moments[n - 1 + 1]));
        let (drafts, answers, left) = choose|
            drafts: Vec<Vec<NextTokenPrediction>>,
            answers: Vec<Vec<VerifyStep>>,
            left: Seq<VerifyAsk>,
        | #[trigger]
            round_made_by(window, before, after, drafts, answers, left);
        let asks = verdicts_wanted(before.active, drafts@);
        assert(speculative::verified_batch(before.target, asks, after.target, left, Ok(answers)));
        lemma_working_at(before.active, before.active.len());
        let who = working_at(before.active, before.active.len());
        if working(before.active[i]) {
            let k = who.index_of(i as usize);
            assert(who.contains(i as usize));
            assert(who[k] == i as usize);
            let a = before.active[i];
            let b = after.active[i];
            let d = speculative::tokens_of(drafts@[k]@);
            let e = speculative::steps_of(answers@[k]@);
            assert(request_settled(a, b, drafts@[k]@, answers@[k]@));
            assert(asks[k].fed is None);
            assert(answers_as(asks[k], answers@[k]@, next));
            let context = a.session@.context;
            assert forall|j: int| 0 <= j < d.len() implies #[trigger] e[j] == next(
                context + d.take(j),
            ) by {
                assert(e[j] == answers@[k]@[j].expected);
            }
            speculative::round_gains_the_target_models_tokens(context, d, e, next);
            let g = speculative::gained(d, e);
            assert(b.session@.context =~= prompt + b.generated@);
            assert forall|j: int| 0 <= j < b.generated@.len() implies #[trigger] b.generated@[j]
                == next(prompt + b.generated@.take(j)) by {
                if j < a.generated@.len() {
                    assert(a.generated@[j] == b.generated@[j]);
                    assert(b.generated@.take(j) =~= a.generated@.take(j));
                } else {
                    let m = j - a.generated@.len();
                    assert(g[m] == b.generated@[j]);
                    assert(prompt + b.generated@.take(j) =~= context + g.take(m));
                }
            }
        }
    }
}


proof fn lemma_same_lookup(
    a: Seq<radix_cache::CacheEntry>,
    b: Seq<radix_cache::CacheEntry>,
    tokens: Seq<TokenId>,
    upto: nat,
)
    requires
        forall|p: Seq<TokenId>| #[trigger]
            radix_cache::handle_on(a, p) == radix_cache::handle_on(b, p),
    ensures
        radix_cache::longest_cached(a, tokens, upto) == radix_cache::longest_cached(
            b,
            tokens,
            upto,
        ),
    decreases upto,
{
    assert(radix_cache::handle_on(a, tokens.take(upto as int)) == radix_cache::handle_on(
        b,
        tokens.take(upto as int),
    ));
    if upto > 0 {
        lemma_same_lookup(a, b, tokens, (upto - 1) as nat);
    }
}

/// A prompt that was prefilled is found as a whole when it is prefilled again, as long as
/// it fits into the cache: every token is a hit, no block is made for it, and the handle
/// is the one that the first prefill reported. The clock must not stand still.
pub proof fn a_prefilled_prompt_is_a_hit(
    before: radix_cache::CacheModel,
    between: radix_cache::CacheModel,
    after: radix_cache::CacheModel,
    pages: Map<u64, Seq<PageId>>,
    later: Map<u64, Seq<PageId>>,
    prompt: Seq<TokenId>,
    first: EnginePrefillOutput,
    second: EnginePrefillOutput,
)
    requires
        radix_cache::sound(before.entries),
        radix_cache::timely(before.entries, before.clock),
        before.clock < u64::MAX - 1,
        0 < prompt.len() <= usize::MAX,
        before.capacity is Some ==> prompt.len() <= before.capacity->0,
        prefilled(before, between, pages, prompt, first),
        prefilled(between, after, later, prompt, second),
    ensures
        second.stats.cache_hit_tokens == prompt.len(),
        second.stats.cache_miss_tokens == 0,
        second.inserted_handle is None,
        second.cached_prefix.handle is Some,
        second.cached_prefix.handle == (if first.inserted_handle is Some {
            first.inserted_handle
        } else {
            first.cached_prefix.handle
        }),
{
    let tick = radix_cache::tick_after(before.clock);
    let touched = radix_cache::touched(before.entries, prompt, tick);
    radix_cache::lookup_keeps_handles(before.entries, prompt, tick);
    radix_cache::lookup_finds_the_longest_prefix(before.entries, prompt, prompt.len(), 0);
    radix_cache::lookup_finds_the_longest_prefix(between.entries, prompt, prompt.len(), 0);
    if first.inserted_handle is Some {
        let h = first.inserted_handle->0;
        assert(radix_cache::timely(touched, tick)) by {
            assert forall|i: int| 0 <= i < touched.len() implies (
            #[trigger] touched[i]).tick <= tick by {
                assert(before.entries[i].tick <= before.clock);
            }
        }
        radix_cache::inserted_handle_survives_trimming(
            touched,
            prompt,
            h,
            tick,
            before.capacity,
        );
    } else {
        lemma_same_lookup(between.entries, before.entries, prompt, prompt.len());
    }
}

/// No more tokens are drafted than the window has room for or the request still wants,
/// and no fewer than both allow.
pub proof fn drafts_are_wanted_up_to_the_window(req: ActiveRequest, window: usize)
    requires
        req.generated@.len() <= req.max_new_tokens,
    ensures
        wanted(req, window) <= window,
        req.generated@.len() + wanted(req, window) <= req.max_new_tokens,
        wanted(req, window) == window || req.generated@.len() + wanted(req, window)
            == req.max_new_tokens,
{
}

/// The longest sequence that some requests may come to is that of one of them, and none
/// comes to more.
pub proof fn the_longest_sequence_is_one_of_them(requests: Seq<BatchRequest>, i: int)
    requires
        0 <= i < requests.len(),
    ensures
        requests[i].prompt@.len() + requests[i].max_new_tokens <= longest_wanted(requests),
        longest_wanted(requests) == 0 || exists|k: int|
            0 <= k < requests.len() && (#[trigger] requests[k]).prompt@.len()
                + requests[k].max_new_tokens == longest_wanted(requests),
    decreases requests.len(),
{
    lemma_longest_wanted(requests, i);
    let front = requests.drop_last();
    let last = requests.len() - 1;
    if requests[last].prompt@.len() + requests[last].max_new_tokens != longest_wanted(requests)
        && longest_wanted(requests) > 0 {
        assert(longest_wanted(front) == longest_wanted(requests));
        assert(front.len() > 0);
        the_longest_sequence_is_one_of_them(front, 0);
        let k = choose|k: int|
            0 <= k < front.len() && (#[trigger] front[k]).prompt@.len() + front[k].max_new_tokens
                == longest_wanted(front);
        assert(requests[k] == front[k]);
    }
}

/// The page table gets the pages of the block that was made for a prompt, or where none
/// was made, those of its cached prefix, one entry for each page in their order.
pub proof fn bound_pages_are_those_of_the_prompt(prefill: EnginePrefillOutput, k: int)
    requires
        prefill.inserted_pages is Some || prefill.cached_pages is Some,
    ensures
        prefill.inserted_pages is Some ==> pages_to_bind(prefill).len()
            == prefill.inserted_pages->0.pages@.len() && (0 <= k
            < prefill.inserted_pages->0.pages@.len() && prefill.inserted_pages->0.pages@[k].0
            <= u32::MAX ==> pages_to_bind(prefill)[k] == prefill.inserted_pages->0.pages@[k].0),
        prefill.inserted_pages is None ==> pages_to_bind(prefill).len()
            == prefill.cached_pages->0.pages@.len() && (0 <= k
            < prefill.cached_pages->0.pages@.len() && prefill.cached_pages->0.pages@[k].0
            <= u32::MAX ==> pages_to_bind(prefill)[k] == prefill.cached_pages->0.pages@[k].0),
{
}

/// The memory refuses a block where the store or the allocator does, with the error of the
/// one that refuses; the store is asked first.
pub proof fn the_store_is_asked_first<R: MemoryRuntime>(memory: R, len: usize)
    ensures
        can_hold(memory, len as nat) <==> memory.the_store().grants(len)
            && memory.the_allocator().can_map(len),
        !memory.the_store().grants(len) ==> memory_refusal(memory, len as nat)
            == EngineError::KvStore(memory.the_store().refusal(len)),
        memory.the_store().grants(len) && !memory.the_allocator().can_map(len) ==> memory_refusal(
            memory,
            len as nat,
        ) == EngineError::PagedAttention(memory.the_allocator().refusal(len)),
{
}
} // verus!
