//! Paged Attention: virtual memory for LLMs.
//!
//! The KV cache is split into small, fixed-size pages. A piece of text gets as
//! many pages as its tokens need, and gives them back when it is finished.

use std::collections::{BTreeMap, VecDeque};
use vstd::prelude::*;
use vstd::string::*;
use crate::radix_cache::KvCacheHandle;
use crate::text::text_with_numbers;

verus! {

broadcast use vstd::std_specs::btree::group_btree_axioms;

/// A unique identifier for a physical chunk of memory on the GPU.
#[derive(Debug, Clone, Copy, PartialEq, Eq, Hash, Structural)]
pub struct PageId(pub u64);

/// The numerical format of the data stored in the cache.
#[derive(Debug, Clone, Copy, PartialEq, Eq, Hash, Structural)]
pub enum KvCacheType {
    /// High precision (32-bit floats).
    Fp32,
    /// Compressed (8-bit integers) - saves 4x memory!
    Int8,
    /// Modern floating point (8-bit) - balanced speed and accuracy.
    Fp8,
}

impl Default for KvCacheType {
    fn default() -> (t: Self)
        ensures
            t == KvCacheType::Fp32,
    {
        KvCacheType::Fp32
    }
}

/// Configuration for the memory manager.
#[derive(Debug, Clone, Copy, PartialEq, Eq, Structural)]
pub struct PagedAttentionConfig {
    /// How many tokens fit in a single memory block.
    pub block_size: usize,
    /// Same as block_size (compatibility alias).
    pub page_tokens: usize,
    /// Total number of pages available in the GPU pool.
    pub total_pages: usize,
    /// Whether the CPU and GPU share the same memory (always true on Apple Silicon).
    pub unified_memory: bool,
    /// The data format (FP32, INT8, etc).
    pub kv_type: KvCacheType,
}

/// A sequence of pages that together store a piece of text.
#[derive(Debug, Clone, PartialEq, Eq)]
pub struct PageSpan {
    /// The ordered list of pages.
    pub pages: Vec<PageId>,
}

/// A map that connects a high-level "Handle" to physical "Pages".
#[derive(Debug, Clone, PartialEq, Eq)]
pub struct BlockMapping {
    /// The high-level ID for this piece of text.
    pub handle: KvCacheHandle,
    /// The physical memory pages where the data is actually stored.
    pub pages: Vec<PageId>,
    /// How many tokens are actually in this block.
    pub token_len: usize,
}

/// A block mapping as seen from outside.
pub struct MappingModel {
    pub handle: KvCacheHandle,
    pub pages: Seq<PageId>,
    pub token_len: usize,
}

impl View for BlockMapping {
    type V = MappingModel;

    open spec fn view(&self) -> MappingModel {
        MappingModel { handle: self.handle, pages: self.pages@, token_len: self.token_len }
    }
}

/// Errors that happen when we run out of memory or have invalid settings.
#[derive(Debug, Clone, Copy, PartialEq, Eq, Structural)]
pub enum PageManagerError {
    /// You tried to create a block with 0 size.
    InvalidBlockSize,
    /// The GPU is full! No more pages available.
    OutOfPages { requested: usize, available: usize },
    /// You tried to access memory that doesn't exist.
    UnknownHandle(KvCacheHandle),
}

impl PageManagerError {
    /// The message of the error.
    pub open spec fn text(self) -> Seq<char> {
        match self {
            PageManagerError::InvalidBlockSize => "block size must be greater than zero"@,
            PageManagerError::OutOfPages { requested, available } => "requested "@
                + crate::text::decimal(requested as nat) + " pages but only "@
                + crate::text::decimal(available as nat) + " are available"@,
            PageManagerError::UnknownHandle(handle) => "unknown KV handle "@
                + crate::text::decimal(handle.block_id as nat) + " with "@ + crate::text::decimal(
                handle.token_len as nat,
            ) + " tokens"@,
        }
    }

    pub fn to_string(&self) -> (s: String)
        ensures
            s@ == self.text(),
    {
        match self {
            PageManagerError::InvalidBlockSize => String::from_str(
                "block size must be greater than zero",
            ),
            PageManagerError::OutOfPages { requested, available } => text_with_numbers(
                "requested ",
                *requested as u64,
                " pages but only ",
                *available as u64,
                " are available",
            ),
            PageManagerError::UnknownHandle(handle) => text_with_numbers(
                "unknown KV handle ",
                handle.block_id,
                " with ",
                handle.token_len as u64,
                " tokens",
            ),
        }
    }
}

/// Hands out the pages of a fixed pool, first in, first out, and remembers who
/// has which.
#[derive(Debug)]
pub struct PagedAttentionBlockManager {
    config: PagedAttentionConfig,
    free_pages: VecDeque<PageId>,
    mappings: BTreeMap<u64, BlockMapping>,
}

/// A manager as seen from outside: the free pages, the next one to be handed
/// out first, and the mapping of every block number in use.
pub struct PoolModel {
    pub config: PagedAttentionConfig,
    pub free: Seq<PageId>,
    pub mapped: Map<u64, MappingModel>,
}

/// The pages that `token_len` tokens need, `block_size` tokens to a page.
pub open spec fn pages_needed(token_len: nat, block_size: nat) -> nat {
    if token_len % block_size == 0 {
        token_len / block_size
    } else {
        token_len / block_size + 1
    }
}

/// Every page of a pool of `total` pages, in ascending order.
pub open spec fn all_pages(total: nat) -> Seq<PageId> {
    Seq::new(total, |i: int| PageId(i as u64))
}

/// The pool after `n` pages were handed out to `handle`.
pub open spec fn pool_allocated(
    pool: PoolModel,
    handle: KvCacheHandle,
    token_len: usize,
    n: nat,
) -> PoolModel {
    PoolModel {
        free: pool.free.skip(n as int),
        mapped: pool.mapped.insert(
            handle.block_id,
            MappingModel { handle, pages: pool.free.take(n as int), token_len },
        ),
        ..pool
    }
}

/// The pool after the pages of block `id` came back.
pub open spec fn pool_released(pool: PoolModel, id: u64) -> PoolModel {
    PoolModel {
        free: pool.free + pool.mapped[id].pages,
        mapped: pool.mapped.remove(id),
        ..pool
    }
}

impl PagedAttentionConfig {
    /// Creates a new configuration for the memory manager.
    pub fn new(block_size: usize, total_pages: usize) -> (r: Result<Self, PageManagerError>)
        ensures
            block_size == 0 ==> r == Err::<Self, PageManagerError>(
                PageManagerError::InvalidBlockSize,
            ),
            block_size > 0 ==> r == Ok::<Self, PageManagerError>(
                PagedAttentionConfig {
                    block_size,
                    page_tokens: block_size,
                    total_pages,
                    unified_memory: true,
                    kv_type: KvCacheType::Fp32,
                },
            ),
    {
        if block_size == 0 {
            return Err(PageManagerError::InvalidBlockSize);
        }
        Ok(
            PagedAttentionConfig {
                block_size,
                page_tokens: block_size,
                total_pages,
                unified_memory: true,
                kv_type: KvCacheType::Fp32,
            },
        )
    }

    /// Sets the numerical precision for the cache.
    pub fn with_kv_type(self, kv_type: KvCacheType) -> (config: Self)
        ensures
            config == (PagedAttentionConfig { kv_type, ..self }),
    {
        PagedAttentionConfig { kv_type, ..self }
    }
}

impl View for PagedAttentionBlockManager {
    type V = PoolModel;

    closed spec fn view(&self) -> PoolModel {
        PoolModel {
            config: self.config,
            free: self.free_pages@,
            mapped: self.mappings@.map_values(|m: BlockMapping| m@),
        }
    }
}

impl PagedAttentionBlockManager {
    /// Creates a new manager and fills it with empty pages.
    pub fn new(config: PagedAttentionConfig) -> (manager: Self)
        ensures
            manager@ == (PoolModel {
                config,
                free: all_pages(config.total_pages as nat),
                mapped: Map::empty(),
            }),
    {
        let mut free_pages: VecDeque<PageId> = VecDeque::new();
        let total: u64 = config.total_pages as u64;
        for idx in 0..total
            invariant
                total == config.total_pages,
                free_pages@ == all_pages(idx as nat),
        {
            free_pages.push_back(PageId(idx));
            assert(free_pages@ =~= all_pages((idx + 1) as nat));
        }
        let manager = PagedAttentionBlockManager { config, free_pages, mappings: BTreeMap::new() };
        assert(manager@.mapped =~= Map::empty());
        manager
    }

    /// Returns the configuration.
    pub fn config(&self) -> (config: &PagedAttentionConfig)
        ensures
            *config == self@.config,
    {
        &self.config
    }

    /// Finds the physical pages for a specific piece of text.
    pub fn mapped_pages(&self, handle: KvCacheHandle) -> (pages: Option<&[PageId]>)
        ensures
            pages is Some <==> self@.mapped.contains_key(handle.block_id),
            pages is Some ==> pages->0@ == self@.mapped[handle.block_id].pages,
    {
        match self.mappings.get(&handle.block_id) {
            Some(mapping) => Some(mapping.pages.as_slice()),
            None => None,
        }
    }

    /// Calculates how many pages are needed to store a certain number of tokens.
    pub fn pages_for_tokens(&self, token_len: usize) -> (n: usize)
        requires
            self@.config.block_size > 0,
        ensures
            n == pages_needed(token_len as nat, self@.config.block_size as nat),
    {
        let size: usize = self.config.block_size;
        let whole: usize = token_len / size;
        if token_len % size == 0 {
            whole
        } else {
            assert(whole < token_len) by (nonlinear_arith)
                requires
                    size > 0,
                    whole == token_len / size,
                    token_len % size != 0,
            ;
            whole + 1
        }
    }

    /// Reserves physical memory for a new request. Fails if there are fewer
    /// free pages than the tokens need; nothing changes then.
    pub fn allocate(&mut self, handle: KvCacheHandle, token_len: usize) -> (r: Result<
        BlockMapping,
        PageManagerError,
    >)
        requires
            old(self)@.config.block_size > 0,
        ensures
            ({
                let n = pages_needed(token_len as nat, old(self)@.config.block_size as nat);
                &&& n > old(self)@.free.len() ==> final(self)@ == old(self)@ && r == Err::<
                    BlockMapping,
                    PageManagerError,
                >(
                    PageManagerError::OutOfPages {
                        requested: n as usize,
                        available: old(self)@.free.len() as usize,
                    },
                )
                &&& n <= old(self)@.free.len() ==> r is Ok && r->Ok_0@ == (MappingModel {
                    handle,
                    pages: old(self)@.free.take(n as int),
                    token_len,
                }) && final(self)@ == pool_allocated(old(self)@, handle, token_len, n)
            }),
    {
        let ghost before = self@;
        let required_pages: usize = self.pages_for_tokens(token_len);
        let available: usize = self.free_pages.len();
        if required_pages > available {
            return Err(
                PageManagerError::OutOfPages { requested: required_pages, available },
            );
        }
        let mut pages: Vec<PageId> = Vec::with_capacity(required_pages);
        let mut copy: Vec<PageId> = Vec::with_capacity(required_pages);
        let mut taken: usize = 0;
        while taken < required_pages
            invariant
                taken <= required_pages <= before.free.len(),
                self.config == before.config,
                self.mappings == old(self).mappings,
                self.free_pages@ == before.free.skip(taken as int),
                pages@ == before.free.take(taken as int),
                copy@ == pages@,
            decreases required_pages - taken,
        {
            match self.free_pages.pop_front() {
                Some(page) => {
                    pages.push(page);
                    copy.push(page);
                },
                None => {},
            }
            taken = taken + 1;
            assert(self.free_pages@ =~= before.free.skip(taken as int));
            assert(pages@ =~= before.free.take(taken as int));
        }
        let mapping = BlockMapping { handle, pages, token_len };
        self.mappings.insert(handle.block_id, BlockMapping { handle, pages: copy, token_len });
        assert(self@.mapped =~= pool_allocated(
            before,
            handle,
            token_len,
            required_pages as nat,
        ).mapped);
        Ok(mapping)
    }

    /// Takes memory back from a finished request and puts it behind the free pages.
    pub fn release(&mut self, handle: KvCacheHandle) -> (r: Result<(), PageManagerError>)
        ensures
            old(self)@.mapped.contains_key(handle.block_id) ==> r is Ok && final(self)@
                == pool_released(old(self)@, handle.block_id),
            !old(self)@.mapped.contains_key(handle.block_id) ==> final(self)@ == old(self)@ && r
                == Err::<(), PageManagerError>(PageManagerError::UnknownHandle(handle)),
    {
        let ghost before = self@;
        match self.mappings.remove(&handle.block_id) {
            None => {
                assert(self@.mapped =~= before.mapped);
                Err(PageManagerError::UnknownHandle(handle))
            },
            Some(mapping) => {
                let ghost kept = self.mappings;
                let mut i: usize = 0;
                while i < mapping.pages.len()
                    invariant
                        i <= mapping.pages@.len(),
                        self.config == before.config,
                        self.mappings == kept,
                        self.free_pages@ == before.free + mapping.pages@.take(i as int),
                    decreases mapping.pages@.len() - i,
                {
                    self.free_pages.push_back(mapping.pages[i]);
                    i = i + 1;
                    assert(self.free_pages@ =~= before.free + mapping.pages@.take(i as int));
                }
                assert(mapping.pages@.take(i as int) =~= mapping.pages@);
                assert(self@.mapped =~= before.mapped.remove(handle.block_id));
                Ok(())
            },
        }
    }

    /// Returns the number of empty pages left.
    pub fn free_pages(&self) -> (n: usize)
        ensures
            n == self@.free.len(),
    {
        self.free_pages.len()
    }

    /// Helper to convert a handle into a list of pages.
    pub fn materialize_span(&self, handle: KvCacheHandle) -> (span: Option<PageSpan>)
        ensures
            span is Some <==> self@.mapped.contains_key(handle.block_id),
            span is Some ==> span->0.pages@ == self@.mapped[handle.block_id].pages,
    {
        match self.mappings.get(&handle.block_id) {
            Some(mapping) => {
                let mut pages: Vec<PageId> = Vec::with_capacity(mapping.pages.len());
                let mut i: usize = 0;
                while i < mapping.pages.len()
                    invariant
                        i <= mapping.pages@.len(),
                        pages@ == mapping.pages@.take(i as int),
                    decreases mapping.pages@.len() - i,
                {
                    pages.push(mapping.pages[i]);
                    i = i + 1;
                    assert(pages@ =~= mapping.pages@.take(i as int));
                }
                assert(pages@ =~= mapping.pages@);
                Some(PageSpan { pages })
            },
            None => None,
        }
    }
}

// ---------------------------------------------------------------------------
// Laws
// ---------------------------------------------------------------------------

/// The pages for some tokens hold them all, and one page less would not.
pub proof fn pages_hold_the_tokens(token_len: nat, block_size: nat)
    requires
        block_size > 0,
    ensures
        pages_needed(token_len, block_size) * block_size >= token_len,
        token_len > 0 ==> (pages_needed(token_len, block_size) - 1) * block_size < token_len,
        token_len == 0 ==> pages_needed(token_len, block_size) == 0,
{
    let q = token_len / block_size;
    let r = token_len % block_size;
    assert(token_len == q * block_size + r && r < block_size) by (nonlinear_arith)
        requires
            block_size > 0,
            q == token_len / block_size,
            r == token_len % block_size,
    ;
    assert((q + 1) * block_size == q * block_size + block_size) by (nonlinear_arith);
    assert((q - 1) * block_size == q * block_size - block_size) by (nonlinear_arith);
    if token_len == 0 {
        assert(0nat / block_size == 0 && 0nat % block_size == 0) by (nonlinear_arith)
            requires
                block_size > 0,
        ;
    }
}

/// Every page of the pool is in exactly one place: free, or with one block.
pub open spec fn pages_partitioned(pool: PoolModel) -> bool {
    &&& pool.free.no_duplicates()
    &&& forall|id: u64| #[trigger]
        pool.mapped.contains_key(id) ==> pool.mapped[id].pages.no_duplicates()
    &&& forall|id: u64, p: PageId|
        pool.mapped.contains_key(id) && #[trigger] pool.mapped[id].pages.contains(p)
            ==> !pool.free.contains(p)
    &&& forall|a: u64, b: u64, p: PageId|
        pool.mapped.contains_key(a) && pool.mapped.contains_key(b)
            && #[trigger] pool.mapped[a].pages.contains(p)
            && #[trigger] pool.mapped[b].pages.contains(p) ==> a == b
    &&& forall|p: PageId|
        p.0 < pool.config.total_pages ==> #[trigger] pool.free.contains(p) || exists|id: u64|
            pool.mapped.contains_key(id) && #[trigger] pool.mapped[id].pages.contains(p)
    &&& forall|p: PageId| #[trigger] pool.free.contains(p) ==> p.0 < pool.config.total_pages
    &&& forall|id: u64, p: PageId|
        pool.mapped.contains_key(id) && #[trigger] pool.mapped[id].pages.contains(p) ==> p.0
            < pool.config.total_pages
}

/// The pages that all blocks have together.
pub open spec fn pages_mapped(mapped: Map<u64, MappingModel>) -> nat
    decreases mapped.dom().len(),
    when mapped.dom().finite()
{
    if mapped.dom().len() == 0 {
        0
    } else {
        let id = mapped.dom().choose();
        mapped[id].pages.len() + pages_mapped(mapped.remove(id))
    }
}

/// No page is lost and none appears: the free pages and the pages of all blocks
/// together are the pages of the pool.
pub proof fn pages_are_accounted_for(pool: PoolModel)
    requires
        pages_partitioned(pool),
        pool.mapped.dom().finite(),
    ensures
        pool.free.len() + pages_mapped(pool.mapped) == pool.config.total_pages,
    decreases pool.mapped.dom().len(),
{
    if pool.mapped.dom().len() == 0 {
        let all = all_pages(pool.config.total_pages as nat);
        assert(pool.mapped.dom() =~= Set::empty());
        assert forall|p: PageId| #[trigger] all.contains(p) <==> pool.free.contains(p) by {
            if pool.free.contains(p) {
                assert(all[p.0 as int] == p);
            }
            if all.contains(p) && !pool.free.contains(p) {
                let id = choose|id: u64|
                    pool.mapped.contains_key(id) && #[trigger] pool.mapped[id].pages.contains(p);
                assert(pool.mapped.dom().contains(id));
            }
        }
        assert(all.to_set() =~= pool.free.to_set());
        all.unique_seq_to_set();
        pool.free.unique_seq_to_set();
    } else {
        let id = pool.mapped.dom().choose();
        assert(pool.mapped.dom().contains(id));
        release_keeps_partition(pool, id);
        pages_are_accounted_for(pool_released(pool, id));
    }
}

/// A fresh pool has every page free, once.
pub proof fn fresh_pool_is_partitioned(config: PagedAttentionConfig)
    ensures
        pages_partitioned(
            PoolModel {
                config,
                free: all_pages(config.total_pages as nat),
                mapped: Map::empty(),
            },
        ),
{
    let free = all_pages(config.total_pages as nat);
    assert forall|p: PageId| p.0 < config.total_pages implies #[trigger] free.contains(p) by {
        assert(free[p.0 as int] == p);
    }
}

/// Handing pages out to a block number that is not in use keeps every page in
/// exactly one place.
pub proof fn allocation_keeps_partition(
    pool: PoolModel,
    handle: KvCacheHandle,
    token_len: usize,
    n: nat,
)
    requires
        pages_partitioned(pool),
        n <= pool.free.len(),
        !pool.mapped.contains_key(handle.block_id),
    ensures
        pages_partitioned(pool_allocated(pool, handle, token_len, n)),
{
    let after = pool_allocated(pool, handle, token_len, n);
    let given = pool.free.take(n as int);
    let left = pool.free.skip(n as int);
    let id0 = handle.block_id;
    assert forall|p: PageId| #[trigger] left.contains(p) implies pool.free.contains(p)
        && !given.contains(p) by {
        let i = left.index_of(p);
        assert(left[i] == pool.free[i + n]);
        if given.contains(p) {
            let j = given.index_of(p);
            assert(given[j] == pool.free[j]);
        }
    }
    assert forall|p: PageId| #[trigger] given.contains(p) implies pool.free.contains(p)
        && !left.contains(p) by {
        let j = given.index_of(p);
        assert(given[j] == pool.free[j]);
    }
    assert forall|p: PageId| #[trigger] pool.free.contains(p) implies given.contains(p)
        || left.contains(p) by {
        let i = pool.free.index_of(p);
        if i < n {
            assert(given[i] == p);
        } else {
            assert(left[i - n] == p);
        }
    }
    assert(after.mapped[id0].pages == given);
    assert forall|id: u64| after.mapped.contains_key(id) && id != id0 implies #[trigger]
        after.mapped[id] == pool.mapped[id] && pool.mapped.contains_key(id) by {
    }
    assert forall|id: u64, p: PageId|
        after.mapped.contains_key(id) && #[trigger] after.mapped[id].pages.contains(p) implies
        !after.free.contains(p) by {
        if id != id0 {
            assert(pool.mapped[id].pages.contains(p));
        }
    }
    assert forall|a: u64, b: u64, p: PageId|
        after.mapped.contains_key(a) && after.mapped.contains_key(b)
            && #[trigger] after.mapped[a].pages.contains(p)
            && #[trigger] after.mapped[b].pages.contains(p) implies a == b by {
        if a != id0 {
            assert(pool.mapped[a].pages.contains(p));
        }
        if b != id0 {
            assert(pool.mapped[b].pages.contains(p));
        }
    }
    assert forall|p: PageId| p.0 < after.config.total_pages implies #[trigger] after.free.contains(
        p,
    ) || exists|id: u64| after.mapped.contains_key(id) && #[trigger] after.mapped[id].pages.contains(p) by {
        if pool.free.contains(p) {
            if given.contains(p) {
                assert(after.mapped[id0].pages.contains(p));
            }
        } else {
            let id = choose|id: u64|
                pool.mapped.contains_key(id) && #[trigger] pool.mapped[id].pages.contains(p);
            assert(after.mapped[id].pages.contains(p));
        }
    }
}

/// Taking pages back keeps every page in exactly one place.
pub proof fn release_keeps_partition(pool: PoolModel, id0: u64)
    requires
        pages_partitioned(pool),
        pool.mapped.contains_key(id0),
    ensures
        pages_partitioned(pool_released(pool, id0)),
{
    let after = pool_released(pool, id0);
    let back = pool.mapped[id0].pages;
    assert forall|p: PageId| #[trigger] after.free.contains(p) <==> pool.free.contains(p)
        || back.contains(p) by {
        if after.free.contains(p) {
            let i = after.free.index_of(p);
            if i < pool.free.len() {
                assert(pool.free[i] == p);
            } else {
                assert(back[i - pool.free.len()] == p);
            }
        }
        if pool.free.contains(p) {
            let i = pool.free.index_of(p);
            assert(after.free[i] == p);
        }
        if back.contains(p) {
            let i = back.index_of(p);
            assert(after.free[i + pool.free.len()] == p);
        }
    }
    assert forall|i: int, j: int|
        0 <= i < after.free.len() && 0 <= j < after.free.len() && i != j implies after.free[i]
        != after.free[j] by {
        let m = pool.free.len();
        if i >= m && j < m {
            assert(back.contains(back[i - m]));
            assert(pool.free.contains(pool.free[j]));
        } else if i < m && j >= m {
            assert(back.contains(back[j - m]));
            assert(pool.free.contains(pool.free[i]));
        }
    }
    assert forall|id: u64, p: PageId|
        after.mapped.contains_key(id) && #[trigger] after.mapped[id].pages.contains(p) implies
        !after.free.contains(p) by {
        assert(pool.mapped[id].pages.contains(p));
    }
    assert forall|a: u64, b: u64, p: PageId|
        after.mapped.contains_key(a) && after.mapped.contains_key(b)
            && #[trigger] after.mapped[a].pages.contains(p)
            && #[trigger] after.mapped[b].pages.contains(p) implies a == b by {
        assert(pool.mapped[a].pages.contains(p));
        assert(pool.mapped[b].pages.contains(p));
    }
    assert forall|p: PageId| p.0 < after.config.total_pages implies #[trigger] after.free.contains(
        p,
    ) || exists|id: u64| after.mapped.contains_key(id) && #[trigger] after.mapped[id].pages.contains(p) by {
        if !pool.free.contains(p) {
            let id = choose|id: u64|
                pool.mapped.contains_key(id) && #[trigger] pool.mapped[id].pages.contains(p);
            if id != id0 {
                assert(after.mapped[id].pages.contains(p));
            }
        }
    }
}

/// Releasing what was just handed out restores the count of free pages and the
/// other mappings; the pages that came back wait behind the others.
pub proof fn release_undoes_allocation(
    pool: PoolModel,
    handle: KvCacheHandle,
    token_len: usize,
    n: nat,
)
    requires
        n <= pool.free.len(),
        !pool.mapped.contains_key(handle.block_id),
    ensures
        ({
            let after = pool_released(
                pool_allocated(pool, handle, token_len, n),
                handle.block_id,
            );
            &&& after.mapped == pool.mapped
            &&& after.free == pool.free.skip(n as int) + pool.free.take(n as int)
            &&& after.free.len() == pool.free.len()
        }),
{
    let after = pool_released(pool_allocated(pool, handle, token_len, n), handle.block_id);
    assert(after.mapped =~= pool.mapped);
}

/// A longer block needs no fewer pages.
pub proof fn longer_blocks_need_no_fewer_pages(a: nat, b: nat, block_size: nat)
    requires
        a <= b,
        block_size > 0,
    ensures
        pages_needed(a, block_size) <= pages_needed(b, block_size),
{
    vstd::arithmetic::div_mod::lemma_div_is_ordered(a as int, b as int, block_size as int);
    if a / block_size == b / block_size && a % block_size != 0 {
        vstd::arithmetic::div_mod::lemma_fundamental_div_mod(a as int, block_size as int);
        vstd::arithmetic::div_mod::lemma_fundamental_div_mod(b as int, block_size as int);
    }
}

} // verus!
