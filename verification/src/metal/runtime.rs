//! The memory runtime of a Metal device: the accounts of its KV pool, its pages
//! and its slot table. The device itself is opened elsewhere; here it is known
//! by what opening it brought.

use vstd::prelude::*;
use vstd::string::*;
use crate::engine;
use crate::engine::{ActiveRequest, BatchRequest, VeloEngine};
use crate::metal::config::MetalRuntimeConfig;
use crate::metal::kv_store::MetalKvStore;
use crate::metal::types::{DeviceParts, MetalBufferPlacement, MetalDeviceInfo};
use crate::paged_attention;
use crate::paged_attention::{PagedAttentionBlockManager, PagedAttentionConfig};
use crate::radix_cache::CacheLookup;
use crate::runtime::{MemoryRuntime, MemoryRuntimeConfig, PageTable};
use crate::slot_manager::SlotId;
use crate::speculative::SpeculativeError;
use crate::text;
use crate::text::{is_blank, joined, text_with_numbers};

verus! {

/// What opening a device brought.
#[derive(Debug, Clone)]
pub enum Opening {
    NoDevice,
    NoQueue,
    /// The kernels were not compiled, for this reason.
    NoKernels(String),
    /// Everything is there; the device has this name.
    Open(String),
}

/// Runtime context containing hardware info and handles.
#[derive(Debug, Clone)]
pub struct MetalRuntimeContext {
    pub device: MetalDeviceInfo,
    pub memory: MemoryRuntimeConfig,
    pub placement: MetalBufferPlacement,
    pub handles: DeviceParts,
}

/// A memory runtime that manages Metal-backed KV cache and paged attention.
pub struct MetalMemoryRuntime {
    pub config: MetalRuntimeConfig,
    pub context: MetalRuntimeContext,
    pub store: MetalKvStore,
    pub allocator: PagedAttentionBlockManager,
    pub bound_prefix: Option<CacheLookup>,
    /// The page numbers of every slot: one row of pages for each slot.
    pub slot_mapping: Vec<u32>,
}

/// What is wrong with a configuration.
pub open spec fn config_fault(config: MetalRuntimeConfig) -> Option<Seq<char>> {
    if text::blank(config.model_name@) {
        Some("model_name must not be empty"@)
    } else if config.memory.bytes_per_token == 0 {
        Some("memory.bytes_per_token must be greater than zero"@)
    } else if config.memory.paged_block_size == 0 {
        Some("memory.paged_block_size must be greater than zero"@)
    } else if config.memory.paged_total_pages == 0 {
        Some("memory.paged_total_pages must be greater than zero"@)
    } else {
        None
    }
}

/// What went wrong when the device was opened.
pub open spec fn opening_fault(opening: Opening) -> Option<Seq<char>> {
    match opening {
        Opening::NoDevice => Some("No Metal device found"@),
        Opening::NoQueue => Some("Failed to create Metal command queue"@),
        Opening::NoKernels(why) => Some("Failed to compile Metal kernels: "@ + why@),
        Opening::Open(name) => None,
    }
}

/// Whether the sizes of the pool and of the slot table can be counted.
pub open spec fn sizes_fit(m: MemoryRuntimeConfig) -> bool {
    &&& m.paged_block_size * m.bytes_per_token <= usize::MAX
    &&& m.paged_total_pages * (m.paged_block_size * m.bytes_per_token) <= usize::MAX
    &&& m.n_layer * (m.paged_total_pages * (m.paged_block_size * m.bytes_per_token)) <= usize::MAX
    &&& m.max_slots * m.paged_total_pages <= usize::MAX
}

/// The place of a slot's row in the slot table.
pub open spec fn row_start(slot: SlotId, max_pages: usize) -> int {
    slot.0 * max_pages
}

/// A slot table after a row was written: the pages, and zeros up to the end of
/// the row.
pub open spec fn row_written(
    table: Seq<u32>,
    slot: SlotId,
    max_pages: usize,
    pages: Seq<u32>,
) -> Seq<u32> {
    let start = row_start(slot, max_pages);
    Seq::new(
        table.len(),
        |i: int|
            if start <= i < start + pages.len() {
                pages[i - start]
            } else if start <= i < start + max_pages {
                0u32
            } else {
                table[i]
            },
    )
}

/// The complaint of a request with more pages than a row has.
pub open spec fn too_many_pages(n: nat, max_pages: nat) -> Seq<char> {
    "Request pages ("@ + text::decimal(n) + ") exceed max pages per slot ("@ + text::decimal(
        max_pages,
    ) + ")"@
}

/// Checks a configuration before the device is opened.
pub fn check_runtime_config(config: &MetalRuntimeConfig) -> (r: Result<(), SpeculativeError>)
    ensures
        match config_fault(*config) {
            None => r is Ok,
            Some(s) => r is Err && r->Err_0 is Model && r->Err_0->Model_0@ == s,
        },
{
    if is_blank(config.model_name.as_str()) {
        return Err(SpeculativeError::Model(String::from_str("model_name must not be empty")));
    }
    if config.memory.bytes_per_token == 0 {
        return Err(
            SpeculativeError::Model(
                String::from_str("memory.bytes_per_token must be greater than zero"),
            ),
        );
    }
    if config.memory.paged_block_size == 0 {
        return Err(
            SpeculativeError::Model(
                String::from_str("memory.paged_block_size must be greater than zero"),
            ),
        );
    }
    if config.memory.paged_total_pages == 0 {
        return Err(
            SpeculativeError::Model(
                String::from_str("memory.paged_total_pages must be greater than zero"),
            ),
        );
    }
    Ok(())
}

/// Whether a runtime with that configuration, on the device of that name, has just
/// been made: it holds no block, has mapped no page and bound no slot, and has no
/// handle of its device yet.
pub open spec fn is_fresh(rt: MetalMemoryRuntime, config: MetalRuntimeConfig, name: String) -> bool {
    let m = config.memory;
    &&& rt.config == config
    &&& rt.context.device.name == name
    &&& rt.context.device.unified_memory
    &&& rt.context.memory == m
    &&& rt.context.placement == MetalBufferPlacement::Unified
    &&& rt.context.handles == (DeviceParts {
        device: false,
        command_queue: false,
        library: false,
    })
    &&& rt.store@.wf()
    &&& rt.store@.blocks == Map::<u64, crate::kv_store::KvBlock>::empty()
    &&& rt.store@.next_block_id == 1
    &&& rt.store@.bytes_per_token == m.bytes_per_token
    &&& rt.store@.page_bytes == m.paged_block_size * m.bytes_per_token
    &&& rt.store@.pool_pages == m.paged_total_pages
    &&& rt.store@.n_layer == m.n_layer
    &&& rt.allocator@.free == paged_attention::all_pages(m.paged_total_pages as nat)
    &&& rt.allocator@.mapped == Map::<u64, paged_attention::MappingModel>::empty()
    &&& rt.allocator@.config.block_size == m.paged_block_size
    &&& rt.allocator@.config.total_pages == m.paged_total_pages
    &&& rt.bound_prefix is None
    &&& rt.table_wf()
    &&& forall|i: int|
        0 <= i < rt.slot_mapping@.len() ==> #[trigger] rt.slot_mapping@[i] == 0
}

impl MetalMemoryRuntime {
    /// The slot table has a row for every slot.
    pub open spec fn table_wf(&self) -> bool {
        self.slot_mapping@.len() == self.config.memory.max_slots
            * self.config.memory.paged_total_pages
    }

    /// A runtime on a device that was opened. Its memory is unified, as it is on
    /// every such device, and it has no handles until they are given to it.
    pub fn new(config: MetalRuntimeConfig, opening: Opening) -> (r: Result<Self, SpeculativeError>)
        requires
            config_fault(config) is None && opening_fault(opening) is None ==> sizes_fit(
                config.memory,
            ),
        ensures
            match config_fault(config) {
                Some(s) => r is Err && r->Err_0 is Model && r->Err_0->Model_0@ == s,
                None => match opening_fault(opening) {
                    Some(s) => r is Err && r->Err_0 is Model && r->Err_0->Model_0@ == s,
                    None => r is Ok,
                },
            },
            r is Ok ==> opening is Open && is_fresh(r->Ok_0, config, opening->Open_0),
    {
        match check_runtime_config(&config) {
            Err(e) => {
                return Err(e);
            },
            Ok(()) => {},
        }
        let name: String = match opening {
            Opening::NoDevice => {
                return Err(SpeculativeError::Model(String::from_str("No Metal device found")));
            },
            Opening::NoQueue => {
                return Err(
                    SpeculativeError::Model(
                        String::from_str("Failed to create Metal command queue"),
                    ),
                );
            },
            Opening::NoKernels(why) => {
                return Err(
                    SpeculativeError::Model(
                        joined("Failed to compile Metal kernels: ", why.as_str()),
                    ),
                );
            },
            Opening::Open(name) => name,
        };
        let memory: MemoryRuntimeConfig = config.memory;
        let context = MetalRuntimeContext {
            device: MetalDeviceInfo { name, unified_memory: true },
            memory,
            placement: MetalBufferPlacement::Unified,
            handles: DeviceParts { device: false, command_queue: false, library: false },
        };
        let store = MetalKvStore::new(
            memory.bytes_per_token,
            memory.paged_total_pages,
            memory.paged_block_size,
            memory.n_layer,
        );
        let paged: PagedAttentionConfig = match PagedAttentionConfig::new(
            memory.paged_block_size,
            memory.paged_total_pages,
        ) {
            Ok(c) => c,
            Err(e) => {
                return Err(SpeculativeError::Model(e.to_string()));
            },
        };
        let allocator = PagedAttentionBlockManager::new(paged);
        let cells: usize = memory.max_slots * memory.paged_total_pages;
        let mut slot_mapping: Vec<u32> = Vec::with_capacity(cells);
        let mut i: usize = 0;
        while i < cells
            invariant
                i <= cells,
                slot_mapping@.len() == i,
                forall|k: int| 0 <= k < i ==> #[trigger] slot_mapping@[k] == 0,
            decreases cells - i,
        {
            slot_mapping.push(0);
            i = i + 1;
        }
        Ok(
            MetalMemoryRuntime {
                config,
                context,
                store,
                allocator,
                bound_prefix: None,
                slot_mapping,
            },
        )
    }

    pub fn config(&self) -> (c: &MetalRuntimeConfig)
        ensures
            *c == self.config,
    {
        &self.config
    }

    pub fn device(&self) -> (d: &MetalDeviceInfo)
        ensures
            *d == self.context.device,
    {
        &self.context.device
    }

    pub fn context(&self) -> (c: &MetalRuntimeContext)
        ensures
            *c == self.context,
    {
        &self.context
    }

    pub fn bound_prefix(&self) -> (p: Option<CacheLookup>)
        ensures
            p == self.bound_prefix,
    {
        self.bound_prefix
    }

    pub fn bind_prefix_cache(&mut self, prefix: &CacheLookup)
        ensures
            *final(self) == (MetalMemoryRuntime { bound_prefix: Some(*prefix), ..*old(self) }),
    {
        self.bound_prefix = Some(*prefix);
    }

    pub fn with_handles(self, handles: DeviceParts) -> (r: Self)
        ensures
            r == (MetalMemoryRuntime {
                context: MetalRuntimeContext { handles, ..self.context },
                ..self
            }),
    {
        let mut r = self;
        r.context.handles = handles;
        r
    }

    pub fn has_device_handles(&self) -> (b: bool)
        ensures
            b == (self.context.handles.device && self.context.handles.command_queue
                && self.context.handles.library),
    {
        self.context.handles.device && self.context.handles.command_queue
            && self.context.handles.library
    }
}

proof fn lemma_row_fits(slot: int, max_slots: int, max_pages: int)
    requires
        0 <= slot < max_slots,
        max_pages >= 0,
    ensures
        0 <= slot * max_pages,
        slot * max_pages + max_pages <= max_slots * max_pages,
{
    assert(0 <= slot * max_pages && slot * max_pages + max_pages <= max_slots * max_pages)
        by (nonlinear_arith)
        requires
            0 <= slot < max_slots,
            max_pages >= 0,
    ;
}

impl MemoryRuntime for MetalMemoryRuntime {
    type Store = MetalKvStore;

    type Allocator = PagedAttentionBlockManager;

    open spec fn the_store(&self) -> MetalKvStore {
        self.store
    }

    open spec fn the_allocator(&self) -> PagedAttentionBlockManager {
        self.allocator
    }

    /// The slots that have a row in the table.
    open spec fn accepts_slot(&self, slot: SlotId) -> bool {
        self.table_wf() && slot.0 < self.config.memory.max_slots
    }

    /// Requests with more pages than a row has are refused.
    open spec fn refuses_slot(&self, slot: SlotId, pages: Seq<u32>, e: SpeculativeError) -> bool {
        let most = self.config.memory.paged_total_pages as nat;
        pages.len() > most && e is Model && e->Model_0@ == too_many_pages(pages.len(), most)
    }

    /// The slot table, with a row of as many entries as there are pages.
    open spec fn page_table(&self) -> PageTable {
        PageTable {
            width: self.config.memory.paged_total_pages as nat,
            entries: self.slot_mapping@,
        }
    }

    /// The row of the slot is written, and nothing else changes.
    open spec fn slot_bound(before: Self, slot: SlotId, pages: Seq<u32>, after: Self) -> bool {
        &&& pages.len() <= before.page_table().width
        &&& after.page_table() == (PageTable {
            entries: row_written(
                before.page_table().entries,
                slot,
                before.config.memory.paged_total_pages,
                pages,
            ),
            ..before.page_table()
        })
    }

    fn store(&self) -> (store: &MetalKvStore) {
        &self.store
    }

    fn store_mut(&mut self) -> (store: &mut MetalKvStore) {
        &mut self.store
    }

    fn allocator(&self) -> (allocator: &PagedAttentionBlockManager) {
        &self.allocator
    }

    fn allocator_mut(&mut self) -> (allocator: &mut PagedAttentionBlockManager) {
        &mut self.allocator
    }

    /// Writes the row of a slot: the pages, and zeros up to its end. A request
    /// with more pages than a row has changes nothing.
    fn bind_slot(&mut self, slot: SlotId, pages: &[u32]) -> (r: Result<(), SpeculativeError>)
        ensures
            r is Ok <==> pages@.len() <= old(self).config.memory.paged_total_pages,
            r is Ok ==> final(self).slot_mapping@ == row_written(
                old(self).slot_mapping@,
                slot,
                old(self).config.memory.paged_total_pages,
                pages@,
            ),
            r is Err ==> *final(self) == *old(self) && r->Err_0 is Model && r->Err_0->Model_0@
                == too_many_pages(
                pages@.len(),
                old(self).config.memory.paged_total_pages as nat,
            ),
    {
        let max_pages: usize = self.config.memory.paged_total_pages;
        if pages.len() > max_pages {
            return Err(
                SpeculativeError::Model(
                    text_with_numbers(
                        "Request pages (",
                        pages.len() as u64,
                        ") exceed max pages per slot (",
                        max_pages as u64,
                        ")",
                    ),
                ),
            );
        }
        let ghost table = self.slot_mapping@;
        let total: usize = self.slot_mapping.len();
        proof {
            lemma_row_fits(
                slot.0 as int,
                self.config.memory.max_slots as int,
                max_pages as int,
            );
        }
        let start: usize = slot.0 as usize * max_pages;
        let mut i: usize = 0;
        while i < max_pages
            invariant
                i <= max_pages,
                pages@.len() <= max_pages,
                start + max_pages <= total == table.len(),
                self.slot_mapping@.len() == table.len(),
                self.store == old(self).store,
                self.allocator == old(self).allocator,
                self.config == old(self).config,
                forall|k: int|
                    0 <= k < table.len() ==> #[trigger] self.slot_mapping@[k] == (if start <= k
                        < start + i {
                        if k - start < pages@.len() {
                            pages@[k - start]
                        } else {
                            0u32
                        }
                    } else {
                        table[k]
                    }),
            decreases max_pages - i,
        {
            let page: u32 = if i < pages.len() {
                pages[i]
            } else {
                0
            };
            self.slot_mapping.set(start + i, page);
            i = i + 1;
        }
        assert(self.slot_mapping@ =~= row_written(table, slot, max_pages, pages@));
        Ok(())
    }
}

/// Binding a slot leaves the rows of all other slots as they were.
pub proof fn binding_one_slot_spares_the_others(
    table: Seq<u32>,
    slot: SlotId,
    other: SlotId,
    max_slots: usize,
    max_pages: usize,
    pages: Seq<u32>,
)
    requires
        table.len() == max_slots * max_pages,
        slot.0 < max_slots,
        other.0 < max_slots,
        slot != other,
        pages.len() <= max_pages,
    ensures
        ({
            let a = row_start(other, max_pages);
            row_written(table, slot, max_pages, pages).subrange(a, a + max_pages) == table.subrange(
                a,
                a + max_pages,
            )
        }),
{
    let a = row_start(other, max_pages);
    let b = row_start(slot, max_pages);
    lemma_row_fits(other.0 as int, max_slots as int, max_pages as int);
    lemma_row_fits(slot.0 as int, max_slots as int, max_pages as int);
    if slot.0 < other.0 {
        lemma_row_fits(slot.0 as int, other.0 as int, max_pages as int);
    } else {
        lemma_row_fits(other.0 as int, slot.0 as int, max_pages as int);
    }
    assert(row_written(table, slot, max_pages, pages).subrange(a, a + max_pages) =~= table.subrange(
        a,
        a + max_pages,
    ));
}

/// Whether the row of a slot holds some pages, and zeros up to its end.
pub open spec fn row_holds(table: PageTable, slot: SlotId, pages: Seq<u32>) -> bool {
    let start = slot.0 * table.width;
    &&& pages.len() <= table.width
    &&& 0 <= start && start + table.width <= table.entries.len()
    &&& table.entries.subrange(start, start + table.width) == Seq::new(
        table.width,
        |k: int|
            if k < pages.len() {
                pages[k]
            } else {
                0u32
            },
    )
}

/// The requests of a batch are isolated: once all were taken in, the row of each
/// one's slot holds the pages of its own prompt, as long as no slot was free
/// twice.
pub proof fn taken_requests_have_their_rows(
    before: VeloEngine<MetalMemoryRuntime>,
    requests: Seq<BatchRequest>,
    active: Seq<ActiveRequest>,
    after: VeloEngine<MetalMemoryRuntime>,
    i: int,
)
    requires
        engine::requests_taken(before, requests, active, after),
        before.memory().table_wf(),
        before.slots().max() <= before.memory().config.memory.max_slots,
        before.slots()@.no_duplicates(),
        0 <= i < active.len(),
    ensures
        row_holds(
            after.memory().page_table(),
            active[i].slot_id,
            engine::pages_to_bind(active[i].prefill),
        ),
{
    let engines = choose|engines: Seq<VeloEngine<MetalMemoryRuntime>>| #[trigger]
        engine::taken_through(engines, requests, active) && engines[0] == before && engines.last()
            == after;
    lemma_rows_stay(
        engines,
        requests,
        active,
        before.memory().config.memory,
        i,
        active.len() as int,
    );
}

/// Whether a page table has the shape that a configuration asks for.
spec fn shaped(table: PageTable, m: MemoryRuntimeConfig) -> bool {
    table.width == m.paged_total_pages && table.entries.len() == m.max_slots * m.paged_total_pages
}

proof fn lemma_rows_stay(
    engines: Seq<VeloEngine<MetalMemoryRuntime>>,
    requests: Seq<BatchRequest>,
    active: Seq<ActiveRequest>,
    m: MemoryRuntimeConfig,
    i: int,
    n: int,
)
    requires
        engine::taken_through(engines, requests, active),
        shaped(engines[0].memory().page_table(), m),
        forall|k: int| 0 <= k < active.len() ==> (#[trigger] active[k]).slot_id.0 < m.max_slots,
        forall|a: int, b: int|
            0 <= a < b < active.len() ==> (#[trigger] active[a]).slot_id != (
            #[trigger] active[b]).slot_id,
        0 <= i < active.len(),
        0 <= n <= active.len(),
    ensures
        shaped(engines[n].memory().page_table(), m),
        i < n ==> row_holds(
            engines[n].memory().page_table(),
            active[i].slot_id,
            engine::pages_to_bind(active[i].prefill),
        ),
    decreases n,
{
    if n > 0 {
        lemma_rows_stay(engines, requests, active, m, i, n - 1);
        let k = n - 1;
        let a = engines[k];
        let b = engines[n];
        assert(engine::taken_in(engines[k], requests[k], active[k], engines[k + 1]));
        let slot = active[k].slot_id;
        let pages = engine::pages_to_bind(active[k].prefill);
        let from = choose|from: MetalMemoryRuntime| #[trigger]
            engine::bound_from(a.memory().page_table(), from, slot, pages, b.memory());
        let old_table = a.memory().page_table();
        let table = b.memory().page_table();
        let w = m.paged_total_pages;
        assert(table.entries == row_written(old_table.entries, slot, w, pages));
        if i < n {
            let own = active[i].slot_id;
            lemma_row_fits(own.0 as int, m.max_slots as int, w as int);
            let start = row_start(own, w);
            assert(own.0 * table.width == start);
            if i < k {
                binding_one_slot_spares_the_others(
                    old_table.entries,
                    slot,
                    own,
                    m.max_slots,
                    w,
                    pages,
                );
            } else {
                assert(table.entries.subrange(start, start + w) =~= Seq::new(
                    w as nat,
                    |j: int|
                        if j < pages.len() {
                            pages[j]
                        } else {
                            0u32
                        },
                ));
            }
        }
    }
}


/// A runtime needs a name, bytes for its tokens, tokens for its pages and pages, and a
/// device that could be opened.
pub proof fn runtimes_need_their_sizes(config: MetalRuntimeConfig, opening: Opening)
    ensures
        config_fault(config) is None <==> !text::blank(config.model_name@)
            && config.memory.bytes_per_token > 0 && config.memory.paged_block_size > 0
            && config.memory.paged_total_pages > 0,
        opening_fault(opening) is None <==> opening is Open,
{
}

/// What was bound to a slot last is what its row holds, with zeros behind it, whatever
/// the row held before.
pub proof fn rows_hold_what_was_bound_last(
    table: Seq<u32>,
    slot: SlotId,
    max_slots: usize,
    max_pages: usize,
    first: Seq<u32>,
    pages: Seq<u32>,
)
    requires
        table.len() == max_slots * max_pages,
        slot.0 < max_slots,
        first.len() <= max_pages,
        pages.len() <= max_pages,
    ensures
        ({
            let once = row_written(table, slot, max_pages, pages);
            let twice = row_written(
                row_written(table, slot, max_pages, first),
                slot,
                max_pages,
                pages,
            );
            &&& twice == once
            &&& row_holds(PageTable { width: max_pages as nat, entries: once }, slot, pages)
        }),
{
    let once = row_written(table, slot, max_pages, pages);
    let twice = row_written(row_written(table, slot, max_pages, first), slot, max_pages, pages);
    assert(twice =~= once);
    let start = row_start(slot, max_pages);
    assert(0 <= start && start + max_pages <= max_slots * max_pages) by (nonlinear_arith)
        requires
            start == slot.0 * max_pages,
            slot.0 + 1 <= max_slots,
    ;
    assert(once.subrange(start, start + max_pages) =~= Seq::new(
        max_pages as nat,
        |k: int|
            if k < pages.len() {
                pages[k]
            } else {
                0u32
            },
    ));
}
} // verus!
