//! The host side of the Metal backend: what a forward pass is asked for.

use vstd::prelude::*;
use vstd::string::*;
use crate::metal::config::MetalBackendConfig;
use crate::metal::kv_store::MetalKvStore;
use crate::metal::types::{DeviceParts, MetalDeviceInfo};
use crate::paged_attention::{PageId, PageSpan, PagedAttentionBlockManager};
use crate::radix_cache::{CacheLookup, KvCacheHandle, TokenId};
use crate::slot_manager::SlotId;
use crate::speculative::SpeculativeError;
use crate::text;
use crate::text::{text_with_number, text_with_numbers};

verus! {

/// An inference backend using Apple Metal, as far as the host knows it.
#[derive(Debug, Clone)]
pub struct MetalBackend {
    pub config: MetalBackendConfig,
    pub device: MetalDeviceInfo,
    pub bound_prefix: Option<CacheLookup>,
    /// Whether there is a model with its weights on the device.
    pub has_model: bool,
    /// Whether the pages, the KV pool and the slot table of a runtime are used.
    pub wired: bool,
    pub slot_id: Option<SlotId>,
}

/// One forward pass: a token at a position, on the pages of a slot.
#[derive(Debug, Clone, Copy, PartialEq, Eq, Structural)]
pub struct ForwardCall {
    pub token: TokenId,
    pub pos: usize,
    pub slot: SlotId,
    pub max_pages: usize,
    pub block_size: usize,
}

/// What is wrong with a configuration.
pub open spec fn backend_fault(config: MetalBackendConfig) -> Option<Seq<char>> {
    if config.max_context_tokens == 0 {
        Some("max_context_tokens must be greater than zero"@)
    } else if config.kv_bytes_per_token == 0 {
        Some("kv_bytes_per_token must be greater than zero"@)
    } else {
        None
    }
}

/// What keeps a backend from being wired to a runtime.
pub open spec fn wiring_fault(parts: DeviceParts) -> Option<Seq<char>> {
    if !parts.device {
        Some("Runtime missing device"@)
    } else if !parts.command_queue {
        Some("Runtime missing queue"@)
    } else if !parts.library {
        Some("Runtime missing library"@)
    } else {
        None
    }
}

/// The complaint of a prefix without pages.
pub open spec fn no_span_text(h: KvCacheHandle) -> Seq<char> {
    "Could not materialize span for prefix KvCacheHandle { block_id: "@ + text::decimal(
        h.block_id as nat,
    ) + ", token_len: "@ + text::decimal(h.token_len as nat) + " }"@
}

/// The complaint of a page without a block.
pub open spec fn no_block_text(page: PageId) -> Seq<char> {
    "Block PageId("@ + text::decimal(page.0 as nat) + ") not found in store"@
}

/// Whether the store has the block of a page: an empty one under its number.
pub open spec fn page_stored(store: MetalKvStore, page: PageId) -> bool {
    store@.blocks.contains_key(page.0) && store@.blocks[page.0].handle == (KvCacheHandle {
        block_id: page.0,
        token_len: 0,
    })
}

/// The first of some pages that the store does not have.
pub open spec fn first_unstored(store: MetalKvStore, pages: Seq<PageId>, n: nat) -> Option<PageId>
    decreases n,
{
    if n == 0 {
        None
    } else if first_unstored(store, pages, (n - 1) as nat) is Some {
        first_unstored(store, pages, (n - 1) as nat)
    } else if page_stored(store, pages[n - 1]) {
        None
    } else {
        Some(pages[n - 1])
    }
}

impl MetalBackend {
    /// What keeps a forward pass from being run: `empty` says that there is no
    /// token to run it for.
    pub open spec fn fault(
        self,
        allocator: PagedAttentionBlockManager,
        store: MetalKvStore,
        empty: bool,
    ) -> Option<Seq<char>> {
        if !self.has_model {
            Some("Metal backend skeleton is not wired to model weights or kernels yet"@)
        } else if !self.wired {
            Some("Allocator not wired"@)
        } else if empty {
            Some("next_logits called with empty context"@)
        } else if self.bound_prefix is None {
            Some("No prefix bound"@)
        } else if self.bound_prefix->0.handle is None {
            Some("Prefix has no KV handle"@)
        } else {
            let handle = self.bound_prefix->0.handle->0;
            if !allocator@.mapped.contains_key(handle.block_id) {
                Some(no_span_text(handle))
            } else {
                let pages = allocator@.mapped[handle.block_id].pages;
                match first_unstored(store, pages, pages.len()) {
                    Some(page) => Some(no_block_text(page)),
                    None => if self.slot_id is None {
                        Some("Slot not bound"@)
                    } else {
                        None
                    },
                }
            }
        }
    }

    /// A forward pass for a token at a position.
    pub open spec fn call(
        self,
        allocator: PagedAttentionBlockManager,
        token: TokenId,
        pos: usize,
    ) -> ForwardCall {
        ForwardCall {
            token,
            pos,
            slot: self.slot_id->0,
            max_pages: allocator@.config.total_pages,
            block_size: self.config.paged_block_size,
        }
    }

    pub fn new(config: MetalBackendConfig) -> (r: Result<Self, SpeculativeError>)
        ensures
            match backend_fault(config) {
                Some(s) => r is Err && r->Err_0 is Model && r->Err_0->Model_0@ == s,
                None => r is Ok,
            },
            r is Ok ==> {
                let b = r->Ok_0;
                &&& b.config == config
                &&& b.device.name@ == "apple-metal-placeholder"@
                &&& b.device.unified_memory
                &&& b.bound_prefix is None
                &&& !b.has_model
                &&& !b.wired
                &&& b.slot_id is None
            },
    {
        if config.max_context_tokens == 0 {
            return Err(
                SpeculativeError::Model(
                    String::from_str("max_context_tokens must be greater than zero"),
                ),
            );
        }
        if config.kv_bytes_per_token == 0 {
            return Err(
                SpeculativeError::Model(
                    String::from_str("kv_bytes_per_token must be greater than zero"),
                ),
            );
        }
        Ok(
            MetalBackend {
                config,
                device: MetalDeviceInfo {
                    name: String::from_str("apple-metal-placeholder"),
                    unified_memory: true,
                },
                bound_prefix: None,
                has_model: false,
                wired: false,
                slot_id: None,
            },
        )
    }

    /// A model was put on the device.
    pub fn with_model(self) -> (b: Self)
        ensures
            b == (MetalBackend { has_model: true, ..self }),
    {
        let mut b = self;
        b.has_model = true;
        b
    }

    pub fn config(&self) -> (c: &MetalBackendConfig)
        ensures
            *c == self.config,
    {
        &self.config
    }

    pub fn device(&self) -> (d: &MetalDeviceInfo)
        ensures
            *d == self.device,
    {
        &self.device
    }

    pub fn bound_prefix(&self) -> (p: Option<CacheLookup>)
        ensures
            p == self.bound_prefix,
    {
        self.bound_prefix
    }

    /// Uses the memory of a runtime and the model that was loaded with its
    /// device. `uploaded` is how loading the weights went; it only counts where
    /// the device is complete.
    pub fn wire(
        &mut self,
        parts: DeviceParts,
        device: MetalDeviceInfo,
        uploaded: Result<(), SpeculativeError>,
    ) -> (r: Result<(), SpeculativeError>)
        ensures
            match wiring_fault(parts) {
                Some(s) => r is Err && r->Err_0 is Model && r->Err_0->Model_0@ == s
                    && *final(self) == *old(self),
                None => match uploaded {
                    Err(e) => r is Err && r->Err_0 == e && *final(self) == *old(self),
                    Ok(_) => r is Ok && *final(self) == (MetalBackend {
                        device,
                        has_model: true,
                        wired: true,
                        ..*old(self)
                    }),
                },
            },
    {
        if !parts.device {
            return Err(SpeculativeError::Model(String::from_str("Runtime missing device")));
        }
        if !parts.command_queue {
            return Err(SpeculativeError::Model(String::from_str("Runtime missing queue")));
        }
        if !parts.library {
            return Err(SpeculativeError::Model(String::from_str("Runtime missing library")));
        }
        match uploaded {
            Err(e) => Err(e),
            Ok(()) => {
                self.has_model = true;
                self.wired = true;
                self.device = device;
                Ok(())
            },
        }
    }

    pub fn bind_prefix_cache(&mut self, prefix: &CacheLookup) -> (r: Result<(), SpeculativeError>)
        ensures
            r is Ok,
            *final(self) == (MetalBackend { bound_prefix: Some(*prefix), ..*old(self) }),
    {
        self.bound_prefix = Some(*prefix);
        Ok(())
    }

    pub fn bind_slot(&mut self, slot: SlotId) -> (r: Result<(), SpeculativeError>)
        ensures
            r is Ok,
            *final(self) == (MetalBackend { slot_id: Some(slot), ..*old(self) }),
    {
        self.slot_id = Some(slot);
        Ok(())
    }

    /// Checks that a forward pass can be run, and gives its slot.
    fn ready(
        &self,
        allocator: &PagedAttentionBlockManager,
        store: &MetalKvStore,
        empty: bool,
    ) -> (r: Result<SlotId, SpeculativeError>)
        requires
            store@.wf(),
        ensures
            match self.fault(*allocator, *store, empty) {
                Some(s) => r is Err && r->Err_0 is Model && r->Err_0->Model_0@ == s,
                None => r is Ok && self.slot_id == Some(r->Ok_0),
            },
    {
        if !self.has_model {
            return Err(
                SpeculativeError::Model(
                    String::from_str(
                        "Metal backend skeleton is not wired to model weights or kernels yet",
                    ),
                ),
            );
        }
        if !self.wired {
            return Err(SpeculativeError::Model(String::from_str("Allocator not wired")));
        }
        if empty {
            return Err(
                SpeculativeError::Model(String::from_str("next_logits called with empty context")),
            );
        }
        let prefix: CacheLookup = match self.bound_prefix {
            Some(p) => p,
            None => {
                return Err(SpeculativeError::Model(String::from_str("No prefix bound")));
            },
        };
        let handle: KvCacheHandle = match prefix.handle {
            Some(h) => h,
            None => {
                return Err(SpeculativeError::Model(String::from_str("Prefix has no KV handle")));
            },
        };
        let span: PageSpan = match allocator.materialize_span(handle) {
            Some(s) => s,
            None => {
                return Err(
                    SpeculativeError::Model(
                        text_with_numbers(
                            "Could not materialize span for prefix KvCacheHandle { block_id: ",
                            handle.block_id,
                            ", token_len: ",
                            handle.token_len as u64,
                            " }",
                        ),
                    ),
                );
            },
        };
        let ghost pages = allocator@.mapped[handle.block_id].pages;
        let mut i: usize = 0;
        while i < span.pages.len()
            invariant
                i <= span.pages@.len(),
                span.pages@ == pages,
                store@.wf(),
                self.has_model && self.wired && !empty,
                self.bound_prefix == Some(prefix),
                prefix.handle == Some(handle),
                allocator@.mapped.contains_key(handle.block_id),
                pages == allocator@.mapped[handle.block_id].pages,
                first_unstored(*store, pages, i as nat) is None,
            decreases span.pages@.len() - i,
        {
            let page: PageId = span.pages[i];
            let found = store.get_block(KvCacheHandle { block_id: page.0, token_len: 0 });
            if found.is_none() {
                proof {
                    lemma_first_unstored(*store, pages, (i + 1) as nat, pages.len());
                }
                return Err(
                    SpeculativeError::Model(
                        text_with_number("Block PageId(", page.0, ") not found in store"),
                    ),
                );
            }
            i = i + 1;
        }
        match self.slot_id {
            Some(slot) => Ok(slot),
            None => Err(SpeculativeError::Model(String::from_str("Slot not bound"))),
        }
    }

    /// The forward pass that gives the logits after a context: the last token,
    /// at its position.
    pub fn next_call(
        &self,
        allocator: &PagedAttentionBlockManager,
        store: &MetalKvStore,
        context: &[TokenId],
    ) -> (r: Result<ForwardCall, SpeculativeError>)
        requires
            store@.wf(),
        ensures
            match self.fault(*allocator, *store, context@.len() == 0) {
                Some(s) => r is Err && r->Err_0 is Model && r->Err_0->Model_0@ == s,
                None => r is Ok && r->Ok_0 == self.call(
                    *allocator,
                    context@.last(),
                    (context@.len() - 1) as usize,
                ),
            },
            r is Ok ==> {
                let last = r->Ok_0;
                &&& last.pos + 1 == context@.len()
                &&& last.token == context@[last.pos as int]
                &&& self.slot_id == Some(last.slot)
                &&& last.max_pages == allocator@.config.total_pages
                &&& last.block_size == self.config.paged_block_size
            },
    {
        match self.ready(allocator, store, context.len() == 0) {
            Err(e) => Err(e),
            Ok(slot) => Ok(
                ForwardCall {
                    token: context[context.len() - 1],
                    pos: context.len() - 1,
                    slot,
                    max_pages: allocator.config().total_pages,
                    block_size: self.config.paged_block_size,
                },
            ),
        }
    }

    /// The forward passes that verify drafted tokens: each token at the position
    /// after the one before it, the first one after the context.
    pub fn verify_calls(
        &self,
        allocator: &PagedAttentionBlockManager,
        store: &MetalKvStore,
        context: &[TokenId],
        drafted: &[TokenId],
    ) -> (r: Result<Vec<ForwardCall>, SpeculativeError>)
        requires
            store@.wf(),
            context@.len() + drafted@.len() <= usize::MAX,
        ensures
            match self.fault(*allocator, *store, false) {
                Some(s) => r is Err && r->Err_0 is Model && r->Err_0->Model_0@ == s,
                None => r is Ok && r->Ok_0@ == Seq::new(
                    drafted@.len(),
                    |i: int| self.call(*allocator, drafted@[i], (context@.len() + i) as usize),
                ),
            },
            r is Ok ==> r->Ok_0@.len() == drafted@.len(),
            r is Ok ==> forall|i: int|
                0 <= i < drafted@.len() ==> {
                    let call = #[trigger] r->Ok_0@[i];
                    &&& call.pos == context@.len() + i
                    &&& call.token == (context@ + drafted@)[call.pos as int]
                    &&& self.slot_id == Some(call.slot)
                    &&& call.max_pages == allocator@.config.total_pages
                    &&& call.block_size == self.config.paged_block_size
                },
    {
        let slot: SlotId = match self.ready(allocator, store, false) {
            Err(e) => {
                return Err(e);
            },
            Ok(slot) => slot,
        };
        let n: usize = context.len();
        let mut calls: Vec<ForwardCall> = Vec::with_capacity(drafted.len());
        let mut i: usize = 0;
        while i < drafted.len()
            invariant
                i <= drafted@.len(),
                n == context@.len(),
                n + drafted@.len() <= usize::MAX,
                self.slot_id == Some(slot),
                calls@ == Seq::new(
                    i as nat,
                    |i: int| self.call(*allocator, drafted@[i], (context@.len() + i) as usize),
                ),
            decreases drafted@.len() - i,
        {
            calls.push(
                ForwardCall {
                    token: drafted[i],
                    pos: n + i,
                    slot,
                    max_pages: allocator.config().total_pages,
                    block_size: self.config.paged_block_size,
                },
            );
            i = i + 1;
            assert(calls@ =~= Seq::new(
                i as nat,
                |i: int| self.call(*allocator, drafted@[i], (context@.len() + i) as usize),
            ));
        }
        Ok(calls)
    }
}

proof fn lemma_first_unstored(store: MetalKvStore, pages: Seq<PageId>, i: nat, n: nat)
    requires
        i <= n,
        first_unstored(store, pages, i) is Some,
    ensures
        first_unstored(store, pages, n) == first_unstored(store, pages, i),
    decreases n,
{
    if i < n {
        lemma_first_unstored(store, pages, i, (n - 1) as nat);
    }
}

/// The page that is reported is the first one that the store does not have: those
/// before it are all there.
pub proof fn the_first_missing_page_is_reported(store: MetalKvStore, pages: Seq<PageId>, n: nat)
    requires
        n <= pages.len(),
    ensures
        match first_unstored(store, pages, n) {
            None => forall|i: int| 0 <= i < n ==> page_stored(store, #[trigger] pages[i]),
            Some(page) => exists|k: int|
                0 <= k < n && #[trigger] pages[k] == page && !page_stored(store, page) && forall|
                    i: int,
                |
                    0 <= i < k ==> page_stored(store, #[trigger] pages[i]),
        },
    decreases n,
{
    if n > 0 {
        the_first_missing_page_is_reported(store, pages, (n - 1) as nat);
        if first_unstored(store, pages, (n - 1) as nat) is None && !page_stored(
            store,
            pages[n - 1],
        ) {
            assert(pages[n - 1] == first_unstored(store, pages, n)->0);
        }
    }
}


/// A pass can be run exactly where a model is wired, a prefix with a handle is bound, the
/// handle has pages that the store has, a slot is bound and there is a token to run it
/// for.
pub proof fn passes_run_where_all_is_bound(
    b: MetalBackend,
    allocator: PagedAttentionBlockManager,
    store: MetalKvStore,
    empty: bool,
)
    ensures
        b.fault(allocator, store, empty) is None <==> {
            &&& b.has_model && b.wired && !empty && b.slot_id is Some
            &&& b.bound_prefix is Some && b.bound_prefix->0.handle is Some
            &&& allocator@.mapped.contains_key(b.bound_prefix->0.handle->0.block_id)
            &&& forall|i: int|
                0 <= i < allocator@.mapped[b.bound_prefix->0.handle->0.block_id].pages.len()
                    ==> page_stored(
                    store,
                    #[trigger] allocator@.mapped[b.bound_prefix->0.handle->0.block_id].pages[i],
                )
        },
{
    let pages = allocator@.mapped[b.bound_prefix->0.handle->0.block_id].pages;
    the_first_missing_page_is_reported(store, pages, pages.len());
}

/// A backend needs a context and bytes for its tokens, and to be wired a device, its
/// queue and its library.
pub proof fn backends_need_their_parts(config: MetalBackendConfig, parts: DeviceParts)
    ensures
        backend_fault(config) is None <==> config.max_context_tokens > 0
            && config.kv_bytes_per_token > 0,
        wiring_fault(parts) is None <==> parts.device && parts.command_queue && parts.library,
{
}
} // verus!
