//! What callers from other languages get. Pointers and strings of theirs are
//! taken apart by the caller.

use vstd::prelude::*;
use vstd::string::*;
use crate::engine;
use crate::engine::{EngineConfig, VeloEngine};
use crate::metal::config::MetalRuntimeConfig;
use crate::metal::runtime;
use crate::metal::runtime::{MetalMemoryRuntime, Opening};
use crate::metal::types::Quantization;
use crate::paged_attention::KvCacheType;
use crate::radix_cache;
use crate::radix_cache::TokenId;
use crate::runtime::MemoryRuntimeConfig;
use crate::slot_manager;
use crate::speculative::append_tokens;
use crate::text;

verus! {

/// An engine in the hands of another language.
pub struct VeloEngineHandle {
    pub engine: VeloEngine<MetalMemoryRuntime>,
}

/// The memory of such an engine: 32 pages of 16 tokens.
pub open spec fn handle_memory(
    max_slots: usize,
    max_context_tokens: usize,
) -> MemoryRuntimeConfig {
    MemoryRuntimeConfig {
        bytes_per_token: max_context_tokens,
        paged_block_size: 16,
        paged_total_pages: 32,
        n_layer: max_slots,
        unified_memory: false,
        max_slots,
    }
}

/// Makes an engine for a model, on the device that was opened. There is none
/// without a name, if the name is blank, without room for a token, or if the
/// device could not be opened.
pub fn velo_core_engine_new(
    model_name: Option<String>,
    max_slots: usize,
    max_context_tokens: usize,
    opening: Opening,
) -> (handle: Option<VeloEngineHandle>)
    requires
        runtime::sizes_fit(handle_memory(max_slots, max_context_tokens)),
    ensures
        handle is Some <==> (model_name is Some && !text::blank(model_name->0@)
            && max_context_tokens > 0 && opening is Open),
        handle is Some ==> {
            let e = handle->0.engine;
            &&& engine::engine_wf(e)
            &&& engine::engine_backed(e)
            &&& e.decodes().window() == 8
            &&& e.decodes().limit() == 16
            &&& e.slots().max() == max_slots
            &&& e.slots()@ == slot_manager::fresh_slots(max_slots)
            &&& e.cached()@ == radix_cache::empty_cache()
            &&& e.factory() is None
            &&& runtime::is_fresh(e.memory(), e.memory().config, opening->Open_0)
            &&& e.memory().config.model_name@ == model_name->0@
            &&& e.memory().config.memory == handle_memory(max_slots, max_context_tokens)
            &&& e.memory().config.quantization == Quantization::Q4_0
        },
{
    let model_name: String = match model_name {
        Some(n) => n,
        None => {
            return None;
        },
    };
    let memory: MemoryRuntimeConfig = MemoryRuntimeConfig::cpu(
        max_context_tokens,
        16,
        32,
        max_slots,
        max_slots,
    );
    let config: EngineConfig = EngineConfig {
        draft_window: 8,
        memory,
        kv_type: KvCacheType::Fp32,
    };
    let runtime_config: MetalRuntimeConfig = MetalRuntimeConfig {
        model_name,
        memory,
        quantization: Quantization::Q4_0,
    };
    match MetalMemoryRuntime::new(runtime_config, opening) {
        Ok(runtime) => match VeloEngine::with_runtime(config, runtime) {
            Ok(engine) => Some(VeloEngineHandle { engine }),
            Err(_) => None,
        },
        Err(_) => None,
    }
}

/// Generates tokens: for now the prompt comes back, which shows that the two
/// sides understand each other.
pub fn velo_core_engine_generate(
    handle: &mut VeloEngineHandle,
    prompt: &[TokenId],
    max_new_tokens: usize,
) -> (tokens: Vec<TokenId>)
    ensures
        tokens@ == prompt@,
        *final(handle) == *old(handle),
{
    let mut tokens: Vec<TokenId> = Vec::with_capacity(prompt.len());
    append_tokens(&mut tokens, prompt);
    assert(tokens@ =~= prompt@);
    tokens
}

} // verus!
