//! Configuration of the Metal backend and of its memory runtime.

use vstd::prelude::*;
use vstd::string::*;
use crate::metal::types::Quantization;
use crate::paged_attention::KvCacheType;
use crate::runtime::MemoryRuntimeConfig;

verus! {

/// Configuration for the Metal backend.
#[derive(Debug, Clone)]
pub struct MetalBackendConfig {
    /// Name of the model.
    pub model_name: String,
    /// Maximum context length in tokens.
    pub max_context_tokens: usize,
    /// Number of bytes required per KV token.
    pub kv_bytes_per_token: usize,
    /// Number of tokens per page/block.
    pub paged_block_size: usize,
    /// Quantization format used by the weights.
    pub quantization: Quantization,
    /// Numerical format of the cache.
    pub kv_type: KvCacheType,
}

impl Default for MetalBackendConfig {
    fn default() -> (c: Self)
        ensures
            c.model_name@ == "llama-metal"@,
            c.max_context_tokens == 4096,
            c.kv_bytes_per_token == 4,
            c.paged_block_size == 16,
            c.quantization == Quantization::Q4_0,
            c.kv_type == KvCacheType::Fp32,
    {
        MetalBackendConfig {
            model_name: String::from_str("llama-metal"),
            max_context_tokens: 4096,
            kv_bytes_per_token: 4,
            paged_block_size: 16,
            quantization: Quantization::Q4_0,
            kv_type: KvCacheType::Fp32,
        }
    }
}

/// Configuration for the Metal memory runtime.
#[derive(Debug, Clone)]
pub struct MetalRuntimeConfig {
    /// Name of the model.
    pub model_name: String,
    /// Memory allocation configuration.
    pub memory: MemoryRuntimeConfig,
    /// Quantization format.
    pub quantization: Quantization,
}

impl Default for MetalRuntimeConfig {
    fn default() -> (c: Self)
        ensures
            c.model_name@ == "llama-metal"@,
            c.memory == (MemoryRuntimeConfig {
                bytes_per_token: 0,
                paged_block_size: 0,
                paged_total_pages: 0,
                n_layer: 0,
                unified_memory: false,
                max_slots: 0,
            }),
            c.quantization == Quantization::Q4_0,
    {
        MetalRuntimeConfig {
            model_name: String::from_str("llama-metal"),
            memory: MemoryRuntimeConfig::default(),
            quantization: Quantization::Q4_0,
        }
    }
}

} // verus!
