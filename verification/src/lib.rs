//! Velo-Core: the verified core of an LLM inference engine.

pub mod amx;
pub mod backend;
pub mod benchmark;
pub mod bytes;
pub mod chat_template;
pub mod cli;
pub mod constraints;
pub mod engine;
pub mod ffi;
pub mod gguf;
pub mod kv_store;
pub mod llama_cpu;
pub mod lora;
pub mod metal;
pub mod mock_backend;
pub mod model_loader;
pub mod model_pool;
pub mod nixl;
pub mod paged_attention;
pub mod power;
pub mod quant;
pub mod radix_cache;
pub mod ranking;
pub mod report;
pub mod runtime;
pub mod sampling;
pub mod scalar;
pub mod scheduler;
pub mod slot_manager;
pub mod speculative;
pub mod table;
pub mod text;
pub mod tokenizer;

pub use crate::amx::AmxContext;
pub use crate::backend::{CausalLmBackend, GreedyDraftModel, GreedyTargetModel, TokenLogits};
pub use crate::benchmark::{
    parse_llama_csv, run_single_case, BenchmarkConfig, BenchmarkFormat, BenchmarkMode,
    BenchmarkReport, BenchmarkRow, BenchmarkSample, LlamaBenchRow,
};
pub use crate::constraints::{CfgMatcher, Constraint};
pub use crate::engine::{
    EngineConfig, EngineError, EngineOutput, EnginePrefillOutput, EngineStats, VeloEngine,
};
pub use crate::gguf::{GgmlType, GgufError, GgufFile, GgufValue, TensorInfo};
pub use crate::kv_store::{InMemoryKvStore, KvBlock, KvStore, KvStoreError};
pub use crate::llama_cpu::LlamaCpuModel;
pub use crate::lora::{AdapterId, LoraConfig, LoraRegistry, LoraWeights};
pub use crate::metal::{
    MetalBackend, MetalBackendConfig, MetalBufferPlacement, MetalDeviceInfo, MetalMemoryRuntime,
    MetalRuntimeConfig, MetalRuntimeContext,
};
pub use crate::mock_backend::MockBackend;
pub use crate::model_loader::{load_gguf, LoadError, ModelMeta, WeightStore};
pub use crate::model_pool::ModelPool;
pub use crate::nixl::{
    build_fabric, deserialize_block, serialize_block, CacheTransferAgent, DmaBlockManager,
    DmaStats, NixlNodeId, NodeRegistry, RemoteBlock, TransferOutcome, TransferStats,
    WIRE_HEADER_LEN,
};
pub use crate::paged_attention::{
    BlockMapping, PageId, PageManagerError, PageSpan, PagedAttentionBlockManager,
    PagedAttentionConfig,
};
pub use crate::power::{PowerState, PowerTelemetry, PrecisionGovernor, SmcTelemetry};
pub use crate::radix_cache::{CacheInsert, CacheLookup, KvCacheHandle, RadixCache, TokenId};
pub use crate::report::compare_with_llama_csv;
pub use crate::runtime::{
    CpuMemoryRuntime, KvBlockStore, MemoryRuntime, MemoryRuntimeConfig, PagedBlockAllocator,
};
pub use crate::sampling::{GreedySampler, MinPSampler, Sampler, TopPSampler};
pub use crate::scheduler::VeloScheduler;
pub use crate::slot_manager::{SlotId, SlotPool};
pub use crate::speculative::{
    DraftModel, NextTokenPrediction, SpeculativeDecoder, SpeculativeError, SpeculativeOutput,
    SpeculativeStats, TargetModel, VerifyStep,
};
