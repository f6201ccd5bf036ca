//! Apple Metal GPU acceleration: what the host decides and accounts for.

pub mod backend;
pub mod config;
pub mod kv_store;
pub mod model;
pub mod runtime;
pub mod sharding;
pub mod tp_model;
pub mod types;

pub use backend::{ForwardCall, MetalBackend};
pub use config::{MetalBackendConfig, MetalRuntimeConfig};
pub use kv_store::MetalKvStore;
pub use runtime::{MetalMemoryRuntime, MetalRuntimeContext, Opening};
pub use sharding::{get_shard_strategy, shard_weight, ShardStrategy, ShardedWeight};
pub use model::LlamaMetalModel;
pub use tp_model::LlamaTensorParallelModel;
pub use types::{DeviceParts, MetalBufferPlacement, MetalDeviceInfo, MetalError, Quantization};
