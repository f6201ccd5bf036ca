use velo_core::gguf::{GgmlType, TensorInfo};
use velo_core::metal::backend::MetalBackend;
use velo_core::metal::config::{MetalBackendConfig, MetalRuntimeConfig};
use velo_core::metal::kv_store::MetalKvStore;
use velo_core::metal::model::{ForwardArgs, Kernel, LlamaMetalModel, Op, Scratch, Style};
use velo_core::metal::runtime::{MetalMemoryRuntime, Opening};
use velo_core::metal::sharding::{get_shard_strategy, shard_weight, ShardStrategy};
use velo_core::metal::tp_model::{shard_meta, LlamaTensorParallelModel};
use velo_core::metal::types::{
    DeviceParts, MetalBufferPlacement, MetalDeviceInfo, MetalError, Quantization,
};
use velo_core::model_loader::{ModelMeta, WeightStore};
use velo_core::paged_attention::{KvCacheType, PagedAttentionBlockManager, PagedAttentionConfig};
use velo_core::radix_cache::{CacheLookup, KvCacheHandle};
use velo_core::runtime::{KvBlockStore, MemoryRuntime, MemoryRuntimeConfig};
use velo_core::scalar::F32;
use velo_core::slot_manager::SlotId;
use velo_core::table::Table;

fn config() -> MetalBackendConfig {
    MetalBackendConfig {
        model_name: "draft-1b".to_string(),
        max_context_tokens: 4096,
        kv_bytes_per_token: 4096,
        paged_block_size: 16,
        quantization: Quantization::Q4K,
        kv_type: KvCacheType::Fp32,
    }
}

fn runtime_config(name: &str) -> MetalRuntimeConfig {
    MetalRuntimeConfig {
        model_name: name.to_string(),
        memory: MemoryRuntimeConfig::cpu(4096, 16, 32, 32, 32),
        quantization: Quantization::Q4K,
    }
}

fn open() -> Opening {
    Opening::Open("gpu".to_string())
}

#[test]
fn validates_non_zero_context() {
    let mut config = config();
    config.max_context_tokens = 0;

    assert!(MetalBackend::new(config).is_err());
}

#[test]
fn records_bound_prefix_cache() {
    let mut backend = MetalBackend::new(config()).unwrap();
    let prefix = CacheLookup { matched_tokens: 32, handle: None };

    backend.bind_prefix_cache(&prefix).unwrap();

    assert_eq!(backend.bound_prefix(), Some(prefix));
}

fn memory() -> (PagedAttentionBlockManager, MetalKvStore) {
    (
        PagedAttentionBlockManager::new(PagedAttentionConfig::new(16, 4).unwrap()),
        MetalKvStore::new(128, 4, 16, 1),
    )
}

#[test]
fn logits_return_explicit_not_initialized_error() {
    let backend = MetalBackend::new(config()).unwrap();
    let (allocator, store) = memory();

    let error = backend.next_call(&allocator, &store, &[1, 2, 3]).unwrap_err();

    assert!(error.to_string().contains("not wired"));
}

#[test]
fn metal_runtime_exposes_memory_runtime_shape() {
    let runtime = MetalMemoryRuntime::new(runtime_config("target-8b"), open()).unwrap();

    assert_eq!(runtime.config().model_name, "target-8b");
    assert!(runtime.context().device.unified_memory);
    assert_eq!(runtime.context().placement, MetalBufferPlacement::Unified);
    assert!(!runtime.has_device_handles());
    assert_eq!(runtime.store().allocated_bytes(), 0);
    assert_eq!(runtime.allocator().free_pages(), 32);
}

#[test]
fn metal_runtime_accepts_opaque_handles() {
    let runtime = MetalMemoryRuntime::new(runtime_config("target-8b"), open()).unwrap();

    assert!(!runtime.has_device_handles());
}

#[test]
fn handles_are_there_once_they_are_given() {
    let runtime = MetalMemoryRuntime::new(runtime_config("target-8b"), open()).unwrap();
    let all = DeviceParts { device: true, command_queue: true, library: true };
    let partly = DeviceParts { library: false, ..all };

    let runtime = runtime.with_handles(partly);
    assert!(!runtime.has_device_handles());
    assert!(runtime.with_handles(all).has_device_handles());
}

fn meta() -> ModelMeta {
    ModelMeta {
        arch: "llama".to_string(),
        n_vocab: 32000,
        n_embd: 4096,
        n_layer: 32,
        n_head: 32,
        n_head_kv: 32,
        n_ctx: 4096,
        n_ff: 11008,
        head_dim: 128,
        rope_freq_base: F32::from_bits(10000.0f32.to_bits()),
        norm_eps: F32::from_bits(1e-5f32.to_bits()),
        quantization: Quantization::Q4K,
    }
}

#[test]
fn llama_metal_model_compiles_kernels() {
    let kernels = LlamaMetalModel::kernels_to_compile(Style::Stepwise);
    let model = LlamaMetalModel::new(meta(), kernels);
    let names: Vec<&str> = model.pipelines.iter().map(|k| k.function_name()).collect();

    assert!(names.contains(&"matvec_f32"));
    assert!(names.contains(&"rms_norm"));
    assert!(names.contains(&"rope"));
    assert!(names.contains(&"attn_q_k"));
    assert!(names.contains(&"attn_p_v"));
    assert!(names.contains(&"vec_add"));
}

#[test]
fn test_pipelines_loaded() {
    let kernels = LlamaMetalModel::kernels_to_compile(Style::Fused);
    assert!(kernels.contains(&Kernel::RmsNorm));
    assert!(kernels.contains(&Kernel::MatvecF32));
    assert!(kernels.contains(&Kernel::Argmax));
}

#[test]
fn test_metal_backend_new_validation() {
    let mut cfg = MetalBackendConfig::default();
    cfg.max_context_tokens = 0;
    assert!(MetalBackend::new(cfg).is_err());

    let mut cfg = MetalBackendConfig::default();
    cfg.kv_bytes_per_token = 0;
    assert!(MetalBackend::new(cfg).is_err());
}

#[test]
fn test_backend_config_validation() {
    let mut cfg = MetalBackendConfig::default();
    cfg.max_context_tokens = 0;
    assert!(MetalBackend::new(cfg).is_err());

    let mut cfg = MetalBackendConfig::default();
    cfg.kv_bytes_per_token = 0;
    assert!(MetalBackend::new(cfg).is_err());
}

#[test]
fn test_metal_backend_not_initialized() {
    let backend = MetalBackend::new(MetalBackendConfig::default()).unwrap();
    assert!(format!("{:?}", backend).contains("MetalBackend"));
}

#[test]
fn test_metal_backend_config_default() {
    let cfg = MetalBackendConfig::default();
    assert_eq!(cfg.model_name, "llama-metal");
    assert_eq!(cfg.quantization, Quantization::Q4_0);
}

#[test]
fn test_metal_runtime_config_default() {
    let cfg = MetalRuntimeConfig::default();
    assert_eq!(cfg.model_name, "llama-metal");
    assert_eq!(cfg.quantization, Quantization::Q4_0);
}

#[test]
fn test_metal_backend_compression_config() {
    let mut config = MetalBackendConfig::default();
    config.kv_type = KvCacheType::Int8;
    assert_eq!(config.kv_type, KvCacheType::Int8);
}

#[test]
fn test_metal_kv_store_allocation() {
    let kv_bytes_per_token = 128;
    let pool_pages = 10;
    let page_tokens = 16;
    let n_layer = 1;

    let mut store = MetalKvStore::new(kv_bytes_per_token, pool_pages, page_tokens, n_layer);

    assert_eq!(store.allocated_bytes(), 0);

    let handle1 = store.allocate(16).unwrap();
    assert_eq!(handle1.block_id, 1);
    assert_eq!(handle1.token_len, 16);

    let block1 = store.get_block(handle1).unwrap();
    assert_eq!(block1.handle, handle1);
    assert_eq!(block1.bytes, 16 * 128);

    let handle2 = store.allocate(16).unwrap();
    assert_eq!(handle2.block_id, 2);

    store.release_block(handle1).unwrap();
    assert!(store.get_block(handle1).is_none());

    // Allocate again, should reuse
    let handle3 = store.allocate(16).unwrap();
    assert_eq!(handle3.block_id, 3);

    // Exceed capacity
    for _ in 0..8 {
        store.allocate(16).unwrap();
    }
    assert!(store.allocate(16).is_err());
}

#[test]
fn mod_test_quantization_from_str() {
    assert_eq!(Quantization::from_str("q4_0").unwrap(), Quantization::Q4_0);
    assert_eq!(Quantization::from_str("q4k").unwrap(), Quantization::Q4K);
    assert_eq!(Quantization::from_str("f32").unwrap(), Quantization::F32);
    assert!(Quantization::from_str("invalid").is_err());
}

#[test]
fn types_test_quantization_from_str() {
    assert_eq!(Quantization::from_str("q4_0").unwrap(), Quantization::Q4_0);
    assert_eq!(Quantization::from_str("Q4_K").unwrap(), Quantization::Q4K);
    assert_eq!(Quantization::from_str("f32").unwrap(), Quantization::F32);
    assert!(Quantization::from_str("unknown").is_err());
}

#[test]
fn test_quantization_properties() {
    assert_eq!(Quantization::Q4_0.block_size(), 32);
    assert_eq!(Quantization::F32.block_size(), 1);
    assert_eq!(Quantization::Q4_0.format_name(), "Q4_0");
}

#[test]
fn test_quantization_from_ggml() {
    assert_eq!(Quantization::from_ggml(GgmlType::F32).unwrap(), Quantization::F32);
    assert_eq!(Quantization::from_ggml(GgmlType::Q4_0).unwrap(), Quantization::Q4_0);
    assert!(Quantization::from_ggml(GgmlType::Q5_0).is_none());
}

#[test]
fn test_metal_error_display() {
    let err = MetalError::LibraryError("failed".into());
    assert_eq!(err.to_string(), "Metal library error: failed");

    let err2 = MetalError::DeviceNotFound;
    assert_eq!(err2.to_string(), "Metal device not found");

    let err3 = MetalError::PipelineError("test".into());
    assert_eq!(err3.to_string(), "Metal pipeline error: test");
}

#[test]
fn test_metal_error_variants() {
    let e1 = MetalError::DeviceNotFound;
    let e2 = MetalError::LibraryError("lib".into());
    let e3 = MetalError::PipelineError("pipe".into());

    assert_eq!(e1, e1.clone());
    assert_ne!(e1, e2);

    assert!(e1.to_string().contains("not found"));
    assert!(e2.to_string().contains("Metal library error: lib"));
    assert!(e3.to_string().contains("Metal pipeline error: pipe"));
}

#[test]
fn mod_test_metal_device_info_traits() {
    let info = MetalDeviceInfo { name: "M3".to_string(), unified_memory: true };
    let info2 = info.clone();
    assert_eq!(info, info2);
    assert!(format!("{:?}", info).contains("M3"));
}

#[test]
fn types_test_metal_device_info_traits() {
    let info = MetalDeviceInfo { name: "test".to_string(), unified_memory: true };
    assert_eq!(info.name, "test");
    assert!(info.unified_memory);
    assert!(format!("{:?}", info).contains("MetalDeviceInfo"));

    let clone = info.clone();
    assert_eq!(clone.name, "test");
}

#[test]
fn test_metal_buffer_placement_traits() {
    let placement = MetalBufferPlacement::Unified;
    assert!(format!("{:?}", placement).contains("Unified"));

    let placement2 = MetalBufferPlacement::Private;
    assert_eq!(placement.clone(), MetalBufferPlacement::Unified);
    assert_ne!(placement, placement2);
}

#[test]
fn test_runtime_config_validation() {
    let base_cfg = MetalRuntimeConfig {
        model_name: "test".to_string(),
        memory: MemoryRuntimeConfig::cpu(4096, 16, 32, 32, 32),
        quantization: Quantization::F32,
    };

    let mut cfg = base_cfg.clone();
    cfg.model_name = "  ".to_string();
    assert!(MetalMemoryRuntime::new(cfg, open()).is_err());

    let mut cfg = base_cfg.clone();
    cfg.memory.bytes_per_token = 0;
    assert!(MetalMemoryRuntime::new(cfg, open()).is_err());
}

#[test]
fn opening_failures_are_named() {
    let fails = |opening: Opening| {
        MetalMemoryRuntime::new(runtime_config("m"), opening).err().unwrap().to_string()
    };
    assert!(fails(Opening::NoDevice).contains("No Metal device found"));
    assert!(fails(Opening::NoQueue).contains("command queue"));
    assert!(fails(Opening::NoKernels("why".into())).contains("why"));
}

#[test]
fn slots_are_bound_row_by_row() {
    let mut cfg = runtime_config("m");
    cfg.memory = MemoryRuntimeConfig::new(8, 2, 3, 1, 2);
    let mut runtime = MetalMemoryRuntime::new(cfg, open()).unwrap();
    runtime.bind_slot(SlotId(1), &[7, 8]).unwrap();
    assert_eq!(runtime.slot_mapping, vec![0, 0, 0, 7, 8, 0]);
    runtime.bind_slot(SlotId(0), &[1, 2, 3]).unwrap();
    assert_eq!(runtime.slot_mapping, vec![1, 2, 3, 7, 8, 0]);
    assert!(runtime.bind_slot(SlotId(0), &[1, 2, 3, 4]).is_err());
}

#[test]
fn test_get_scratch_reuses_buffer() {
    let mut model = LlamaMetalModel::new(meta(), Vec::new());
    assert!(matches!(model.get_scratch("test_scratch", 256), Scratch::Allocate));
    // smaller — should reuse
    assert!(matches!(model.get_scratch("test_scratch", 128), Scratch::Reuse));
    // larger — new alloc
    assert!(matches!(model.get_scratch("test_scratch", 512), Scratch::Allocate));
}

#[test]
fn test_tp_model_init_dummy() {
    let mut m = meta();
    m.n_vocab = 128;
    m.n_embd = 64;
    m.n_layer = 1;
    let model = LlamaTensorParallelModel::new(m, 2);
    if let Ok(tp_model) = model {
        assert!(tp_model.tp_degree >= 1);
    }
    assert!(LlamaTensorParallelModel::new(meta(), 0).is_err());
}

fn forward_args() -> ForwardArgs {
    ForwardArgs {
        token: 1,
        pos: 0,
        slot: SlotId(0),
        max_pages: 4,
        block_size: 16,
        kv_type: KvCacheType::Fp32,
        style: Style::Fused,
    }
}

#[test]
fn a_model_without_weights_gives_no_logits() {
    let model = LlamaMetalModel::new(meta(), LlamaMetalModel::kernels_to_compile(Style::Fused));
    let ops = model.forward(forward_args()).unwrap();
    assert!(!ops.iter().any(|o| matches!(o, Op::Matvec { .. })));
    assert!(!ops.is_empty());
}

#[test]
fn test_upload_weights_populates_map() {
    let mut model = LlamaMetalModel::new(meta(), Vec::new());
    let mut index = Table::new();
    index.insert(
        "token_embd.weight".to_string(),
        TensorInfo {
            name: "token_embd.weight".to_string(),
            dtype: GgmlType::F32,
            shape: vec![2, 1],
            offset: 0,
            nbytes: 8,
        },
    );
    let store = WeightStore { meta: meta(), index, data: vec![0; 8] };
    let (uploads, _) = model.upload_weights(&store);
    assert!(uploads.iter().any(|u| u.name == "token_embd.weight" && u.start == 0 && u.len == 8));
    assert!(!model.weights.is_empty());
}

#[test]
fn weights_are_cut_by_rows_or_columns() {
    // Two rows of four values.
    let values: Vec<f32> = (0..8).map(|v| v as f32).collect();
    let data: Vec<u8> = values.iter().flat_map(|v| v.to_le_bytes()).collect();
    let whole = shard_weight("w", &data, &[4, 2], Quantization::F32, ShardStrategy::Replicated, 2, 1)
        .unwrap();
    assert_eq!(whole.data, data);
    let lower = shard_weight("w", &data, &[4, 2], Quantization::F32, ShardStrategy::Column, 2, 1)
        .unwrap();
    assert_eq!(lower.data, data[16..].to_vec());
    assert!(matches!(get_shard_strategy("layers.0.attention.wq.weight"), ShardStrategy::Column));
    assert!(matches!(get_shard_strategy("layers.0.attention.wo.weight"), ShardStrategy::Row));
    assert!(matches!(get_shard_strategy("layers.0.feed_forward.w2.weight"), ShardStrategy::Row));
    assert!(matches!(get_shard_strategy("output.weight"), ShardStrategy::Column));
    assert!(matches!(get_shard_strategy("output_norm.weight"), ShardStrategy::Replicated));
}

fn two_row_store(meta: ModelMeta) -> WeightStore {
    let mut index = Table::new();
    for (k, name) in ["layers.0.attention.wq.weight", "output_norm.weight"].iter().enumerate() {
        index.insert(
            name.to_string(),
            TensorInfo {
                name: name.to_string(),
                dtype: GgmlType::F32,
                shape: vec![1, 2],
                offset: 8 * k as u64,
                nbytes: 8,
            },
        );
    }
    WeightStore { meta, index, data: (0..16).collect() }
}

#[test]
fn every_device_gets_its_shards() {
    let mut m = meta();
    m.quantization = Quantization::F32;
    let store = two_row_store(meta());
    let ranks = LlamaTensorParallelModel::plan(&m, &store, 2).unwrap();
    assert_eq!(ranks.len(), 2);
    for (rank, (own, shards)) in ranks.iter().enumerate() {
        assert_eq!(own.n_head, m.n_head / 2);
        assert_eq!(own.n_ff, m.n_ff / 2);
        assert_eq!(own.n_embd, m.n_embd);
        let part = |name: &str| &shards.iter().find(|s| s.0 == name).unwrap().1;
        let first = 4 * rank as u8;
        assert_eq!(part("layers.0.attention.wq.weight").data, (first..first + 4).collect::<Vec<u8>>());
        assert_eq!(part("layers.0.attention.wq.weight").shape, vec![1, 1]);
        assert_eq!(part("output_norm.weight").data, (8..16).collect::<Vec<u8>>());
    }
    let none = LlamaTensorParallelModel::plan(&m, &store, 0);
    assert_eq!(none.err().unwrap().to_string(), "No Metal devices found");
    let uneven = LlamaTensorParallelModel::plan(&m, &store, 3).err().unwrap().to_string();
    assert!(uneven.contains("not divisible by TP degree 3"));
}

#[test]
fn shards_share_the_heads() {
    let m = shard_meta(&meta(), 2);
    assert_eq!(m.n_head, 16);
    assert_eq!(m.n_head_kv, 16);
    assert_eq!(m.n_embd, 4096);
}

#[test]
fn a_wired_backend_plans_its_calls() {
    let mut backend = MetalBackend::new(config()).unwrap().with_model();
    let parts = DeviceParts { device: true, command_queue: true, library: true };
    let device = MetalDeviceInfo { name: "gpu".into(), unified_memory: true };
    backend.wire(parts, device, Ok(())).unwrap();
    backend.bind_slot(SlotId(3)).unwrap();
    let (mut allocator, store) = memory();
    let fault = |b: &MetalBackend, a: &PagedAttentionBlockManager| {
        b.next_call(a, &store, &[5, 6, 7]).unwrap_err().to_string()
    };
    assert!(fault(&backend, &allocator).contains("No prefix bound"));

    let long = KvCacheHandle { block_id: 8, token_len: 4 };
    backend.bind_prefix_cache(&CacheLookup { matched_tokens: 4, handle: Some(long) }).unwrap();
    assert!(fault(&backend, &allocator).contains("Could not materialize span"));
    allocator.allocate(long, 4).unwrap();
    assert!(fault(&backend, &allocator).contains("not found in store"));

    let short = KvCacheHandle { block_id: 9, token_len: 0 };
    backend.bind_prefix_cache(&CacheLookup { matched_tokens: 0, handle: Some(short) }).unwrap();
    allocator.allocate(short, 0).unwrap();
    let call = backend.next_call(&allocator, &store, &[5, 6, 7]).unwrap();
    assert_eq!((call.token, call.pos, call.slot), (7, 2, SlotId(3)));
    let calls = backend.verify_calls(&allocator, &store, &[5], &[8, 9]).unwrap();
    assert_eq!(calls.len(), 2);
    assert!(backend.next_call(&allocator, &store, &[]).is_err());
}

#[test]
fn names_are_read_back_in_any_case() {
    for q in [
        Quantization::Q4_0,
        Quantization::Q4K,
        Quantization::F32,
        Quantization::F16,
        Quantization::Q8K,
    ] {
        assert_eq!(Quantization::from_str(q.format_name()), Ok(q));
        assert_eq!(Quantization::from_str(&q.format_name().to_ascii_lowercase()), Ok(q));
    }
}
