use velo_core::gguf::{GgmlType, GgufFile, GgufValue, TensorInfo};
use velo_core::metal::Quantization;
use velo_core::model_loader::{LoadError, ModelMeta, WeightStore};
use velo_core::paged_attention::KvCacheType;
use velo_core::scalar::F32;
use velo_core::table::Table;

fn f(v: f32) -> F32 {
    F32::from_bits(v.to_bits())
}

fn llama_meta_map() -> Table<GgufValue> {
    let mut m = Table::new();
    m.insert("general.architecture".into(), GgufValue::String("llama".into()));
    m.insert("llama.embedding_length".into(), GgufValue::U32(4096));
    m.insert("llama.block_count".into(), GgufValue::U32(32));
    m.insert("llama.attention.head_count".into(), GgufValue::U32(32));
    m.insert("llama.attention.head_count_kv".into(), GgufValue::U32(8));
    m.insert("llama.context_length".into(), GgufValue::U32(8192));
    m.insert("llama.feed_forward_length".into(), GgufValue::U32(14336));
    m.insert("llama.rope.freq_base".into(), GgufValue::F32(f(500_000.0)));
    // vocab via token array
    let tokens: Vec<GgufValue> =
        (0..128256).map(|_| GgufValue::String(String::new())).collect();
    m.insert("tokenizer.ggml.tokens".into(), GgufValue::Array(tokens));
    m
}

fn fake_gguf(meta: Table<GgufValue>) -> GgufFile {
    GgufFile { version: 3, metadata: meta, tensors: Table::new(), data_offset: 0 }
}

#[test]
fn parses_llama3_8b_dimensions() {
    let gguf = fake_gguf(llama_meta_map());
    let meta = ModelMeta::from_gguf(&gguf).unwrap();
    assert_eq!(meta.arch, "llama");
    assert_eq!(meta.n_vocab, 128256);
    assert_eq!(meta.n_embd, 4096);
    assert_eq!(meta.n_layer, 32);
    assert_eq!(meta.n_head, 32);
    assert_eq!(meta.n_head_kv, 8);
    assert_eq!(meta.n_ff, 14336);
    assert_eq!(meta.head_dim, 128);
    assert!((f32::from_bits(meta.rope_freq_base.to_bits()) - 500_000.0).abs() < 1.0);
}

#[test]
fn missing_embedding_length_is_error() {
    let mut m = llama_meta_map();
    m.remove("llama.embedding_length");
    let gguf = fake_gguf(m);
    assert!(ModelMeta::from_gguf(&gguf).is_err());
}

#[test]
fn missing_block_count_is_error() {
    let mut m = llama_meta_map();
    m.remove("llama.block_count");
    let gguf = fake_gguf(m);
    assert!(ModelMeta::from_gguf(&gguf).is_err());
}

#[test]
fn defaults_n_head_kv_to_n_head_when_absent() {
    let mut m = llama_meta_map();
    m.remove("llama.attention.head_count_kv");
    let gguf = fake_gguf(m);
    let meta = ModelMeta::from_gguf(&gguf).unwrap();
    assert_eq!(meta.n_head_kv, meta.n_head);
}

#[test]
fn validation_fails_on_missing_tensors() {
    let meta = ModelMeta::from_gguf(&fake_gguf(llama_meta_map())).unwrap();
    let store = WeightStore { meta, index: Table::new(), data: Vec::new() };
    assert!(store.validate().is_err());
}

#[test]
fn validation_fails_on_wrong_shape() {
    let mut m = llama_meta_map();
    m.insert("llama.block_count".into(), GgufValue::U32(1)); // 1 layer only
    let meta = ModelMeta::from_gguf(&fake_gguf(m)).unwrap();

    let mut tensors = Table::new();
    // Missing almost all tensors, but let's just add one with wrong shape
    tensors.insert(
        "token_embd.weight".to_string(),
        TensorInfo {
            name: "token_embd.weight".to_string(),
            dtype: GgmlType::F32,
            shape: vec![1, 1], // Wrong
            offset: 0,
            nbytes: 4,
        },
    );

    let store = WeightStore { meta, index: tensors, data: vec![0, 0, 0, 0] };

    let err = store.validate().unwrap_err();
    assert!(err.to_string().contains("expected shape"));
}

#[test]
fn test_kv_bytes_calculation() {
    let meta = ModelMeta {
        arch: "llama".to_string(),
        n_vocab: 32000,
        n_embd: 4096,
        n_layer: 32,
        n_head: 32,
        n_head_kv: 32,
        n_ctx: 4096,
        n_ff: 11008,
        head_dim: 128,
        rope_freq_base: f(10000.0),
        norm_eps: f(1e-5),
        quantization: Quantization::F32,
    };

    // FP32: 128 * 4 = 512 bytes per head
    assert_eq!(meta.kv_bytes_per_token_per_head(KvCacheType::Fp32), 512);
    // INT8: 128 + 4 = 132 bytes per head
    assert_eq!(meta.kv_bytes_per_token_per_head(KvCacheType::Int8), 132);

    // Total for 32 heads
    assert_eq!(meta.kv_bytes_per_token(KvCacheType::Fp32), 32 * 512);
    assert_eq!(meta.kv_bytes_per_token(KvCacheType::Int8), 32 * 132);
}

#[test]
fn a_model_without_heads_is_refused() {
    let mut m = llama_meta_map();
    m.insert("llama.attention.head_count".into(), GgufValue::U32(0));
    let missing = |m: Table<GgufValue>| match ModelMeta::from_gguf(&fake_gguf(m)) {
        Err(LoadError::MissingMeta(key)) => key,
        _ => String::new(),
    };
    assert_eq!(missing(m), "llama.attention.head_count");
    let mut m = llama_meta_map();
    m.insert("llama.attention.head_count".into(), GgufValue::U32(0));
    m.remove("llama.feed_forward_length");
    assert_eq!(missing(m), "llama.feed_forward_length");
}

#[test]
fn weights_are_found_by_name() {
    let meta = ModelMeta::from_gguf(&fake_gguf(llama_meta_map())).unwrap();
    let mut tensors = Table::new();
    tensors.insert(
        "w".to_string(),
        TensorInfo {
            name: "w".to_string(),
            dtype: GgmlType::F16,
            shape: vec![2],
            offset: 1,
            nbytes: 4,
        },
    );
    let store = WeightStore { meta, index: tensors, data: vec![9, 1, 2, 3, 4] };
    assert_eq!(store.get("w"), Some(&[1u8, 2, 3, 4][..]));
    assert_eq!(store.dtype("w"), Some(GgmlType::F16));
    assert_eq!(store.shape("w"), Some(&[2u64][..]));
    assert!(store.get("v").is_none());
    assert!(matches!(store.require("v"), Err(LoadError::MissingTensor(n)) if n == "v"));
}
