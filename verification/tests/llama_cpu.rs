use velo_core::gguf::{GgmlType, TensorInfo};
use velo_core::llama_cpu::{
    kv_head, CpuCall, CpuPart, CpuStep, CpuWeight, KvCache, LlamaCpuModel,
};
use velo_core::metal::Quantization;
use velo_core::model_loader::{LoadError, ModelMeta, WeightStore};
use velo_core::radix_cache::CacheLookup;
use velo_core::scalar::F32;
use velo_core::table::Table;

fn f(v: f32) -> F32 {
    F32::from_bits(v.to_bits())
}

fn meta() -> ModelMeta {
    ModelMeta {
        arch: "llama".to_string(),
        n_vocab: 4,
        n_embd: 2,
        n_layer: 1,
        n_head: 2,
        n_head_kv: 1,
        n_ctx: 8,
        n_ff: 3,
        head_dim: 1,
        rope_freq_base: f(10000.0),
        norm_eps: f(1e-5),
        quantization: Quantization::F32,
    }
}

fn store(names: &[&str]) -> WeightStore {
    let mut index = Table::new();
    for name in names {
        index.insert(
            name.to_string(),
            TensorInfo {
                name: name.to_string(),
                dtype: GgmlType::F32,
                shape: vec![2, 4],
                offset: 0,
                nbytes: 32,
            },
        );
    }
    WeightStore { meta: meta(), index, data: vec![0; 32] }
}

const LAYER: [&str; 9] = [
    "blk.0.attn_norm.weight",
    "blk.0.attn_q.weight",
    "blk.0.attn_k.weight",
    "blk.0.attn_v.weight",
    "blk.0.attn_output.weight",
    "blk.0.ffn_norm.weight",
    "blk.0.ffn_gate.weight",
    "blk.0.ffn_up.weight",
    "blk.0.ffn_down.weight",
];

fn all_names() -> Vec<&'static str> {
    let mut names = vec!["token_embd.weight"];
    names.extend(LAYER);
    names.push("output_norm.weight");
    names
}

#[test]
fn a_pass_takes_every_step() {
    let model = LlamaCpuModel::new(store(&all_names()));
    let plan = model.forward_one(3, 5);
    assert!(plan.fault.is_none());
    assert_eq!(plan.steps.len(), 1 + 15 + 2);
    assert_eq!(plan.steps[0], CpuStep::Embed { start: 24, len: 8 });
    assert_eq!(plan.steps[1], CpuStep::Norm(CpuWeight::Layer(0, CpuPart::AttnNorm)));
    assert_eq!(plan.steps[7], CpuStep::Attend { layer: 0, positions: 6 });
    // Without a head of its own the model uses the embedding.
    assert_eq!(
        plan.steps[17],
        CpuStep::Project { weight: CpuWeight::TokenEmbd, rows: 4, cols: 2 }
    );
}

#[test]
fn a_head_of_its_own_is_used() {
    let mut names = all_names();
    names.push("output.weight");
    let plan = LlamaCpuModel::new(store(&names)).forward_one(0, 0);
    assert_eq!(
        plan.steps[17],
        CpuStep::Project { weight: CpuWeight::Output, rows: 4, cols: 2 }
    );
}

#[test]
fn the_first_missing_weight_is_named() {
    let names: Vec<&str> =
        all_names().into_iter().filter(|n| *n != "blk.0.attn_v.weight").collect();
    let plan = LlamaCpuModel::new(store(&names)).forward_one(0, 0);
    assert_eq!(plan.steps.len(), 4);
    assert!(matches!(
        plan.fault,
        Some(LoadError::MissingTensor(n)) if n == "blk.0.attn_v.weight"
    ));
    let plan = LlamaCpuModel::new(store(&[])).forward_one(0, 0);
    assert!(matches!(
        plan.fault,
        Some(LoadError::MissingTensor(n)) if n == "token_embd.weight"
    ));
}

#[test]
fn weights_have_their_names() {
    assert_eq!(CpuWeight::Layer(12, CpuPart::FfnDown).tensor_name(), "blk.12.ffn_down.weight");
    assert_eq!(CpuWeight::OutputNorm.tensor_name(), "output_norm.weight");
}

#[test]
fn positions_follow_the_cache() {
    let mut model = LlamaCpuModel::new(store(&[]));
    let calls = model.sequence_calls(&[7, 8]);
    assert_eq!(calls, vec![CpuCall { token: 7, pos: 0 }, CpuCall { token: 8, pos: 1 }]);
    model.advance(calls.len());
    assert_eq!(model.next_call(&[7, 8, 9]).unwrap(), CpuCall { token: 9, pos: 2 });
    let e = model.next_call(&[]).unwrap_err();
    assert!(e.to_string().contains("next_logits called with empty context"));
    let prefix = CacheLookup { matched_tokens: 3, handle: None };
    model.bind_prefix_cache(&prefix).unwrap();
    assert_eq!(model.bound_prefix, Some(prefix));
}

#[test]
fn query_heads_share_key_heads() {
    let heads: Vec<usize> = (0..8).map(|h| kv_head(h, 2, 8)).collect();
    assert_eq!(heads, vec![0, 0, 0, 0, 1, 1, 1, 1]);
}

#[test]
fn stored_keys_and_values_are_read_back() {
    let mut cache = KvCache::new(2, 2, 2, 4);
    let k: Vec<F32> = [1.0, 2.0, 3.0, 4.0].iter().map(|v| f(*v)).collect();
    let v: Vec<F32> = [5.0, 6.0, 7.0, 8.0].iter().map(|v| f(*v)).collect();
    cache.store_kv(1, 2, &k, &v);
    assert_eq!(cache.key(1, 2, 0), &k[0..2]);
    assert_eq!(cache.key(1, 2, 1), &k[2..4]);
    assert_eq!(cache.value(1, 2, 1), &v[2..4]);
    assert_eq!(cache.key(1, 1, 1), &[f(0.0), f(0.0)]);
    assert_eq!(cache.key(0, 2, 0), &[f(0.0), f(0.0)]);
}

#[test]
fn a_new_model_has_an_empty_cache() {
    let model = LlamaCpuModel::new(store(&all_names()));
    assert_eq!(model.kv.pos, 0);
    assert!(model.kv.key(0, 0, 0).iter().all(|v| v.to_bits() == 0));
    assert!(model.kv.value(0, 0, 0).iter().all(|v| v.to_bits() == 0));
}
