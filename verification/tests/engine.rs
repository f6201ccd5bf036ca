use velo_core::backend::{GreedyDraftModel, GreedyTargetModel};
use velo_core::constraints::CfgMatcher;
use velo_core::engine::{
    draft_requests, settle_request, verify_requests, ActiveRequest, BatchRequest, EngineConfig,
    EngineError, EngineStats, VeloEngine,
};
use velo_core::kv_store::{KvStore, KvStoreError};
use velo_core::metal::{MetalBufferPlacement, MetalMemoryRuntime, MetalRuntimeConfig, Quantization};
use velo_core::metal::runtime::Opening;
use velo_core::mock_backend::MockBackend;
use velo_core::paged_attention::{KvCacheType, PageManagerError};
use velo_core::radix_cache::{CacheLookup, KvCacheHandle, TokenId};
use velo_core::runtime::{KvBlockStore, MemoryRuntime, MemoryRuntimeConfig};
use velo_core::scalar::F32;
use velo_core::slot_manager::SlotId;
use velo_core::speculative::{
    DraftModel, NextTokenPrediction, SpeculativeDecoder, SpeculativeError, TargetModel,
    VerifyStep,
};

#[derive(Debug)]
struct ScriptedDraft {
    script: Vec<TokenId>,
    bound_prefixes: Vec<CacheLookup>,
    bound_slots: Vec<SlotId>,
}

fn draft_of(script: &[TokenId]) -> ScriptedDraft {
    ScriptedDraft {
        script: script.to_vec(),
        bound_prefixes: Vec::new(),
        bound_slots: Vec::new(),
    }
}

impl DraftModel for ScriptedDraft {
    fn bind_prefix_cache(&mut self, prefix: &CacheLookup) -> Result<(), SpeculativeError> {
        self.bound_prefixes.push(prefix.clone());
        Ok(())
    }

    fn bind_slot(&mut self, slot: SlotId) -> Result<(), SpeculativeError> {
        self.bound_slots.push(slot);
        Ok(())
    }

    fn draft<M: CfgMatcher>(
        &mut self,
        context: &[TokenId],
        max_tokens: usize,
        _matcher: Option<&mut M>,
    ) -> Result<Vec<NextTokenPrediction>, SpeculativeError> {
        Ok(self.script[context.len()..]
            .iter()
            .take(max_tokens)
            .map(|token| NextTokenPrediction {
                token: *token,
                confidence: F32::from_bits(1.0f32.to_bits()),
            })
            .collect())
    }
}

#[derive(Debug)]
struct ScriptedTarget {
    script: Vec<TokenId>,
    bound_prefixes: Vec<CacheLookup>,
    bound_slots: Vec<SlotId>,
}

fn target_of(script: &[TokenId]) -> ScriptedTarget {
    ScriptedTarget {
        script: script.to_vec(),
        bound_prefixes: Vec::new(),
        bound_slots: Vec::new(),
    }
}

impl TargetModel for ScriptedTarget {
    fn bind_prefix_cache(&mut self, prefix: &CacheLookup) -> Result<(), SpeculativeError> {
        self.bound_prefixes.push(prefix.clone());
        Ok(())
    }

    fn bind_slot(&mut self, slot: SlotId) -> Result<(), SpeculativeError> {
        self.bound_slots.push(slot);
        Ok(())
    }

    fn verify<M: CfgMatcher>(
        &mut self,
        context: &[TokenId],
        drafted: &[TokenId],
        _matcher: Option<&mut M>,
    ) -> Result<Vec<VerifyStep>, SpeculativeError> {
        Ok(self.script[context.len()..]
            .iter()
            .take(drafted.len())
            .map(|token| VerifyStep { expected: *token })
            .collect())
    }
}

fn config(draft_window: usize, memory: MemoryRuntimeConfig) -> EngineConfig {
    EngineConfig { draft_window, memory, kv_type: KvCacheType::Fp32 }
}

#[test]
fn generates_and_caches_full_sequence() {
    let mut engine =
        VeloEngine::new(config(4, MemoryRuntimeConfig::cpu(128, 16, 32, 32, 32))).unwrap();
    let prompt = [10, 20];
    let mut draft = draft_of(&[10, 20, 30, 40]);
    let mut target = target_of(&[10, 20, 30, 40]);

    let output = engine.generate(&mut draft, &mut target, &prompt, 2).unwrap();

    assert_eq!(output.tokens, vec![30, 40]);
    assert_eq!(output.cached_prefix.matched_tokens, 0);
    assert!(output.inserted_pages.is_some());
    assert_eq!(
        output.inserted_handle,
        Some(KvCacheHandle { block_id: 2, token_len: 4 })
    );
    assert_eq!(engine.cache_mut().lookup(&[10, 20, 30, 40]).matched_tokens, 4);
    assert_eq!(engine.kv_store().allocated_bytes(), 768);
}

#[test]
fn reports_cache_hit_for_repeated_prompt_prefix() {
    let mut engine =
        VeloEngine::new(config(2, MemoryRuntimeConfig::cpu(128, 16, 32, 32, 32))).unwrap();
    let mut draft = draft_of(&[1, 2, 3, 4, 5]);
    let mut target = target_of(&[1, 2, 3, 4, 5]);

    engine.generate(&mut draft, &mut target, &[1, 2], 2).unwrap();

    let mut draft = draft_of(&[1, 2, 3, 4, 5]);
    let mut target = target_of(&[1, 2, 3, 4, 5]);
    let output = engine.generate(&mut draft, &mut target, &[1, 2, 3, 4], 1).unwrap();

    assert_eq!(output.cached_prefix.matched_tokens, 4);
    assert!(output.cached_pages.is_some());
    assert_eq!(output.stats.cache_hit_tokens, 4);
    assert_eq!(output.stats.cache_miss_tokens, 0);
    assert_eq!(output.tokens, vec![5]);
}

#[test]
fn releases_replaced_kv_block_for_same_sequence() {
    let mut engine =
        VeloEngine::new(config(2, MemoryRuntimeConfig::cpu(32, 8, 16, 32, 32))).unwrap();
    let mut draft = draft_of(&[1, 2, 3]);
    let mut target = target_of(&[1, 2, 3]);

    let first = engine.generate(&mut draft, &mut target, &[1], 2).unwrap();

    let mut draft = draft_of(&[1, 2, 3]);
    let mut target = target_of(&[1, 2, 3]);
    let second = engine.generate(&mut draft, &mut target, &[1], 2).unwrap();

    assert_eq!(first.inserted_handle.unwrap().block_id, 2);
    assert_eq!(second.inserted_handle.unwrap().block_id, 3);
    assert_eq!(engine.kv_store().len(), 2);
    assert!(engine.kv_store().get(second.inserted_handle.unwrap()).is_some());
}

#[test]
fn binds_cached_prefix_to_both_models_before_generation() {
    let mut engine =
        VeloEngine::new(config(2, MemoryRuntimeConfig::cpu(16, 8, 16, 32, 32))).unwrap();
    let mut draft = draft_of(&[7, 8, 9]);
    let mut target = target_of(&[7, 8, 9]);

    engine.generate(&mut draft, &mut target, &[7], 2).unwrap();

    let mut draft = draft_of(&[7, 8, 9, 10]);
    let mut target = target_of(&[7, 8, 9, 10]);

    engine.generate(&mut draft, &mut target, &[7, 8, 9], 1).unwrap();

    assert_eq!(draft.bound_prefixes.len(), 1);
    assert_eq!(target.bound_prefixes.len(), 1);
    assert_eq!(draft.bound_prefixes[0].matched_tokens, 3);
    assert_eq!(target.bound_prefixes[0].matched_tokens, 3);
    assert!(draft.bound_prefixes[0].handle.is_some());
    assert_eq!(draft.bound_prefixes[0], target.bound_prefixes[0]);
}

#[test]
fn can_generate_over_placeholder_metal_runtime() {
    let runtime = MetalMemoryRuntime::new(
        MetalRuntimeConfig {
            model_name: "draft-1b".to_string(),
            memory: MemoryRuntimeConfig::cpu(32, 8, 16, 32, 32),
            quantization: Quantization::Q4K,
        },
        Opening::Open("gpu".to_string()),
    )
    .unwrap();
    let memory = runtime.context().memory;
    let mut engine = VeloEngine::with_runtime(config(2, memory), runtime).unwrap();
    let mut draft = draft_of(&[1, 2, 3, 4]);
    let mut target = target_of(&[1, 2, 3, 4]);

    let output = engine.generate(&mut draft, &mut target, &[1], 2).unwrap();

    assert_eq!(output.tokens, vec![2, 3]);
    assert_eq!(engine.runtime().context().placement, MetalBufferPlacement::Unified);
    assert_eq!(engine.runtime().store().allocated_bytes(), 128);
    assert_eq!(draft.bound_slots.len(), 1);
    assert_eq!(target.bound_slots.len(), 1);
}

#[test]
fn test_slot_exhaustion() {
    // Only 1 slot
    let mut engine =
        VeloEngine::new(config(4, MemoryRuntimeConfig::cpu(128, 16, 32, 1, 1))).unwrap();
    let mut draft = draft_of(&[1, 2, 3, 4]);
    let mut target = target_of(&[1, 2, 3, 4]);

    // First one works
    let _ = engine.generate(&mut draft, &mut target, &[1], 2).unwrap();

    // Second one also works because the slot was released
    let _ = engine.generate(&mut draft, &mut target, &[1], 2).unwrap();

    assert_eq!(draft.bound_slots.len(), 2);
}

#[test]
fn test_multi_request_batching() {
    let mut engine =
        VeloEngine::new(config(2, MemoryRuntimeConfig::cpu(1024, 16, 32, 4, 4))).unwrap();

    // Req 1: generates [2, 3]
    // Req 2: generates [11, 12, 13]
    let script = [0, 2, 3, 0, 0, 0, 0, 0, 0, 0, 0, 11, 12, 13];
    let mut draft = draft_of(&script);
    let mut target = target_of(&script);

    let requests = vec![
        BatchRequest { prompt: vec![1], max_new_tokens: 2, constraint: None },
        BatchRequest { prompt: vec![10; 11], max_new_tokens: 3, constraint: None },
    ];

    let outputs = engine.generate_batch(&mut draft, &mut target, requests).unwrap();

    assert_eq!(outputs.len(), 2);
    assert_eq!(outputs[0].tokens, vec![2, 3]);
    assert_eq!(outputs[1].tokens, vec![11, 12, 13]);

    // Verify isolation: both slots were used
    assert_eq!(draft.bound_slots.len(), 2);
    assert_ne!(draft.bound_slots[0], draft.bound_slots[1]);
}

#[test]
fn test_batch_with_mixed_finishing() {
    let mut engine =
        VeloEngine::new(config(1, MemoryRuntimeConfig::cpu(1024, 16, 32, 4, 4))).unwrap();

    // Req 1: generates [2] (stops at max_tokens=1)
    // Req 2: generates [11, 12] (stops at max_tokens=2)
    let script = [0, 2, 0, 0, 0, 0, 0, 0, 0, 0, 0, 11, 12];
    let mut draft = draft_of(&script);
    let mut target = target_of(&script);

    let requests = vec![
        BatchRequest { prompt: vec![1], max_new_tokens: 1, constraint: None },
        BatchRequest { prompt: vec![10; 11], max_new_tokens: 2, constraint: None },
    ];

    let outputs = engine.generate_batch(&mut draft, &mut target, requests).unwrap();

    assert_eq!(outputs[0].tokens, vec![2]);
    assert_eq!(outputs[1].tokens, vec![11, 12]);
}

#[test]
fn test_batch_slot_exhaustion() {
    // Only 1 slot
    let mut engine =
        VeloEngine::new(config(1, MemoryRuntimeConfig::cpu(1024, 16, 32, 1, 1))).unwrap();
    let mut draft = draft_of(&[1, 2]);
    let mut target = target_of(&[1, 2]);

    let requests = vec![
        BatchRequest { prompt: vec![0], max_new_tokens: 1, constraint: None },
        BatchRequest { prompt: vec![0], max_new_tokens: 1, constraint: None },
    ];

    let result = engine.generate_batch(&mut draft, &mut target, requests);
    assert!(result.is_err());
}

#[test]
fn engine_error_display() {
    assert!(EngineError::Speculative(SpeculativeError::EmptyDraftWindow)
        .to_string()
        .contains("speculative decoding failed"));
    assert!(EngineError::KvStore(KvStoreError::EmptyBlock)
        .to_string()
        .contains("KV store failed"));
    assert!(EngineError::PagedAttention(PageManagerError::InvalidBlockSize)
        .to_string()
        .contains("paged attention failed"));
}

#[test]
fn engine_accessors_and_stats() {
    let mut engine =
        VeloEngine::new(config(1, MemoryRuntimeConfig::cpu(16, 16, 32, 1, 32))).unwrap();

    assert_eq!(engine.cache().len(), 0);
    assert_eq!(engine.cache_mut().len(), 0);

    let stats = EngineStats::default();
    assert_eq!(stats.cache_hit_tokens, 0);
}

#[test]
fn prefill_empty_prompt() {
    let mut engine =
        VeloEngine::new(config(1, MemoryRuntimeConfig::cpu(16, 16, 32, 1, 32))).unwrap();
    let prefill = engine.prefill(&[]).unwrap();
    assert_eq!(prefill.stats.cache_hit_tokens, 0);
    assert!(prefill.inserted_handle.is_none());
}

#[test]
fn generate_batch_with_prompt() {
    let mut engine =
        VeloEngine::new(config(1, MemoryRuntimeConfig::cpu(16, 16, 32, 1, 32))).unwrap();
    let mut draft = draft_of(&[1, 2]);
    let mut target = target_of(&[1, 2]);

    let outputs = engine.generate(&mut draft, &mut target, &[1], 1).unwrap();
    assert_eq!(outputs.tokens.len(), 1);
}

#[test]
fn an_engine_without_a_window_or_pages_is_refused() {
    let memory = MemoryRuntimeConfig::cpu(16, 16, 32, 1, 32);
    assert!(matches!(
        VeloEngine::new(config(0, memory)),
        Err(EngineError::Speculative(SpeculativeError::EmptyDraftWindow))
    ));
    let memory = MemoryRuntimeConfig::cpu(16, 0, 32, 1, 32);
    assert!(matches!(
        VeloEngine::new(config(1, memory)),
        Err(EngineError::PagedAttention(PageManagerError::InvalidBlockSize))
    ));
}

#[test]
fn a_prompt_without_pages_is_refused() {
    let mut engine =
        VeloEngine::new(config(1, MemoryRuntimeConfig::cpu(16, 2, 1, 1, 1))).unwrap();
    assert!(matches!(
        engine.prefill(&[1, 2, 3]),
        Err(EngineError::PagedAttention(_))
    ));
    assert!(engine.prefill(&[1, 2]).is_ok());
}

#[test]
fn slots_go_round() {
    let mut engine =
        VeloEngine::new(config(1, MemoryRuntimeConfig::cpu(16, 2, 8, 1, 2))).unwrap();
    assert_eq!(engine.slot_pool_capacity(), 2);
    let a = engine.allocate_slot().unwrap();
    let b = engine.allocate_slot().unwrap();
    assert!(engine.allocate_slot().is_none());
    engine.release_slot(b);
    engine.release_slot(a);
    assert_eq!(engine.allocate_slot(), Some(b));
}

fn mocks(
    draft: MockBackend,
    target: MockBackend,
) -> (GreedyDraftModel<MockBackend>, GreedyTargetModel<MockBackend>) {
    (GreedyDraftModel::new(draft), GreedyTargetModel::new(target))
}

fn ask(prompt: &[TokenId], max_new_tokens: usize) -> BatchRequest {
    BatchRequest { prompt: prompt.to_vec(), max_new_tokens, constraint: None }
}

#[test]
fn a_batch_gets_the_target_script_whatever_is_drafted() {
    let script: Vec<TokenId> = (10..40).collect();
    let wrong = MockBackend::new(script.clone()).with_override(3, 1).with_override(6, 2);
    for window in 1..5 {
        let mut engine =
            VeloEngine::new(config(window, MemoryRuntimeConfig::cpu(16, 4, 64, 1, 4))).unwrap();
        let (mut draft, mut target) = mocks(wrong.clone(), MockBackend::new(script.clone()));
        let asked = vec![ask(&[10, 11], 7), ask(&[10], 0), ask(&[10, 11, 12, 13], 5)];
        let got = engine.generate_batch(&mut draft, &mut target, asked).unwrap();
        assert_eq!(got[0].tokens, script[2..9].to_vec());
        assert!(got[1].tokens.is_empty());
        assert_eq!(got[2].tokens, script[4..9].to_vec());
    }
}

#[test]
fn a_batch_fails_where_the_script_ends() {
    let script: Vec<TokenId> = (0..8).collect();
    let mut engine =
        VeloEngine::new(config(2, MemoryRuntimeConfig::cpu(16, 4, 64, 1, 4))).unwrap();
    let (mut draft, mut target) =
        mocks(MockBackend::new(script.clone()), MockBackend::new(script));
    let within = vec![ask(&[0, 1], 6), ask(&[0, 1, 2], 5)];
    assert!(engine.generate_batch(&mut draft, &mut target, within).is_ok());
    let beyond = vec![ask(&[0, 1], 6), ask(&[0, 1, 2], 6)];
    assert!(engine.generate_batch(&mut draft, &mut target, beyond).is_err());
}

fn serving(prompt: &[TokenId], max_new_tokens: usize) -> ActiveRequest {
    let mut engine =
        VeloEngine::new(config(2, MemoryRuntimeConfig::cpu(16, 4, 64, 1, 4))).unwrap();
    ActiveRequest {
        session: engine.decoder().begin(prompt).unwrap(),
        slot_id: SlotId(0),
        max_new_tokens,
        generated: Vec::new(),
        prefill: engine.prefill(prompt).unwrap(),
        matcher: None,
        finished: false,
    }
}

fn sure(tokens: &[TokenId]) -> Vec<NextTokenPrediction> {
    tokens
        .iter()
        .map(|t| NextTokenPrediction { token: *t, confidence: F32::from_bits(1.0f32.to_bits()) })
        .collect()
}

#[test]
fn a_round_asks_both_models_about_each_request() {
    let mut active = vec![serving(&[1, 2], 5), serving(&[3], 1)];
    let indices: Vec<usize> = vec![0, 1];
    let asks = draft_requests(&active, &indices, 4);
    assert_eq!(asks[0].context, vec![1, 2]);
    assert_eq!(asks[0].max_tokens, 4);
    assert_eq!(asks[1].max_tokens, 1);
    let drafts = vec![sure(&[7, 8]), sure(&[9])];
    let questions = verify_requests(&mut active, &indices, &drafts);
    assert_eq!(questions[0].drafted, vec![7, 8]);
    assert_eq!(questions[1].context, vec![3]);
    let long = vec![sure(&[7, 8]), sure(&[9, 9])];
    assert_eq!(verify_requests(&mut active, &indices, &long)[1].drafted, vec![9, 9]);
}

/// Drafts three tokens, however many are asked for.
struct EagerDraft {
    script: Vec<TokenId>,
}

impl DraftModel for EagerDraft {
    fn draft<M: CfgMatcher>(
        &mut self,
        context: &[TokenId],
        _max_tokens: usize,
        _matcher: Option<&mut M>,
    ) -> Result<Vec<NextTokenPrediction>, SpeculativeError> {
        Ok(sure(&self.script[context.len()..][..3]))
    }
}

#[test]
fn drafts_that_are_too_long_are_taken_over_up_to_the_maximum() {
    let script: Vec<TokenId> = (20..40).collect();
    let mut draft = EagerDraft { script: script.clone() };
    let mut target = target_of(&script);
    let mut engine =
        VeloEngine::new(config(2, MemoryRuntimeConfig::cpu(16, 4, 64, 1, 4))).unwrap();
    let got = engine
        .generate_batch(&mut draft, &mut target, vec![ask(&[20], 6), ask(&[20, 21], 3)])
        .unwrap();
    assert_eq!(got[0].tokens, script[1..7].to_vec());
    assert_eq!(got[1].tokens, script[2..5].to_vec());
    assert!(matches!(
        engine.generate_batch(&mut draft, &mut target, vec![ask(&[20], 5)]),
        Err(EngineError::Speculative(SpeculativeError::DraftReturnedTooMany {
            requested: 2,
            returned: 3
        }))
    ));
}

#[test]
fn a_round_is_worked_into_a_request() {
    let decoder = SpeculativeDecoder::new(3).unwrap();
    let mut req = serving(&[1, 2], 5);
    let steps = vec![VerifyStep { expected: 7 }, VerifyStep { expected: 4 }];
    assert!(settle_request(&decoder, &mut req, &sure(&[7, 8]), &steps).is_ok());
    assert_eq!(req.generated, vec![7, 4]);
    assert_eq!(req.session.context(), &[1, 2, 7, 4]);
    assert!(!req.finished);
    assert!(matches!(
        settle_request(&decoder, &mut req, &sure(&[7, 8]), &steps[..1].to_vec()),
        Err(EngineError::Speculative(SpeculativeError::TargetReturnedWrongLength {
            drafted: 2,
            returned: 1
        }))
    ));
    assert!(settle_request(&decoder, &mut req, &Vec::new(), &Vec::new()).is_ok());
    assert!(req.finished);
}

#[test]
fn a_failed_prefill_leaves_everything_as_it_was() {
    let mut engine =
        VeloEngine::new(config(2, MemoryRuntimeConfig::cpu(16, 4, 2, 1, 4))).unwrap();
    engine.prefill(&[1, 2, 3]).unwrap();
    let held = (
        engine.kv_store().len(),
        engine.kv_store().allocated_bytes(),
        engine.cache().len(),
        engine.cache().resident_tokens(),
        engine.runtime().allocator().free_pages(),
    );
    assert_eq!(held, (1, 48, 1, 3, 1));
    let refused = engine.prefill(&[1, 2, 3, 4, 5, 6]).err().unwrap();
    assert!(matches!(
        refused,
        EngineError::PagedAttention(PageManagerError::OutOfPages { requested: 2, available: 1 })
    ));
    assert_eq!(engine.kv_store().len(), held.0);
    assert_eq!(engine.kv_store().allocated_bytes(), held.1);
    assert_eq!(engine.cache().len(), held.2);
    assert_eq!(engine.cache().resident_tokens(), held.3);
    assert_eq!(engine.runtime().allocator().free_pages(), held.4);
}

#[test]
fn an_engine_without_backing_refuses_a_prompt_as_any_other() {
    let mut engine =
        VeloEngine::new(config(2, MemoryRuntimeConfig::cpu(16, 4, 2, 1, 4))).unwrap();
    let stray = KvCacheHandle { block_id: 77, token_len: 2 };
    engine.cache_mut().insert(&[1, 2], stray);
    let refused = engine.prefill(&[1, 2, 3, 4, 5, 6, 7, 8, 9]).err().unwrap();
    assert!(matches!(
        refused,
        EngineError::PagedAttention(PageManagerError::OutOfPages { requested: 3, available: 2 })
    ));
    assert_eq!(engine.kv_store().len(), 0);
    assert_eq!(engine.cache().len(), 1);
    assert_eq!(engine.cache_mut().lookup(&[1, 2]).handle, Some(stray));
    assert_eq!(engine.runtime().allocator().free_pages(), 2);
}

#[test]
fn a_batch_that_is_not_taken_in_keeps_what_was_prefilled() {
    let mut engine =
        VeloEngine::new(config(2, MemoryRuntimeConfig::cpu(16, 4, 8, 1, 1))).unwrap();
    let script: Vec<TokenId> = (0..32).collect();
    let mut draft = draft_of(&script);
    let mut target = target_of(&script);
    let asked = vec![ask(&[0, 1, 2], 1), ask(&[9], 1)];
    assert!(engine.generate_batch(&mut draft, &mut target, asked).is_err());
    assert_eq!(engine.cache_mut().lookup(&[0, 1, 2]).matched_tokens, 3);
    assert_eq!(engine.cache_mut().lookup(&[9]).matched_tokens, 0);
    assert_eq!(engine.kv_store().len(), 1);
    assert_eq!(engine.runtime().allocator().free_pages(), 7);
    assert!(draft.bound_slots.is_empty());
}

#[test]
fn requests_of_a_batch_are_isolated_by_slot() {
    let runtime = MetalMemoryRuntime::new(
        MetalRuntimeConfig {
            model_name: "target".to_string(),
            memory: MemoryRuntimeConfig::cpu(16, 2, 8, 1, 3),
            quantization: Quantization::Q4K,
        },
        Opening::Open("gpu".to_string()),
    )
    .unwrap();
    let memory = runtime.context().memory;
    let mut engine = VeloEngine::with_runtime(config(2, memory), runtime).unwrap();
    let script: Vec<TokenId> = (0..32).collect();
    let mut draft = draft_of(&script);
    let mut target = target_of(&script);
    let asked = vec![ask(&[0, 1, 2], 0), ask(&[9], 0)];
    let got = engine.generate_batch(&mut draft, &mut target, asked).unwrap();

    assert_eq!(draft.bound_slots, vec![SlotId(0), SlotId(1)]);
    assert_eq!(target.bound_slots, vec![SlotId(0), SlotId(1)]);
    let table = &engine.runtime().slot_mapping;
    assert_eq!(table.len(), 24);
    let bound = |slot: usize| table[slot * 8..slot * 8 + 8].to_vec();
    assert_ne!(bound(0)[..2], bound(1)[..2]);
    assert_eq!(bound(0)[2..], [0; 6]);
    assert_eq!(bound(1)[1..], [0; 7]);
    assert_eq!(bound(2), vec![0; 8]);
    assert_eq!(got[0].inserted_handle.map(|h| h.token_len), Some(3));
}

#[test]
fn later_requests_see_what_earlier_ones_cached() {
    let mut engine =
        VeloEngine::new(config(2, MemoryRuntimeConfig::cpu(16, 4, 64, 1, 4))).unwrap();
    let script: Vec<TokenId> = (0..32).collect();
    let (mut draft, mut target) =
        mocks(MockBackend::new(script.clone()), MockBackend::new(script));
    let asked = vec![ask(&[0, 1], 2), ask(&[0, 1, 2], 2), ask(&[5], 1)];
    let got = engine.generate_batch(&mut draft, &mut target, asked).unwrap();
    let hits: Vec<usize> = got.iter().map(|o| o.cached_prefix.matched_tokens).collect();
    assert_eq!(hits, vec![0, 2, 0]);
    for (full, out) in [(vec![0, 1, 2, 3, 4], &got[1]), (vec![5, 1], &got[2])] {
        let found = engine.cache_mut().lookup(&full);
        assert_eq!(found.handle, out.inserted_handle);
        assert!(out.inserted_pages.is_some());
    }
}

/// Drafts one token, however many are asked for.
struct TimidDraft {
    script: Vec<TokenId>,
}

impl DraftModel for TimidDraft {
    fn draft<M: CfgMatcher>(
        &mut self,
        context: &[TokenId],
        max_tokens: usize,
        _matcher: Option<&mut M>,
    ) -> Result<Vec<NextTokenPrediction>, SpeculativeError> {
        Ok(sure(&self.script[context.len()..][..max_tokens.min(1)]))
    }
}

#[test]
fn batches_end_with_all_tokens_if_something_is_always_proposed() {
    let script: Vec<TokenId> = (20..40).collect();
    let mut draft = TimidDraft { script: script.clone() };
    let mut target = target_of(&script);
    let mut engine =
        VeloEngine::new(config(4, MemoryRuntimeConfig::cpu(16, 4, 64, 1, 4))).unwrap();
    let got = engine
        .generate_batch(&mut draft, &mut target, vec![ask(&[20], 7), ask(&[20, 21], 2)])
        .unwrap();
    assert_eq!(got[0].tokens, script[1..8].to_vec());
    assert_eq!(got[1].tokens, script[2..4].to_vec());
    assert_eq!(got[0].stats.speculative.draft_calls, 7);
}
