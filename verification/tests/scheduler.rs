use velo_core::backend::{GreedyDraftModel, GreedyTargetModel};
use velo_core::engine::{EngineConfig, VeloEngine};
use velo_core::metal::types::DeviceParts;
use velo_core::mock_backend::MockBackend;
use velo_core::model_pool::ModelPool;
use velo_core::paged_attention::KvCacheType;
use velo_core::radix_cache::TokenId;
use velo_core::runtime::{CpuMemoryRuntime, MemoryRuntimeConfig};
use velo_core::scheduler::{Departure, VeloScheduler};

type MockScheduler =
    VeloScheduler<CpuMemoryRuntime, GreedyDraftModel<MockBackend>, GreedyTargetModel<MockBackend>>;

fn scheduler(script: Vec<TokenId>, max_slots: usize, draft_window: usize) -> MockScheduler {
    let backend = MockBackend::new(script);
    scheduler_of(backend.clone(), backend, max_slots, draft_window)
}

fn scheduler_of(
    draft: MockBackend,
    target: MockBackend,
    max_slots: usize,
    draft_window: usize,
) -> MockScheduler {
    let engine = VeloEngine::new(EngineConfig {
        memory: MemoryRuntimeConfig {
            max_slots,
            paged_total_pages: 10,
            paged_block_size: 4,
            ..Default::default()
        },
        draft_window,
        kv_type: KvCacheType::Fp32,
    })
    .unwrap();
    VeloScheduler::new(
        engine,
        GreedyDraftModel::new(draft),
        GreedyTargetModel::new(target),
    )
}

/// Runs one round and hands every token over.
fn round(s: &mut MockScheduler, got: &mut Vec<(u64, TokenId)>) -> Vec<Departure> {
    assert!(s.step().is_ok());
    for i in 0..s.active.len() {
        let id = s.active[i].id;
        let outbox = s.active[i].outbox.clone();
        for t in &outbox {
            got.push((id, *t));
        }
        if let Some(t) = s.record_delivery(i, outbox.len(), 5) {
            got.push((id, t));
            s.record_correction(i, true, 5);
        }
    }
    let open = vec![false; s.active.len()];
    s.cleanup(&open)
}

#[test]
fn a_request_gets_its_tokens_and_leaves() {
    let mut s = scheduler(vec![1, 2, 3, 4, 5, 6, 7, 8, 9, 10], 2, 2);
    let id = s.submit(vec![1, 2, 3], 5);
    assert!(!s.is_idle());
    assert!(s.admit_waiting().is_empty());
    assert_eq!(s.metrics().active_slots, 1);

    let mut got = Vec::new();
    let mut gone = Vec::new();
    while gone.is_empty() {
        gone = round(&mut s, &mut got);
    }
    let tokens: Vec<TokenId> = got.iter().map(|(_, t)| *t).collect();
    assert_eq!(tokens, vec![4, 5, 6, 7, 8]);
    assert_eq!(gone, vec![Departure { id, completed: true }]);
    let m = s.metrics();
    assert_eq!(m.total_tokens_generated, 5);
    assert_eq!(m.total_requests_completed, 1);
    assert_eq!(m.active_slots, 0);
    assert_eq!(m.total_ttft_ms, 5);
    assert_eq!(m.requests_with_ttft, 1);
    assert!(s.is_idle());
}

#[test]
fn two_requests_are_served_at_once() {
    let mut s = scheduler(vec![1, 2, 3, 4, 5, 6, 7, 8, 9, 10], 2, 2);
    let a = s.submit(vec![1, 1], 2);
    let b = s.submit(vec![2, 2], 2);
    assert!(s.admit_waiting().is_empty());
    assert_eq!(s.active.len(), 2);
    assert_ne!(s.active[0].slot_id, s.active[1].slot_id);
    let mut got = Vec::new();
    let gone = round(&mut s, &mut got);
    assert_eq!(
        gone,
        vec![Departure { id: a, completed: true }, Departure { id: b, completed: true }]
    );
    assert_eq!(got.len(), 4);
}

#[test]
fn waiting_requests_get_slots_as_they_become_free() {
    let mut s = scheduler(vec![1, 2, 3, 4, 5], 1, 1);
    let first = s.submit(vec![1], 1);
    let second = s.submit(vec![2], 1);
    assert!(s.admit_waiting().is_empty());
    assert_eq!(s.active.len(), 1);
    assert_eq!(s.pending.len(), 1);
    let mut got = Vec::new();
    assert_eq!(round(&mut s, &mut got)[0].id, first);
    assert!(s.admit_waiting().is_empty());
    assert_eq!(s.active[0].id, second);
}

#[test]
fn a_closed_receiver_frees_the_slot() {
    let mut s = scheduler(vec![1, 2, 3, 4, 5], 1, 1);
    let id = s.submit(vec![1], 10);
    s.admit_waiting();
    assert!(s.step().is_ok());
    assert_eq!(s.record_delivery(0, 0, 1), None);
    assert!(s.active[0].cancelled);
    let gone = s.cleanup(&[true]);
    assert_eq!(gone, vec![Departure { id, completed: false }]);
    assert_eq!(s.metrics().active_slots, 0);
    assert_eq!(s.metrics().total_requests_completed, 0);
    assert!(s.engine.allocate_slot().is_some());
}

#[test]
fn a_waiting_prompt_without_pages_is_refused() {
    let mut s = scheduler((0..200).collect(), 2, 2);
    let long = s.submit((0..100).collect(), 1);
    let short = s.submit(vec![1], 1);
    let refused = s.admit_waiting();
    assert_eq!(refused.len(), 1);
    assert_eq!(refused[0].id, long);
    assert_eq!(s.active.len(), 1);
    assert_eq!(s.active[0].id, short);
}

#[test]
fn corrections_count_as_tokens() {
    let draft = MockBackend::new(vec![1, 2, 9, 4]);
    let target = MockBackend::new(vec![1, 2, 3, 4]);
    let engine = VeloEngine::new(EngineConfig {
        memory: MemoryRuntimeConfig::cpu(0, 4, 10, 1, 1),
        draft_window: 2,
        kv_type: KvCacheType::Fp32,
    })
    .unwrap();
    let mut s = VeloScheduler::new(
        engine,
        GreedyDraftModel::new(draft),
        GreedyTargetModel::new(target),
    );
    s.submit(vec![1], 3);
    s.admit_waiting();
    assert!(s.step().is_ok());
    assert_eq!(s.active[0].outbox, vec![2]);
    assert_eq!(s.record_delivery(0, 1, 7), Some(3));
    s.record_correction(0, false, 7);
    assert_eq!(s.active[0].generated_count, 2);
    assert!(s.active[0].cancelled);
    assert_eq!(s.metrics().total_ttft_ms, 7);
    assert_eq!(s.metrics().total_tokens_generated, 2);
}

#[test]
fn a_failing_model_changes_no_request() {
    let mut s = scheduler(vec![1, 2], 1, 2);
    s.submit(vec![1, 2], 5);
    s.admit_waiting();
    assert!(s.step().is_err());
    assert_eq!(s.active[0].session.context(), &[1, 2]);
    assert!(s.active[0].outbox.is_empty());
}

#[test]
fn switching_models_keeps_the_requests() {
    let mut s = scheduler(vec![1, 2, 3, 4, 5], 4, 2);
    let pool: ModelPool<u8> =
        ModelPool::new(DeviceParts { device: false, command_queue: false, library: false });
    s.switch_models("new-model", &Some("new-model".to_string()), &pool);
    s.submit(vec![1], 2);
    assert!(s.admit_waiting().is_empty());
    let mut got = Vec::new();
    let gone = round(&mut s, &mut got);
    assert_eq!(got.len(), 2);
    assert_eq!(gone.len(), 1);
}

#[test]
fn users_get_the_target_script_whatever_is_drafted() {
    let script: Vec<TokenId> = (20..35).collect();
    let wrong = MockBackend::new(script.clone()).with_override(2, 1).with_override(5, 0);
    for window in 1..4 {
        let mut s = scheduler_of(wrong.clone(), MockBackend::new(script.clone()), 2, window);
        let id = s.submit(vec![20, 21], 7);
        assert!(s.admit_waiting().is_empty());
        let mut got = Vec::new();
        let mut gone = Vec::new();
        while gone.is_empty() {
            gone = round(&mut s, &mut got);
        }
        let tokens: Vec<TokenId> = got.iter().map(|(_, t)| *t).collect();
        assert_eq!(tokens, script[2..9].to_vec());
        assert_eq!(gone, vec![Departure { id, completed: true }]);
    }
}
