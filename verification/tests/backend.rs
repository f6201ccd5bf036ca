use velo_core::backend::{
    judge, CausalLmBackend, GreedyDraftModel, GreedySampler, GreedyTargetModel, TokenLogits,
};
use velo_core::constraints::LlguidanceMatcher;
use velo_core::mock_backend::MockBackend;
use velo_core::radix_cache::{CacheLookup, TokenId};
use velo_core::scalar::F32;
use velo_core::slot_manager::SlotId;
use velo_core::speculative::{
    DraftModel, NextTokenPrediction, SpeculativeError, TargetModel, VerifyStep,
};

fn f(v: f32) -> F32 {
    F32::from_bits(v.to_bits())
}

fn logits(values: &[f32]) -> TokenLogits {
    TokenLogits::new(values.iter().map(|v| f(*v)).collect()).unwrap()
}

#[derive(Debug, Clone)]
struct ScriptedBackend {
    script: Vec<TokenId>,
    bound_prefixes: Vec<CacheLookup>,
}

impl CausalLmBackend for ScriptedBackend {
    fn bind_prefix_cache(&mut self, prefix: &CacheLookup) -> Result<(), SpeculativeError> {
        self.bound_prefixes.push(prefix.clone());
        Ok(())
    }

    fn next_logits(&mut self, context: &[TokenId]) -> Result<TokenLogits, SpeculativeError> {
        one_hot(self.script[context.len()])
    }

    fn verify_logits(
        &mut self,
        context: &[TokenId],
        drafted: &[TokenId],
    ) -> Result<Vec<TokenLogits>, SpeculativeError> {
        self.script[context.len()..]
            .iter()
            .take(drafted.len())
            .map(|token| one_hot(*token))
            .collect()
    }
}

fn one_hot(token: TokenId) -> Result<TokenLogits, SpeculativeError> {
    let mut values = vec![f(0.0); token as usize + 1];
    values[token as usize] = f(1.0);
    TokenLogits::new(values)
}

#[test]
fn greedy_sampler_selects_highest_logit() {
    let logits = logits(&[0.1, 0.8, 0.2]);

    assert_eq!(
        GreedySampler.sample(&logits),
        NextTokenPrediction { token: 1, confidence: f(0.8) }
    );
}

#[test]
fn greedy_draft_model_autoregressively_extends_context() {
    let backend = ScriptedBackend { script: vec![4, 5, 6], bound_prefixes: Vec::new() };
    let mut draft = GreedyDraftModel::new(backend);

    let predictions = draft.draft::<LlguidanceMatcher>(&[4], 2, None).unwrap();

    assert_eq!(
        predictions,
        vec![
            NextTokenPrediction { token: 5, confidence: f(1.0) },
            NextTokenPrediction { token: 6, confidence: f(1.0) },
        ]
    );
}

#[test]
fn greedy_target_model_converts_verify_logits_to_expected_tokens() {
    let backend = ScriptedBackend { script: vec![2, 3, 4], bound_prefixes: Vec::new() };
    let mut target = GreedyTargetModel::new(backend);

    let verified = target.verify::<LlguidanceMatcher>(&[2], &[9, 9], None).unwrap();

    assert_eq!(
        verified,
        vec![VerifyStep { expected: 3 }, VerifyStep { expected: 4 }]
    );
}

#[test]
fn adapters_forward_prefix_cache_bindings() {
    let prefix = CacheLookup { matched_tokens: 2, handle: None };
    let backend = ScriptedBackend { script: vec![1, 2], bound_prefixes: Vec::new() };
    let mut draft = GreedyDraftModel::new(backend);

    draft.bind_prefix_cache(&prefix).unwrap();

    assert_eq!(draft.backend().bound_prefixes, vec![prefix]);
}

#[test]
fn token_logits_rejects_empty_values() {
    assert!(TokenLogits::new(vec![]).is_err());
}

#[test]
fn greedy_sampler_handles_single_logit() {
    let prediction = GreedySampler.sample(&logits(&[0.5]));
    assert_eq!(prediction.token, 0);
    assert_eq!(prediction.confidence, f(0.5));
}

#[test]
fn greedy_sampler_picks_last_max() {
    let prediction = GreedySampler.sample(&logits(&[0.5, 0.5]));
    assert_eq!(prediction.token, 1);
}

struct CountingBackend;

impl CausalLmBackend for CountingBackend {
    fn next_logits(&mut self, ctx: &[TokenId]) -> Result<TokenLogits, SpeculativeError> {
        TokenLogits::new(vec![f(ctx.len() as f32)])
    }

    fn verify_logits(
        &mut self,
        ctx: &[TokenId],
        drafted: &[TokenId],
    ) -> Result<Vec<TokenLogits>, SpeculativeError> {
        Ok(vec![TokenLogits::new(vec![f((ctx.len() + drafted.len()) as f32)]).unwrap()])
    }
}

#[test]
fn next_logits_batch_defaults_to_sequential() {
    let mut backend = CountingBackend;
    let batch = backend.next_logits_batch(&[&[1], &[1, 2]]).unwrap();
    assert_eq!(batch[0].values(), &[f(1.0)]);
    assert_eq!(batch[1].values(), &[f(2.0)]);
}

#[test]
fn verify_logits_batch_defaults_to_sequential() {
    let mut backend = CountingBackend;
    let batch = backend.verify_logits_batch(&[(&[1], &[2]), (&[1, 2], &[3])]).unwrap();
    assert_eq!(batch[0][0].values(), &[f(2.0)]);
    assert_eq!(batch[1][0].values(), &[f(3.0)]);
}

#[test]
fn emits_scripted_tokens() {
    let backend = MockBackend::new(vec![1, 2, 3]);
    let mut draft = GreedyDraftModel::new(backend);

    let predictions = draft.draft::<LlguidanceMatcher>(&[1], 2, None).unwrap();

    assert_eq!(predictions[0].token, 2);
    assert_eq!(predictions[1].token, 3);
}

#[test]
fn can_override_draft_positions() {
    let backend = MockBackend::new(vec![1, 2, 3]).with_override(1, 9);
    let mut draft = GreedyDraftModel::new(backend);

    let predictions = draft.draft::<LlguidanceMatcher>(&[1], 2, None).unwrap();

    assert_eq!(predictions[0].token, 9);
    assert_eq!(predictions[1].token, 3);
}

#[test]
fn target_verify_reads_unmodified_script() {
    let backend = MockBackend::new(vec![1, 2, 3]);
    let mut target = GreedyTargetModel::new(backend);

    let verified = target.verify::<LlguidanceMatcher>(&[1], &[9, 9], None).unwrap();

    assert_eq!(
        verified,
        vec![VerifyStep { expected: 2 }, VerifyStep { expected: 3 }]
    );
}

#[test]
fn mock_backend_errors_and_meta() {
    let mut backend = MockBackend::new(vec![1, 2]);
    assert!(backend.token_at(5).is_err());

    backend.bind_prefix_cache(&CacheLookup { matched_tokens: 1, handle: None }).unwrap();
    assert_eq!(backend.bound_prefixes().len(), 1);

    backend.bind_slot(SlotId(0)).unwrap();

    let backend2 = backend.clone();
    assert_eq!(backend2.token_at(0), Ok(1));
    assert_eq!(backend2.token_at(1), Ok(2));
    assert!(backend2.token_at(2).is_err());
    assert!(format!("{:?}", backend).contains("MockBackend"));
}

#[test]
fn a_script_that_ends_is_reported() {
    let backend = MockBackend::new(vec![1, 2]);
    let e = backend.token_at(5).unwrap_err();
    assert_eq!(e.to_string(), "mock backend has no token at position 5");
}

#[test]
fn logits_are_judged_by_their_top_token() {
    let seen = vec![logits(&[0.0, 3.0, 1.0]), logits(&[2.0, 0.0, 1.0])];
    let steps = judge::<LlguidanceMatcher>(&seen, &[1, 2], None);
    assert_eq!(steps, vec![VerifyStep { expected: 1 }, VerifyStep { expected: 0 }]);
    assert!(judge::<LlguidanceMatcher>(&Vec::new(), &[], None).is_empty());
}

#[test]
fn a_draft_stops_at_the_end_of_the_script() {
    let mut model = GreedyDraftModel::new(MockBackend::new(vec![7, 8, 9]));
    let within = model.draft::<LlguidanceMatcher>(&[7], 2, None).unwrap();
    assert_eq!(within.iter().map(|p| p.token).collect::<Vec<_>>(), vec![8, 9]);
    assert!(model.draft::<LlguidanceMatcher>(&[7], 3, None).is_err());
    assert!(model.draft::<LlguidanceMatcher>(&[7, 8, 9], 0, None).unwrap().is_empty());
}
