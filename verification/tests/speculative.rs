use velo_core::constraints::{CfgMatcher, LlguidanceMatcher};
use velo_core::radix_cache::{CacheLookup, TokenId};
use velo_core::scalar::F32;
use velo_core::slot_manager::SlotId;
use velo_core::speculative::{
    bind_models, chain_tree, leftmost_branch, model_error, DraftModel, DraftRequest,
    NextTokenPrediction, SpeculativeDecoder, SpeculativeError, SpeculativeStats, SpeculativeTree, TargetModel,
    TreeVerifyResult, VerifyRequest, VerifyStep,
};

fn sure(token: TokenId) -> NextTokenPrediction {
    NextTokenPrediction { token, confidence: F32::from_bits(1.0f32.to_bits()) }
}

#[derive(Debug)]
struct ScriptedDraft {
    script: Vec<TokenId>,
}

impl DraftModel for ScriptedDraft {
    fn draft<M: CfgMatcher>(
        &mut self,
        context: &[TokenId],
        max_tokens: usize,
        _matcher: Option<&mut M>,
    ) -> Result<Vec<NextTokenPrediction>, SpeculativeError> {
        Ok(self.script[context.len()..].iter().take(max_tokens).map(|t| sure(*t)).collect())
    }
}

#[derive(Debug)]
struct ScriptedTarget {
    script: Vec<TokenId>,
}

impl TargetModel for ScriptedTarget {
    fn verify<M: CfgMatcher>(
        &mut self,
        context: &[TokenId],
        drafted: &[TokenId],
        _matcher: Option<&mut M>,
    ) -> Result<Vec<VerifyStep>, SpeculativeError> {
        Ok(self.script[context.len()..]
            .iter()
            .take(drafted.len())
            .map(|token| VerifyStep { expected: *token })
            .collect())
    }
}

#[test]
fn accepts_full_draft_windows() {
    let decoder = SpeculativeDecoder::new(3).unwrap();
    let prompt = [1, 2];
    let mut draft = ScriptedDraft { script: vec![1, 2, 3, 4, 5, 6] };
    let mut target = ScriptedTarget { script: vec![1, 2, 3, 4, 5, 6] };

    let output = decoder.generate(&mut draft, &mut target, &prompt, 4).unwrap();

    assert_eq!(output.tokens, vec![3, 4, 5, 6]);
    assert_eq!(
        output.stats,
        SpeculativeStats {
            draft_calls: 2,
            target_calls: 2,
            drafted_tokens: 4,
            accepted_tokens: 4,
            rejected_tokens: 0,
        }
    );
}

#[test]
fn falls_back_to_target_token_on_first_rejection() {
    let decoder = SpeculativeDecoder::new(4).unwrap();
    let prompt = [1, 2];
    let mut draft = ScriptedDraft { script: vec![1, 2, 9, 4, 5] };
    let mut target = ScriptedTarget { script: vec![1, 2, 3, 4, 5] };

    let output = decoder.generate(&mut draft, &mut target, &prompt, 3).unwrap();

    assert_eq!(output.tokens, vec![3, 4, 5]);
    assert_eq!(output.stats.accepted_tokens, 2);
    assert_eq!(output.stats.rejected_tokens, 3);
}

#[test]
fn stops_at_max_new_tokens() {
    let decoder = SpeculativeDecoder::new(8).unwrap();
    let prompt = [1];
    let mut draft = ScriptedDraft { script: vec![1, 2, 3, 4, 5] };
    let mut target = ScriptedTarget { script: vec![1, 2, 3, 4, 5] };

    let output = decoder.generate(&mut draft, &mut target, &prompt, 2).unwrap();

    assert_eq!(output.tokens, vec![2, 3]);
    assert_eq!(output.stats.drafted_tokens, 2);
}

#[test]
fn rejects_zero_draft_window() {
    assert_eq!(SpeculativeDecoder::new(0), Err(SpeculativeError::EmptyDraftWindow));
}

#[test]
fn speculative_error_display() {
    assert!(SpeculativeError::EmptyDraftWindow
        .to_string()
        .contains("draft window must be greater than zero"));
    assert!(SpeculativeError::DraftReturnedTooMany { requested: 1, returned: 2 }
        .to_string()
        .contains("draft model returned 2 tokens"));
    assert!(SpeculativeError::TargetReturnedWrongLength { drafted: 1, returned: 2 }
        .to_string()
        .contains("target model returned 2 verification steps"));
    assert!(SpeculativeError::Model("oops".into()).to_string().contains("oops"));
}

#[test]
fn speculative_stats_ops() {
    let s1 = SpeculativeStats { draft_calls: 1, ..Default::default() };
    let s2 = SpeculativeStats { draft_calls: 2, ..Default::default() };
    assert_eq!(s1.draft_calls + s2.draft_calls, 3);
}

#[test]
fn session_exposes_prompt_and_context() {
    let decoder = SpeculativeDecoder::new(2).unwrap();
    let session = decoder.begin(&[7, 8]).unwrap();

    assert_eq!(session.prompt(), &[7, 8]);
    assert_eq!(session.context(), &[7, 8]);
}

struct OneDraft;

impl DraftModel for OneDraft {
    fn draft<M: CfgMatcher>(
        &mut self,
        _: &[TokenId],
        m: usize,
        _: Option<&mut M>,
    ) -> Result<Vec<NextTokenPrediction>, SpeculativeError> {
        Ok(vec![sure(1); m])
    }
}

struct OneTarget;

impl TargetModel for OneTarget {
    fn verify<M: CfgMatcher>(
        &mut self,
        _: &[TokenId],
        d: &[TokenId],
        _: Option<&mut M>,
    ) -> Result<Vec<VerifyStep>, SpeculativeError> {
        Ok(vec![VerifyStep { expected: 1 }; d.len()])
    }
}

#[test]
fn batch_default_impls() {
    let mut d = OneDraft;
    let mut t = OneTarget;
    let mut drafts: Vec<DraftRequest<LlguidanceMatcher>> =
        vec![DraftRequest { context: vec![1], max_tokens: 1, matcher: None }];
    let mut answers: Vec<VerifyRequest<LlguidanceMatcher>> =
        vec![VerifyRequest { context: vec![1], drafted: vec![1], matcher: None }];
    assert!(d.draft_batch(&mut drafts).is_ok());
    assert!(t.verify_batch(&mut answers).is_ok());
    assert!(d.bind_slot(SlotId(0)).is_ok());
    assert!(t.bind_slot(SlotId(0)).is_ok());
}

#[test]
fn commit_logic() {
    let decoder = SpeculativeDecoder::new(4).unwrap();
    let mut session = decoder.begin(&[1]).unwrap();
    let drafted = vec![sure(2)];
    let verified = vec![VerifyStep { expected: 2 }];
    let accepted = session.commit(&drafted, &verified).unwrap();
    assert_eq!(accepted, vec![2]);
    assert_eq!(session.context(), vec![1, 2]);

    // Error path
    assert!(session.commit(&drafted, &[]).is_err());
}

#[test]
fn record_stats() {
    let decoder = SpeculativeDecoder::new(4).unwrap();
    let mut session = decoder.begin(&[]).unwrap();
    session.record_draft_call();
    session.record_target_call();
    assert_eq!(session.stats().draft_calls, 1);
    assert_eq!(session.stats().target_calls, 1);
}

struct FixedDraft {
    count: usize,
}

impl DraftModel for FixedDraft {
    fn draft<M: CfgMatcher>(
        &mut self,
        _: &[TokenId],
        _: usize,
        _: Option<&mut M>,
    ) -> Result<Vec<NextTokenPrediction>, SpeculativeError> {
        Ok(vec![sure(1); self.count])
    }
}

struct SilentTarget;

impl TargetModel for SilentTarget {
    fn verify<M: CfgMatcher>(
        &mut self,
        _: &[TokenId],
        _: &[TokenId],
        _: Option<&mut M>,
    ) -> Result<Vec<VerifyStep>, SpeculativeError> {
        Ok(vec![]) // Wrong length
    }
}

#[test]
fn draft_error_paths() {
    let decoder = SpeculativeDecoder::new(4).unwrap();
    let mut session = decoder.begin(&[1]).unwrap();

    assert!(session.draft(&mut FixedDraft { count: 10 }, &mut OneTarget, 4).is_err());
    assert!(session
        .draft(&mut FixedDraft { count: 0 }, &mut OneTarget, 4)
        .unwrap()
        .is_empty());

    let mut good_draft = ScriptedDraft { script: vec![1, 2, 3] };
    assert!(session.draft(&mut good_draft, &mut SilentTarget, 4).is_err());
}

#[test]
fn test_dynamic_draft_window() {
    let decoder = SpeculativeDecoder::new(2).unwrap();
    let mut session = decoder.begin(&[1]).unwrap();
    assert_eq!(session.current_window(), 2);

    // 1. Full acceptance should grow window
    let drafted = vec![sure(2), sure(3)];
    let verified = vec![VerifyStep { expected: 2 }, VerifyStep { expected: 3 }];
    session.commit(&drafted, &verified).unwrap();
    assert_eq!(session.current_window(), 3);

    // 2. Rejection should shrink window
    let drafted = vec![sure(4), sure(9)];
    let verified = vec![VerifyStep { expected: 4 }, VerifyStep { expected: 5 }]; // 5 != 9
    session.commit(&drafted, &verified).unwrap();
    assert_eq!(session.current_window(), 2); // accepted=1 + 1 = 2
}

#[test]
fn test_tree_best_path() {
    // Create a tree:
    //   root (0: token 10)
    //    /   \
    // child1(1: token 20)  child2(2: token 30)
    //  |
    // grandchild1(3: token 40)

    let mut tree = SpeculativeTree::new(10);
    let c1 = tree.add_child(0, 20);
    let _c2 = tree.add_child(0, 30);
    let _gc1 = tree.add_child(c1, 40);

    // Scenario 1: c2 is the only correct path
    let verified = TreeVerifyResult { expected: vec![30, 99, 99, 99] };
    let (best_path, rejected) = tree.find_best_path(&verified);
    assert_eq!(best_path, vec![10, 30]);
    assert_eq!(rejected, Some(99)); // After 30 (node 2), target model says 99.

    // Scenario 2: c1 path is better
    let verified = TreeVerifyResult { expected: vec![20, 40, 99, 99] };
    let (best_path, rejected) = tree.find_best_path(&verified);
    assert_eq!(best_path, vec![10, 20, 40]);
    assert_eq!(rejected, Some(99));
}

#[test]
fn a_chain_is_its_own_leftmost_branch() {
    let tree = chain_tree(&vec![sure(5), sure(6), sure(7)]).unwrap();
    assert_eq!(leftmost_branch(&tree), vec![0, 1, 2]);
    assert_eq!(tree.get_path(2), vec![5, 6, 7]);
    assert!(chain_tree(&vec![]).is_err());
}

#[test]
fn windows_must_fit_their_limit() {
    assert!(SpeculativeDecoder::with_max_window(4, 3).is_err());
    assert_eq!(SpeculativeDecoder::with_max_window(4, 9).unwrap().draft_window(), 4);
}

#[test]
fn a_rejected_token_is_handed_out_once() {
    let decoder = SpeculativeDecoder::new(4).unwrap();
    let mut session = decoder.begin(&[1]).unwrap();
    let accepted = session.commit(&[sure(2), sure(9)], &[VerifyStep { expected: 2 }, VerifyStep { expected: 3 }]).unwrap();
    assert_eq!(accepted, vec![2]);
    assert!(session.has_pending_rejection());
    assert_eq!(session.take_rejected_token(), Some(3));
    assert!(!session.has_pending_rejection());
    assert_eq!(session.context(), &[1, 2, 3]);
    assert_eq!(session.stats().rejected_tokens, 1);
}

#[derive(Debug, Default)]
struct Listener {
    slots: Vec<SlotId>,
    prefixes: Vec<usize>,
    deaf: bool,
}

impl Listener {
    fn hear(&mut self, slot: SlotId) -> Result<(), SpeculativeError> {
        if self.deaf {
            return Err(model_error("not listening"));
        }
        self.slots.push(slot);
        Ok(())
    }
}

impl DraftModel for Listener {
    fn bind_slot(&mut self, slot: SlotId) -> Result<(), SpeculativeError> {
        self.hear(slot)
    }

    fn bind_prefix_cache(&mut self, prefix: &CacheLookup) -> Result<(), SpeculativeError> {
        self.prefixes.push(prefix.matched_tokens);
        Ok(())
    }

    fn draft<M: CfgMatcher>(
        &mut self,
        _context: &[TokenId],
        _max_tokens: usize,
        _matcher: Option<&mut M>,
    ) -> Result<Vec<NextTokenPrediction>, SpeculativeError> {
        Ok(Vec::new())
    }
}

impl TargetModel for Listener {
    fn bind_slot(&mut self, slot: SlotId) -> Result<(), SpeculativeError> {
        self.hear(slot)
    }

    fn bind_prefix_cache(&mut self, prefix: &CacheLookup) -> Result<(), SpeculativeError> {
        self.prefixes.push(prefix.matched_tokens);
        Ok(())
    }

    fn verify<M: CfgMatcher>(
        &mut self,
        _context: &[TokenId],
        _drafted: &[TokenId],
        _matcher: Option<&mut M>,
    ) -> Result<Vec<VerifyStep>, SpeculativeError> {
        Ok(Vec::new())
    }
}

#[test]
fn both_models_hear_of_the_slot_and_the_prefix() {
    let prefix = CacheLookup { matched_tokens: 3, handle: None };
    let mut draft = Listener::default();
    let mut target = Listener::default();
    assert!(bind_models(&mut draft, &mut target, SlotId(2), &prefix).is_ok());
    assert_eq!(draft.slots, vec![SlotId(2)]);
    assert_eq!(target.slots, vec![SlotId(2)]);
    assert_eq!(draft.prefixes, vec![3]);
    assert_eq!(target.prefixes, vec![3]);
    target.deaf = true;
    assert!(bind_models(&mut draft, &mut target, SlotId(5), &prefix).is_err());
    assert_eq!(draft.slots, vec![SlotId(2), SlotId(5)]);
    assert_eq!(target.slots, vec![SlotId(2)]);
    assert_eq!(draft.prefixes, vec![3]);
}
