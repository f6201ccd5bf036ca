//! Language model backends and the greedy models built on them.

use vstd::prelude::*;
use crate::constraints::{CfgMatcher, Guidance};
use crate::engine;
use crate::engine::{BatchRequest, EngineOutput, Moment, VeloEngine};
use crate::radix_cache::{CacheLookup, TokenId};
use crate::runtime::MemoryRuntime;
use crate::sampling::{LogitMask, Sampler};
use crate::scalar::F32;
use crate::slot_manager::SlotId;
use crate::speculative;
use crate::speculative::{
    copied, model_error, DraftAsk, DraftCall, DraftModel, DraftRequest, NextTokenPrediction,
    SessionModel, SpeculativeDecoder, SpeculativeError, SpeculativeOutput, TargetModel, VerifyAsk, VerifyCall,
    VerifyRequest, VerifyStep,
};

verus! {

/// The logits of all tokens at one position. There is at least one.
#[derive(Debug, PartialEq)]
pub struct TokenLogits {
    values: Vec<F32>,
}

impl Clone for TokenLogits {
    fn clone(&self) -> (copy: Self)
        ensures
            copy@ == self@,
    {
        let source: &[F32] = self.values();
        let mut values: Vec<F32> = Vec::with_capacity(source.len());
        let mut i: usize = 0;
        while i < source.len()
            invariant
                i <= source@.len(),
                values@ == source@.take(i as int),
            decreases source@.len() - i,
        {
            values.push(source[i]);
            i = i + 1;
            assert(values@ =~= source@.take(i as int));
        }
        assert(values@ =~= source@);
        TokenLogits { values }
    }
}

impl View for TokenLogits {
    type V = Seq<F32>;

    closed spec fn view(&self) -> Seq<F32> {
        self.values@
    }
}

impl TokenLogits {
    #[verifier::type_invariant]
    spec fn not_empty(self) -> bool {
        self.values@.len() > 0
    }

    pub fn new(values: Vec<F32>) -> (r: Result<Self, SpeculativeError>)
        ensures
            values@.len() == 0 ==> r is Err && r->Err_0 is Model && r->Err_0.text()
                == "logits must contain at least one token"@,
            values@.len() > 0 ==> r is Ok && r->Ok_0@ == values@,
    {
        if values.len() == 0 {
            return Err(model_error("logits must contain at least one token"));
        }
        Ok(TokenLogits { values })
    }

    pub fn values(&self) -> (v: &[F32])
        ensures
            v@ == self@,
            v@.len() > 0,
    {
        proof {
            use_type_invariant(self);
        }
        self.values.as_slice()
    }
}

/// A call of `CausalLmBackend::next_logits` on a model in state `before`.
pub struct NextCall<B> {
    pub before: B,
    pub context: Seq<TokenId>,
    pub after: B,
    pub answer: Result<TokenLogits, SpeculativeError>,
}

/// A call of `CausalLmBackend::verify_logits` on a model in state `before`.
pub struct JudgeCall<B> {
    pub before: B,
    pub context: Seq<TokenId>,
    pub drafted: Seq<TokenId>,
    pub after: B,
    pub answer: Result<Vec<TokenLogits>, SpeculativeError>,
}

/// The contexts of a batch.
pub open spec fn contexts_of(contexts: Seq<&[TokenId]>) -> Seq<Seq<TokenId>> {
    contexts.map_values(|c: &[TokenId]| c@)
}

/// The contexts of a batch, each with what was drafted after it.
pub open spec fn questions_of(requests: Seq<(&[TokenId], &[TokenId])>) -> Seq<
    (Seq<TokenId>, Seq<TokenId>),
> {
    requests.map_values(|q: (&[TokenId], &[TokenId])| (q.0@, q.1@))
}

/// Whether the logits for context `k` took the model from state `k` to the next
/// one, with this answer.
pub open spec fn given_at<B>(
    calls: spec_fn(NextCall<B>) -> bool,
    states: Seq<B>,
    contexts: Seq<Seq<TokenId>>,
    k: int,
    answer: Result<TokenLogits, SpeculativeError>,
) -> bool {
    speculative::admits(
        calls,
        (NextCall { before: states[k], context: contexts[k], after: states[k + 1], answer }),
    )
}

/// Whether a batch was answered one context after the other, through the given
/// states, up to the first error.
pub open spec fn gives_in_turn<B>(
    calls: spec_fn(NextCall<B>) -> bool,
    states: Seq<B>,
    contexts: Seq<Seq<TokenId>>,
    results: Seq<TokenLogits>,
    r: Result<Vec<TokenLogits>, SpeculativeError>,
) -> bool {
    let n = results.len() as int;
    &&& forall|k: int| 0 <= k < n ==> #[trigger] given_at(calls, states, contexts, k, Ok(results[k]))
    &&& match r {
        Ok(all) => all@ == results && n == contexts.len() && states.len() == n + 1,
        Err(e) => n < contexts.len() && states.len() == n + 2 && given_at(
            calls,
            states,
            contexts,
            n,
            Err(e),
        ),
    }
}

/// Whether a batch was answered one context after the other.
pub open spec fn given_in_turn<B>(
    calls: spec_fn(NextCall<B>) -> bool,
    before: B,
    contexts: Seq<Seq<TokenId>>,
    after: B,
    r: Result<Vec<TokenLogits>, SpeculativeError>,
) -> bool {
    exists|states: Seq<B>, results: Seq<TokenLogits>| #[trigger]
        gives_in_turn(calls, states, contexts, results, r) && states[0] == before && states.last()
            == after
}

/// Whether the logits for question `k` took the model from state `k` to the
/// next one, with this answer.
pub open spec fn judged_at<B>(
    calls: spec_fn(JudgeCall<B>) -> bool,
    states: Seq<B>,
    questions: Seq<(Seq<TokenId>, Seq<TokenId>)>,
    k: int,
    answer: Result<Vec<TokenLogits>, SpeculativeError>,
) -> bool {
    speculative::admits(
        calls,
        (JudgeCall {
            before: states[k],
            context: questions[k].0,
            drafted: questions[k].1,
            after: states[k + 1],
            answer,
        }),
    )
}

/// Whether a batch was judged one question after the other, through the given
/// states, up to the first error.
pub open spec fn judges_in_turn<B>(
    calls: spec_fn(JudgeCall<B>) -> bool,
    states: Seq<B>,
    questions: Seq<(Seq<TokenId>, Seq<TokenId>)>,
    results: Seq<Vec<TokenLogits>>,
    r: Result<Vec<Vec<TokenLogits>>, SpeculativeError>,
) -> bool {
    let n = results.len() as int;
    &&& forall|k: int|
        0 <= k < n ==> #[trigger] judged_at(calls, states, questions, k, Ok(results[k]))
    &&& match r {
        Ok(all) => all@ == results && n == questions.len() && states.len() == n + 1,
        Err(e) => n < questions.len() && states.len() == n + 2 && judged_at(
            calls,
            states,
            questions,
            n,
            Err(e),
        ),
    }
}

/// Whether a batch was judged one question after the other.
pub open spec fn judged_in_turn<B>(
    calls: spec_fn(JudgeCall<B>) -> bool,
    before: B,
    questions: Seq<(Seq<TokenId>, Seq<TokenId>)>,
    after: B,
    r: Result<Vec<Vec<TokenLogits>>, SpeculativeError>,
) -> bool {
    exists|states: Seq<B>, results: Seq<Vec<TokenLogits>>| #[trigger]
        judges_in_turn(calls, states, questions, results, r) && states[0] == before
            && states.last() == after
}

/// A causal language model.
///
/// The spec functions say what an implementation may answer; those that do not
/// give them a body promise nothing.
pub trait CausalLmBackend: Sized {
    /// Whether binding a prefix may leave the model so, with this result.
    open spec fn prefix_bound(
        before: Self,
        prefix: CacheLookup,
        after: Self,
        r: Result<(), SpeculativeError>,
    ) -> bool {
        true
    }

    /// Whether binding a slot may leave the model so, with this result.
    open spec fn slot_bound(
        before: Self,
        slot: SlotId,
        after: Self,
        r: Result<(), SpeculativeError>,
    ) -> bool {
        true
    }

    /// Whether a call of `next_logits` may come about.
    open spec fn gives(call: NextCall<Self>) -> bool {
        true
    }

    /// Whether a call of `next_logits_batch` that is more than one context after
    /// the other may leave the model so, with this result.
    open spec fn gives_together(
        before: Self,
        contexts: Seq<Seq<TokenId>>,
        after: Self,
        r: Result<Vec<TokenLogits>, SpeculativeError>,
    ) -> bool {
        true
    }

    /// Whether a call of `verify_logits` may come about.
    open spec fn judges(call: JudgeCall<Self>) -> bool {
        true
    }

    /// Whether a call of `verify_logits_batch` that is more than one request
    /// after the other may leave the model so, with this result.
    open spec fn judges_together(
        before: Self,
        questions: Seq<(Seq<TokenId>, Seq<TokenId>)>,
        after: Self,
        r: Result<Vec<Vec<TokenLogits>>, SpeculativeError>,
    ) -> bool {
        true
    }

    fn bind_prefix_cache(&mut self, prefix: &CacheLookup) -> (r: Result<(), SpeculativeError>)
        ensures
            Self::prefix_bound(*old(self), *prefix, *final(self), r) || speculative::left_alone(
                *old(self),
                *final(self),
                r,
            ),
        default_ensures
            speculative::left_alone(*old(self), *final(self), r),
    {
        Ok(())
    }

    fn bind_slot(&mut self, slot: SlotId) -> (r: Result<(), SpeculativeError>)
        ensures
            Self::slot_bound(*old(self), slot, *final(self), r) || speculative::left_alone(
                *old(self),
                *final(self),
                r,
            ),
        default_ensures
            speculative::left_alone(*old(self), *final(self), r),
    {
        Ok(())
    }

    /// The logits of the token that follows `context`.
    fn next_logits(&mut self, context: &[TokenId]) -> (r: Result<TokenLogits, SpeculativeError>)
        ensures
            Self::gives(NextCall {
                    before: *old(self),
                    context: context@,
                    after: *final(self),
                    answer: r,
                }),
    ;

    /// The next logits for every context, one result for each; by default one
    /// after the other, until the first error.
    fn next_logits_batch(&mut self, contexts: &[&[TokenId]]) -> (r: Result<
        Vec<TokenLogits>,
        SpeculativeError,
    >)
        ensures
            r is Ok ==> r->Ok_0@.len() == contexts@.len(),
            Self::gives_together(*old(self), contexts_of(contexts@), *final(self), r)
                || given_in_turn(
                |call: NextCall<Self>| Self::gives(call),
                *old(self),
                contexts_of(contexts@),
                *final(self),
                r,
            ),
        default_ensures
            given_in_turn(
                |call: NextCall<Self>| Self::gives(call),
                *old(self),
                contexts_of(contexts@),
                *final(self),
                r,
            ),
    {
        let mut results: Vec<TokenLogits> = Vec::with_capacity(contexts.len());
        let ghost calls = |call: NextCall<Self>| Self::gives(call);
        let ghost asked = contexts_of(contexts@);
        let ghost mut states: Seq<Self> = seq![*self];
        let mut i: usize = 0;
        while i < contexts.len()
            invariant
                i <= contexts@.len(),
                calls == (|call: NextCall<Self>| Self::gives(call)),
                asked == contexts_of(contexts@),
                results@.len() == i,
                states.len() == i + 1,
                states[0] == *old(self),
                states[i as int] == *self,
                forall|k: int|
                    0 <= k < i ==> #[trigger] given_at(
                        calls,
                        states,
                        asked,
                        k,
                        Ok(results@[k]),
                    ),
            decreases contexts@.len() - i,
        {
            let ghost seen = states;
            let ghost known = results@;
            let outcome: Result<TokenLogits, SpeculativeError> = self.next_logits(contexts[i]);
            proof {
                states = states.push(*self);
                assert(given_at(calls, states, asked, i as int, outcome));
                assert forall|k: int| 0 <= k < i implies #[trigger] given_at(
                    calls,
                    states,
                    asked,
                    k,
                    Ok(known[k]),
                ) by {
                    assert(given_at(calls, seen, asked, k, Ok(known[k])));
                }
            }
            match outcome {
                Ok(logits) => {
                    results.push(logits);
                },
                Err(e) => {
                    assert(gives_in_turn(calls, states, asked, known, Err(e)));
                    return Err(e);
                },
            }
            i = i + 1;
        }
        assert(gives_in_turn(calls, states, asked, results@, Ok(results)));
        Ok(results)
    }

    /// The logits in place of each drafted token.
    fn verify_logits(&mut self, context: &[TokenId], drafted: &[TokenId]) -> (r: Result<
        Vec<TokenLogits>,
        SpeculativeError,
    >)
        ensures
            Self::judges(JudgeCall {
                    before: *old(self),
                    context: context@,
                    drafted: drafted@,
                    after: *final(self),
                    answer: r,
                }),
    ;

    /// Verifies every request, one result for each; by default one after the
    /// other, until the first error.
    fn verify_logits_batch(&mut self, requests: &[(&[TokenId], &[TokenId])]) -> (r: Result<
        Vec<Vec<TokenLogits>>,
        SpeculativeError,
    >)
        ensures
            r is Ok ==> r->Ok_0@.len() == requests@.len(),
            Self::judges_together(*old(self), questions_of(requests@), *final(self), r)
                || judged_in_turn(
                |call: JudgeCall<Self>| Self::judges(call),
                *old(self),
                questions_of(requests@),
                *final(self),
                r,
            ),
        default_ensures
            judged_in_turn(
                |call: JudgeCall<Self>| Self::judges(call),
                *old(self),
                questions_of(requests@),
                *final(self),
                r,
            ),
    {
        let mut results: Vec<Vec<TokenLogits>> = Vec::with_capacity(requests.len());
        let ghost calls = |call: JudgeCall<Self>| Self::judges(call);
        let ghost asked = questions_of(requests@);
        let ghost mut states: Seq<Self> = seq![*self];
        let mut i: usize = 0;
        while i < requests.len()
            invariant
                i <= requests@.len(),
                calls == (|call: JudgeCall<Self>| Self::judges(call)),
                asked == questions_of(requests@),
                results@.len() == i,
                states.len() == i + 1,
                states[0] == *old(self),
                states[i as int] == *self,
                forall|k: int|
                    0 <= k < i ==> #[trigger] judged_at(
                        calls,
                        states,
                        asked,
                        k,
                        Ok(results@[k]),
                    ),
            decreases requests@.len() - i,
        {
            let ghost seen = states;
            let ghost known = results@;
            let outcome: Result<Vec<TokenLogits>, SpeculativeError> = self.verify_logits(
                requests[i].0,
                requests[i].1,
            );
            proof {
                states = states.push(*self);
                assert(judged_at(calls, states, asked, i as int, outcome));
                assert forall|k: int| 0 <= k < i implies #[trigger] judged_at(
                    calls,
                    states,
                    asked,
                    k,
                    Ok(known[k]),
                ) by {
                    assert(judged_at(calls, seen, asked, k, Ok(known[k])));
                }
            }
            match outcome {
                Ok(logits) => {
                    results.push(logits);
                },
                Err(e) => {
                    assert(judges_in_turn(calls, states, asked, known, Err(e)));
                    return Err(e);
                },
            }
            i = i + 1;
        }
        assert(judges_in_turn(calls, states, asked, results@, Ok(results)));
        Ok(results)
    }
}

/// Whether a call of `next_logits_batch` may leave a model so, with this result.
pub open spec fn given_batch<B: CausalLmBackend>(
    before: B,
    contexts: Seq<Seq<TokenId>>,
    after: B,
    r: Result<Vec<TokenLogits>, SpeculativeError>,
) -> bool {
    B::gives_together(before, contexts, after, r) || given_in_turn(
        |call: NextCall<B>| B::gives(call),
        before,
        contexts,
        after,
        r,
    )
}

/// Whether a call of `verify_logits_batch` may leave a model so, with this result.
pub open spec fn judged_batch<B: CausalLmBackend>(
    before: B,
    questions: Seq<(Seq<TokenId>, Seq<TokenId>)>,
    after: B,
    r: Result<Vec<Vec<TokenLogits>>, SpeculativeError>,
) -> bool {
    B::judges_together(before, questions, after, r) || judged_in_turn(
        |call: JudgeCall<B>| B::judges(call),
        before,
        questions,
        after,
        r,
    )
}

/// Picks the token with the highest logit.
#[derive(Debug, Clone, Copy, PartialEq, Eq, Structural)]
pub struct GreedySampler;

impl Default for GreedySampler {
    fn default() -> (s: Self)
        ensures
            s == GreedySampler,
    {
        GreedySampler
    }
}

/// Whether token `i` comes out on top of the first `n` logits: none comes after
/// it in the total order, and among equal ones it is the last.
pub open spec fn tops(logits: Seq<F32>, n: int, i: int) -> bool {
    &&& 0 <= i < n
    &&& forall|j: int|
        0 <= j < n ==> (#[trigger] logits[j]).total_rank() < logits[i].total_rank() || (
        logits[j].total_rank() == logits[i].total_rank() && j <= i)
}

/// The token on top, with its logit.
pub open spec fn top_choice(logits: Seq<F32>) -> NextTokenPrediction {
    let i = choose|i: int| tops(logits, logits.len() as int, i);
    NextTokenPrediction { token: i as usize as TokenId, confidence: logits[i] }
}

/// Exactly one token comes out on top.
pub proof fn top_is_unique(logits: Seq<F32>, n: int, a: int, b: int)
    requires
        n <= logits.len(),
        tops(logits, n, a),
        tops(logits, n, b),
    ensures
        a == b,
{
    let x = logits[a];
    let y = logits[b];
    assert(x.total_rank() <= y.total_rank());
    assert(y.total_rank() <= x.total_rank());
}

impl GreedySampler {
    pub fn sample(&self, logits: &TokenLogits) -> (p: NextTokenPrediction)
        ensures
            p == top_choice(logits@),
            exists|i: int| tops(logits@, logits@.len() as int, i),
    {
        let values: &[F32] = logits.values();
        let mut best: usize = 0;
        let mut i: usize = 1;
        while i < values.len()
            invariant
                1 <= i <= values@.len(),
                tops(values@, i as int, best as int),
            decreases values@.len() - i,
        {
            if values[i].total_ge(values[best]) {
                best = i;
            }
            i = i + 1;
        }
        proof {
            let n = values@.len() as int;
            assert(tops(values@, n, best as int));
            let k = choose|k: int| tops(values@, n, k);
            top_is_unique(values@, n, k, best as int);
        }
        NextTokenPrediction { token: best as TokenId, confidence: values[best] }
    }
}

/// Whether `p` is the greedy choice from `logits` under a mask that a matcher may
/// give where it has come to.
pub open spec fn is_masked_choice(
    logits: Seq<F32>,
    guide: Guidance,
    p: NextTokenPrediction,
) -> bool {
    exists|mask: LogitMask|
        guide.allows(mask) && p == #[trigger] crate::sampling::greedy_choice(logits, Some(&mask))
}

/// The greedy choice among the tokens that the matcher allows.
fn masked_choice<M: CfgMatcher>(logits: &TokenLogits, matcher: &mut M) -> (p: NextTokenPrediction)
    ensures
        final(matcher).guided() == old(matcher).guided(),
        is_masked_choice(logits@, old(matcher).guided(), p),
{
    let mask: LogitMask = matcher.next_mask();
    let p: NextTokenPrediction = crate::sampling::GreedySampler.sample(
        logits.values(),
        Some(&mask),
    );
    assert(p == crate::sampling::greedy_choice(logits@, Some(&mask)));
    p
}

/// Drafts with the most likely token at each position.
#[derive(Debug, Clone)]
pub struct GreedyDraftModel<B> {
    backend: B,
}

/// Expects the most likely token at each position.
#[derive(Debug, Clone)]
pub struct GreedyTargetModel<B> {
    backend: B,
}

impl<B> GreedyDraftModel<B> {
    /// The backend that the model asks.
    pub closed spec fn inner(&self) -> B {
        self.backend
    }

    pub fn new(backend: B) -> (model: Self)
        ensures
            model.inner() == backend,
    {
        GreedyDraftModel { backend }
    }

    pub fn backend(&self) -> (b: &B)
        ensures
            *b == self.inner(),
    {
        &self.backend
    }

    pub fn backend_mut(&mut self) -> (b: &mut B)
        ensures
            *b == old(self).inner(),
            final(self).inner() == *final(b),
    {
        &mut self.backend
    }
}

impl<B> GreedyTargetModel<B> {
    /// The backend that the model asks.
    pub closed spec fn inner(&self) -> B {
        self.backend
    }

    pub fn new(backend: B) -> (model: Self)
        ensures
            model.inner() == backend,
    {
        GreedyTargetModel { backend }
    }

    pub fn backend(&self) -> (b: &B)
        ensures
            *b == self.inner(),
    {
        &self.backend
    }

    pub fn backend_mut(&mut self) -> (b: &mut B)
        ensures
            *b == old(self).inner(),
            final(self).inner() == *final(b),
    {
        &mut self.backend
    }
}

/// Whether `p` is the greedy choice from `logits`: the top one, or under a
/// matcher the best of those that it allows.
pub open spec fn chosen(logits: Seq<F32>, guide: Option<Guidance>, p: NextTokenPrediction) -> bool {
    match guide {
        Some(g) => is_masked_choice(logits, g, p),
        None => p == top_choice(logits),
    }
}

/// How far a matcher, if there is one, has come after `tokens` more.
pub open spec fn fed_more(fed: Option<Guidance>, tokens: Seq<TokenId>) -> Option<Guidance> {
    match fed {
        Some(f) => Some(f.after(tokens)),
        None => None,
    }
}

/// Whether prediction `k` is the greedy choice from what the backend gave for
/// the context and the predictions before it.
pub open spec fn predicted_at<B: CausalLmBackend>(
    states: Seq<B>,
    context: Seq<TokenId>,
    fed: Option<Guidance>,
    logits: Seq<TokenLogits>,
    predictions: Seq<NextTokenPrediction>,
    k: int,
) -> bool {
    &&& next_given(
        states[k],
        context + speculative::tokens_of(predictions.take(k)),
        states[k + 1],
        Ok(logits[k]),
    )
    &&& chosen(
        logits[k]@,
        fed_more(fed, speculative::tokens_of(predictions.take(k))),
        predictions[k],
    )
}

/// Whether a backend may give this answer for a context.
pub open spec fn next_given<B: CausalLmBackend>(
    before: B,
    context: Seq<TokenId>,
    after: B,
    answer: Result<TokenLogits, SpeculativeError>,
) -> bool {
    B::gives(NextCall { before, context, after, answer })
}

/// Whether a draft came about through the given states and logits of the
/// backend: all predictions that were asked for, or those before its first
/// error. A matcher was advanced by the predictions.
pub open spec fn draft_steps<B: CausalLmBackend>(
    ask: DraftAsk,
    fed: Option<Guidance>,
    r: Result<Vec<NextTokenPrediction>, SpeculativeError>,
    states: Seq<B>,
    logits: Seq<TokenLogits>,
    predictions: Seq<NextTokenPrediction>,
) -> bool {
    let n = predictions.len() as int;
    &&& logits.len() == n
    &&& forall|k: int|
        0 <= k < n ==> #[trigger] predicted_at(
            states,
            ask.context,
            ask.fed,
            logits,
            predictions,
            k,
        )
    &&& fed == fed_more(ask.fed, speculative::tokens_of(predictions))
    &&& match r {
        Ok(p) => p@ == predictions && n == ask.max_tokens && states.len() == n + 1,
        Err(e) => n < ask.max_tokens && states.len() == n + 2 && next_given(
            states[n],
            ask.context + speculative::tokens_of(predictions),
            states[n + 1],
            Err(e),
        ),
    }
}

/// Whether a draft is the greedy one for what the backend gave.
pub open spec fn drafted_greedily<B: CausalLmBackend>(
    before: B,
    ask: DraftAsk,
    after: B,
    fed: Option<Guidance>,
    r: Result<Vec<NextTokenPrediction>, SpeculativeError>,
) -> bool {
    exists|states: Seq<B>, logits: Seq<TokenLogits>, predictions: Seq<NextTokenPrediction>|
        #[trigger] draft_steps(ask, fed, r, states, logits, predictions) && states[0] == before
            && states.last() == after
}

/// Which of the first `n` requests want a token at position `step`, in order.
pub open spec fn wanting(asks: Seq<DraftAsk>, step: nat, n: nat) -> Seq<usize>
    decreases n,
{
    if n == 0 {
        Seq::empty()
    } else {
        let rest = wanting(asks, step, (n - 1) as nat);
        if asks[n - 1].max_tokens > step {
            rest.push((n - 1) as usize)
        } else {
            rest
        }
    }
}

/// The contexts for position `step`: those of the requests that want a token
/// there, each with what was predicted for it before.
pub open spec fn contexts_at(
    asks: Seq<DraftAsk>,
    results: Seq<Seq<NextTokenPrediction>>,
    step: nat,
) -> Seq<Seq<TokenId>> {
    let who = wanting(asks, step, asks.len());
    Seq::new(
        who.len(),
        |a: int|
            asks[who[a] as int].context + speculative::tokens_of(
                results[who[a] as int].take(step as int),
            ),
    )
}

/// Whether the predictions at position `k` are the greedy choices from what the
/// backend gave for all requests that want one there.
pub open spec fn predicted_together_at<B: CausalLmBackend>(
    asks: Seq<DraftAsk>,
    results: Seq<Seq<NextTokenPrediction>>,
    states: Seq<B>,
    batches: Seq<Vec<TokenLogits>>,
    k: int,
) -> bool {
    let who = wanting(asks, k as nat, asks.len());
    &&& who.len() > 0
    &&& given_batch(
        states[k],
        contexts_at(asks, results, k as nat),
        states[k + 1],
        Ok(batches[k]),
    )
    &&& forall|a: int|
        0 <= a < who.len() ==> chosen(
            batches[k]@[a]@,
            fed_more(
                asks[#[trigger] who[a] as int].fed,
                speculative::tokens_of(results[who[a] as int].take(k)),
            ),
            results[who[a] as int][k],
        )
}

/// Whether the drafts of a batch came about through the given states and logits
/// of the backend, position by position: all predictions that were asked for, or
/// those before its first error. The matchers were advanced by the predictions.
pub open spec fn batch_steps<B: CausalLmBackend>(
    asks: Seq<DraftAsk>,
    left: Seq<DraftAsk>,
    r: Result<Vec<Vec<NextTokenPrediction>>, SpeculativeError>,
    states: Seq<B>,
    batches: Seq<Vec<TokenLogits>>,
    results: Seq<Seq<NextTokenPrediction>>,
) -> bool {
    let n = batches.len() as int;
    &&& results.len() == asks.len()
    &&& left.len() == asks.len()
    &&& forall|i: int|
        0 <= i < asks.len() ==> (#[trigger] results[i]).len() == speculative::paired(
            asks[i].max_tokens as nat,
            n as nat,
        ) && left[i] == (DraftAsk {
            fed: fed_more(asks[i].fed, speculative::tokens_of(results[i])),
            ..asks[i]
        })
    &&& forall|k: int|
        0 <= k < n ==> #[trigger] predicted_together_at(asks, results, states, batches, k)
    &&& match r {
        Ok(all) => {
            &&& states.len() == n + 1
            &&& all@.len() == asks.len()
            &&& forall|i: int|
                0 <= i < asks.len() ==> (#[trigger] all@[i])@ == results[i] && asks[i].max_tokens
                    <= n
        },
        Err(e) => {
            &&& states.len() == n + 2
            &&& wanting(asks, n as nat, asks.len()).len() > 0
            &&& given_batch(
                states[n],
                contexts_at(asks, results, n as nat),
                states[n + 1],
                Err(e),
            )
        },
    }
}

/// Whether the drafts of a batch are the greedy ones for what the backend gave.
pub open spec fn drafted_together<B: CausalLmBackend>(
    before: B,
    asks: Seq<DraftAsk>,
    after: B,
    left: Seq<DraftAsk>,
    r: Result<Vec<Vec<NextTokenPrediction>>, SpeculativeError>,
) -> bool {
    exists|
        states: Seq<B>,
        batches: Seq<Vec<TokenLogits>>,
        results: Seq<Seq<NextTokenPrediction>>,
    | #[trigger]
        batch_steps(asks, left, r, states, batches, results) && states[0] == before
            && states.last() == after
}

/// The requests that want a token at a position: each once, in order.
pub proof fn lemma_wanting(asks: Seq<DraftAsk>, step: nat, n: nat)
    requires
        n <= asks.len() <= usize::MAX,
    ensures
        ({
            let who = wanting(asks, step, n);
            &&& forall|a: int|
                0 <= a < who.len() ==> #[trigger] who[a] < n && asks[who[a] as int].max_tokens
                    > step
            &&& forall|a: int, b: int|
                0 <= a < b < who.len() ==> #[trigger] who[a] < #[trigger] who[b]
            &&& forall|i: int|
                0 <= i < n && (#[trigger] asks[i]).max_tokens > step ==> who.contains(i as usize)
        }),
    decreases n,
{
    if n > 0 {
        lemma_wanting(asks, step, (n - 1) as nat);
        let rest = wanting(asks, step, (n - 1) as nat);
        let who = wanting(asks, step, n);
        assert forall|i: int| 0 <= i < n && (#[trigger] asks[i]).max_tokens > step implies who.contains(
            i as usize,
        ) by {
            if i < n - 1 {
                let a = rest.index_of(i as usize);
                assert(who[a] == i as usize);
            } else {
                assert(who[rest.len() as int] == i as usize);
            }
        }
    }
}

/// What was predicted for the positions before stays so when predictions are
/// added.
proof fn lemma_predictions_stay<B: CausalLmBackend>(
    asks: Seq<DraftAsk>,
    before: Seq<Seq<NextTokenPrediction>>,
    after: Seq<Seq<NextTokenPrediction>>,
    states0: Seq<B>,
    states1: Seq<B>,
    batches0: Seq<Vec<TokenLogits>>,
    batches1: Seq<Vec<TokenLogits>>,
    k: int,
)
    requires
        asks.len() <= usize::MAX,
        before.len() == asks.len(),
        after.len() == asks.len(),
        forall|i: int|
            0 <= i < asks.len() ==> (#[trigger] before[i]).len() <= after[i].len() && after[i].take(
                before[i].len() as int,
            ) == before[i],
        forall|i: int|
            0 <= i < asks.len() && (#[trigger] asks[i]).max_tokens > k ==> before[i].len() > k,
        0 <= k,
        states0[k] == states1[k],
        states0[k + 1] == states1[k + 1],
        batches0[k] == batches1[k],
        predicted_together_at(asks, before, states0, batches0, k),
    ensures
        predicted_together_at(asks, after, states1, batches1, k),
{
    let who = wanting(asks, k as nat, asks.len());
    lemma_wanting(asks, k as nat, asks.len());
    assert forall|a: int| 0 <= a < who.len() implies {
        &&& after[#[trigger] who[a] as int].take(k) =~= before[who[a] as int].take(k)
        &&& after[who[a] as int][k] == before[who[a] as int][k]
    } by {
        let i = who[a] as int;
        assert(asks[i].max_tokens > k);
        assert(after[i].take(before[i].len() as int) == before[i]);
        assert(before[i][k] == after[i].take(before[i].len() as int)[k]);
        assert forall|j: int| 0 <= j < k implies after[i].take(k)[j] == before[i].take(k)[j] by {
            assert(before[i][j] == after[i].take(before[i].len() as int)[j]);
        }
    }
    assert(contexts_at(asks, after, k as nat) =~= contexts_at(asks, before, k as nat));
}

/// The predictions of a batch.
spec fn views_of(results: Seq<Vec<NextTokenPrediction>>) -> Seq<Seq<NextTokenPrediction>> {
    results.map_values(|v: Vec<NextTokenPrediction>| v@)
}

/// Whether `predictions` are what a request got so far: the context grew by
/// them, and its matcher, if there is one, was advanced by them.
spec fn served<M: CfgMatcher>(
    before: DraftRequest<M>,
    after: DraftRequest<M>,
    context: Seq<TokenId>,
    predictions: Seq<NextTokenPrediction>,
) -> bool {
    &&& after.context == before.context
    &&& after.max_tokens == before.max_tokens
    &&& speculative::fed_with(after.matcher) == fed_more(
        speculative::fed_with(before.matcher),
        speculative::tokens_of(predictions),
    )
    &&& context == before.context@ + speculative::tokens_of(predictions)
}

impl<B: CausalLmBackend> DraftModel for GreedyDraftModel<B> {
    open spec fn prefix_bound(
        before: Self,
        prefix: CacheLookup,
        after: Self,
        r: Result<(), SpeculativeError>,
    ) -> bool {
        B::prefix_bound(before.inner(), prefix, after.inner(), r)
    }

    open spec fn slot_bound(
        before: Self,
        slot: SlotId,
        after: Self,
        r: Result<(), SpeculativeError>,
    ) -> bool {
        B::slot_bound(before.inner(), slot, after.inner(), r)
    }

    open spec fn drafts(call: DraftCall<Self>) -> bool {
        drafted_greedily(
            call.before.inner(),
            call.ask,
            call.after.inner(),
            call.fed,
            call.answer,
        )
    }

    open spec fn drafts_together(
        before: Self,
        asks: Seq<DraftAsk>,
        after: Self,
        left: Seq<DraftAsk>,
        r: Result<Vec<Vec<NextTokenPrediction>>, SpeculativeError>,
    ) -> bool {
        drafted_together(before.inner(), asks, after.inner(), left, r)
    }

    fn bind_prefix_cache(&mut self, prefix: &CacheLookup) -> (r: Result<(), SpeculativeError>) {
        self.backend.bind_prefix_cache(prefix)
    }

    fn bind_slot(&mut self, slot: SlotId) -> (r: Result<(), SpeculativeError>) {
        self.backend.bind_slot(slot)
    }

    /// As many predictions as were asked for, each made on the context and the
    /// ones before it. A matcher is advanced by exactly the predicted tokens. An
    /// error of the backend ends the draft.
    #[verifier::loop_isolation(false)]
    fn draft<M: CfgMatcher>(
        &mut self,
        context: &[TokenId],
        max_tokens: usize,
        matcher: Option<&mut M>,
    ) -> (r: Result<Vec<NextTokenPrediction>, SpeculativeError>)
        ensures
            r is Ok ==> r->Ok_0@.len() == max_tokens,
            max_tokens == 0 ==> r is Ok,
            matcher is Some && r is Ok ==> final(matcher->0).guided()
                == old(matcher->0).guided().after(speculative::tokens_of(r->Ok_0@)),
    {
        let mut local_context: Vec<TokenId> = copied(context);
        let mut predictions: Vec<NextTokenPrediction> = Vec::with_capacity(max_tokens);
        let ghost ask = DraftAsk { context: context@, max_tokens, fed: speculative::handed(matcher) };
        let ghost constrained = matcher is Some;
        let mut matcher: Option<&mut M> = matcher;
        let ghost fed0 = (*matcher->0).guided();
        let ghost end = *final(matcher->0);
        let ghost mut states: Seq<B> = seq![self.backend];
        let ghost mut all_logits: Seq<TokenLogits> = Seq::empty();
        assert(fed0.tokens + speculative::tokens_of(predictions@) =~= fed0.tokens);
        assert(context@ + speculative::tokens_of(predictions@) =~= context@);
        let mut step: usize = 0;
        while step < max_tokens
            invariant
                step <= max_tokens,
                predictions@.len() == step,
                constrained == (matcher is Some),
                ask.fed == (if constrained {
                    Some(fed0)
                } else {
                    None
                }),
                matcher is Some ==> *final(matcher->0) == end,
                matcher is Some ==> (*matcher->0).guided() == fed0.after(
                    speculative::tokens_of(predictions@),
                ),
                local_context@ == context@ + speculative::tokens_of(predictions@),
                states.len() == step + 1,
                states[0] == old(self).inner(),
                states[step as int] == self.backend,
                all_logits.len() == step,
                forall|k: int|
                    0 <= k < step ==> #[trigger] predicted_at(
                        states,
                        context@,
                        ask.fed,
                        all_logits,
                        predictions@,
                        k,
                    ),
                ask == (DraftAsk { context: context@, max_tokens, fed: ask.fed }),
            decreases max_tokens - step,
        {
            let ghost before = predictions@;
            let ghost seen = states;
            let ghost known = all_logits;
            let outcome: Result<TokenLogits, SpeculativeError> = self.backend.next_logits(
                &local_context,
            );
            assert(next_given(seen[step as int], local_context@, self.backend, outcome));
            proof {
                states = states.push(self.backend);
            }
            let logits: TokenLogits = match outcome {
                Ok(l) => l,
                Err(e) => {
                    proof {
                        assert forall|k: int| 0 <= k < step implies #[trigger] predicted_at(
                            states,
                            context@,
                            ask.fed,
                            all_logits,
                            predictions@,
                            k,
                        ) by {
                            assert(predicted_at(seen, context@, ask.fed, known, before, k));
                        }
                        let left = fed_more(ask.fed, speculative::tokens_of(predictions@));
                        let r: Result<Vec<NextTokenPrediction>, SpeculativeError> = Err(e);
                        assert(draft_steps(
                            ask,
                            left,
                            r,
                            states,
                            all_logits,
                            predictions@,
                        ));
                    }
                    return Err(e);
                },
            };
            let prediction: NextTokenPrediction = match &mut matcher {
                Some(m) => {
                    let p: NextTokenPrediction = masked_choice(&logits, *m);
                    m.advance(p.token);
                    p
                },
                None => GreedySampler.sample(&logits),
            };
            local_context.push(prediction.token);
            predictions.push(prediction);
            step = step + 1;
            proof {
                all_logits = all_logits.push(logits);
                assert(speculative::tokens_of(predictions@) =~= speculative::tokens_of(before).push(
                    prediction.token,
                ));
                assert(fed0.tokens + speculative::tokens_of(predictions@) =~= (fed0.tokens
                    + speculative::tokens_of(before)) + seq![prediction.token]);
                assert(local_context@ =~= context@ + speculative::tokens_of(predictions@));
                assert forall|k: int| 0 <= k < step implies #[trigger] predicted_at(
                    states,
                    context@,
                    ask.fed,
                    all_logits,
                    predictions@,
                    k,
                ) by {
                    assert(predictions@.take(k) =~= before.take(k));
                    if k < step - 1 {
                        assert(predicted_at(seen, context@, ask.fed, known, before, k));
                    } else {
                        assert(before.take(k) =~= before);
                    }
                }
            }
        }
        proof {
            let left = fed_more(ask.fed, speculative::tokens_of(predictions@));
            assert(draft_steps(
                ask,
                left,
                Ok(predictions),
                states,
                all_logits,
                predictions@,
            ));
        }
        Ok(predictions)
    }

    /// As `draft`, with one call of the backend per position for all requests
    /// that still want tokens.
    fn draft_batch<M: CfgMatcher>(&mut self, requests: &mut Vec<DraftRequest<M>>) -> (r: Result<
        Vec<Vec<NextTokenPrediction>>,
        SpeculativeError,
    >)
        ensures
            Self::drafts_together(
                *old(self),
                speculative::draft_asks(old(requests)@),
                *final(self),
                speculative::draft_asks(final(requests)@),
                r,
            ),
    {
        let ghost before = requests@;
        let ghost asks = speculative::draft_asks(before);
        let n: usize = requests.len();
        let mut results: Vec<Vec<NextTokenPrediction>> = Vec::with_capacity(n);
        let mut contexts: Vec<Vec<TokenId>> = Vec::with_capacity(n);
        let mut max_steps: usize = 0;
        let ghost mut longest: int = 0;
        let mut i: usize = 0;
        while i < n
            invariant
                i <= n,
                n == requests@.len(),
                requests@ == before,
                results@.len() == i,
                contexts@.len() == i,
                forall|k: int|
                    0 <= k < i ==> (#[trigger] results@[k])@.len() == 0 && served(
                        before[k],
                        before[k],
                        contexts@[k]@,
                        results@[k]@,
                    ),
                forall|k: int| 0 <= k < i ==> (#[trigger] before[k]).max_tokens <= max_steps,
                max_steps > 0 ==> 0 <= longest < i && before[longest].max_tokens == max_steps,
            decreases n - i,
        {
            let context: Vec<TokenId> = copied(&requests[i].context);
            proof {
                let none: Seq<NextTokenPrediction> = Seq::empty();
                assert(speculative::tokens_of(none) =~= Seq::empty());
                assert(context@ + speculative::tokens_of(none) =~= context@);
                if before[i as int].matcher is Some {
                    let fed = before[i as int].matcher->0.guided().tokens;
                    assert(fed + speculative::tokens_of(none) =~= fed);
                }
                assert(served(before[i as int], before[i as int], context@, none));
            }
            contexts.push(context);
            results.push(Vec::new());
            assert(results@[i as int]@ =~= Seq::empty());
            if requests[i].max_tokens > max_steps {
                max_steps = requests[i].max_tokens;
                proof {
                    longest = i as int;
                }
            }
            i = i + 1;
        }
        let ghost mut states: Seq<B> = seq![self.backend];
        let ghost mut batches: Seq<Vec<TokenLogits>> = Seq::empty();
        let mut step: usize = 0;
        while step < max_steps
            invariant
                step <= max_steps,
                before == old(requests)@,
                asks == speculative::draft_asks(before),
                n == before.len(),
                requests@.len() == n,
                results@.len() == n,
                contexts@.len() == n,
                forall|k: int|
                    0 <= k < n ==> #[trigger] served(
                        before[k],
                        requests@[k],
                        contexts@[k]@,
                        results@[k]@,
                    ),
                forall|k: int| 0 <= k < n ==> (#[trigger] before[k]).max_tokens <= max_steps,
                max_steps > 0 ==> 0 <= longest < n && before[longest].max_tokens == max_steps,
                forall|k: int|
                    0 <= k < n ==> (#[trigger] results@[k])@.len() == speculative::paired(
                        before[k].max_tokens as nat,
                        step as nat,
                    ),
                states.len() == step + 1,
                states[0] == old(self).inner(),
                states[step as int] == self.backend,
                batches.len() == step,
                forall|k: int|
                    0 <= k < step ==> #[trigger] predicted_together_at(
                        asks,
                        views_of(results@),
                        states,
                        batches,
                        k,
                    ),
            decreases max_steps - step,
        {
            let ghost had = results@;
            let ghost seen = states;
            let ghost known = batches;
            let ghost who = wanting(asks, step as nat, n as nat);
            assert forall|k: int| 0 <= k < n implies (#[trigger] requests@[k]).max_tokens
                == asks[k].max_tokens by {
                assert(served(before[k], requests@[k], contexts@[k]@, results@[k]@));
            }
            let active: Vec<usize> = wanted_at(requests, &results, Ghost(asks), step);
            proof {
                lemma_wanting(asks, step as nat, n as nat);
                assert(asks[longest].max_tokens > step);
                assert(who.contains(longest as usize));
            }
            let outcome: Result<Vec<TokenLogits>, SpeculativeError> = {
                let mut views: Vec<&[TokenId]> = Vec::with_capacity(active.len());
                let mut a: usize = 0;
                while a < active.len()
                    invariant
                        a <= active@.len(),
                        active@ == who,
                        who == wanting(asks, step as nat, asks.len()),
                        n == before.len(),
                        asks == speculative::draft_asks(before),
                        contexts@.len() == n,
                        results@.len() == n,
                        requests@.len() == n,
                        forall|a: int|
                            0 <= a < who.len() ==> #[trigger] who[a] < n && asks[who[a] as int].max_tokens
                                > step,
                        forall|k: int|
                            0 <= k < n ==> #[trigger] served(
                                before[k],
                                requests@[k],
                                contexts@[k]@,
                                results@[k]@,
                            ),
                        forall|k: int|
                            0 <= k < n ==> (#[trigger] results@[k])@.len() == speculative::paired(
                                before[k].max_tokens as nat,
                                step as nat,
                            ),
                        views@.len() == a,
                        contexts_of(views@) == contexts_at(
                            asks,
                            views_of(results@),
                            step as nat,
                        ).take(a as int),
                    decreases active@.len() - a,
                {
                    let ghost so_far = views@;
                    let at: usize = active[a];
                    proof {
                        assert(who[a as int] == at);
                        assert(served(
                            before[at as int],
                            requests@[at as int],
                            contexts@[at as int]@,
                            results@[at as int]@,
                        ));
                        assert(results@[at as int]@.take(step as int) =~= results@[at as int]@);
                    }
                    views.push(contexts[at].as_slice());
                    assert(contexts_of(views@) =~= contexts_of(so_far).push(contexts@[at as int]@));
                    a = a + 1;
                    assert(contexts_of(views@) =~= contexts_at(
                        asks,
                        views_of(results@),
                        step as nat,
                    ).take(a as int));
                }
                assert(contexts_of(views@) =~= contexts_at(
                    asks,
                    views_of(results@),
                    step as nat,
                ));
                self.backend.next_logits_batch(&views)
            };
            assert(given_batch(
                seen[step as int],
                contexts_at(asks, views_of(had), step as nat),
                self.backend,
                outcome,
            ));
            proof {
                states = states.push(self.backend);
            }
            let batch: Vec<TokenLogits> = match outcome {
                Ok(l) => l,
                Err(e) => {
                    proof {
                        let left = speculative::draft_asks(requests@);
                        assert forall|k: int| 0 <= k < step implies #[trigger] predicted_together_at(
                            asks,
                            views_of(had),
                            states,
                            batches,
                            k,
                        ) by {
                            assert(predicted_together_at(asks, views_of(had), seen, known, k));
                        }
                        assert forall|k: int| 0 <= k < n implies (#[trigger] views_of(
                            had,
                        )[k]).len() == speculative::paired(
                            asks[k].max_tokens as nat,
                            step as nat,
                        ) && left[k] == (DraftAsk {
                            fed: fed_more(
                                asks[k].fed,
                                speculative::tokens_of(views_of(had)[k]),
                            ),
                            ..asks[k]
                        }) by {
                            assert(results@[k]@.len() == speculative::paired(
                                before[k].max_tokens as nat,
                                step as nat,
                            ));
                            assert(served(
                                before[k],
                                requests@[k],
                                contexts@[k]@,
                                results@[k]@,
                            ));
                        }
                        assert(batch_steps(
                            asks,
                            left,
                            Err(e),
                            states,
                            batches,
                            views_of(had),
                        ));
                        assert(drafted_together(
                            old(self).inner(),
                            asks,
                            self.backend,
                            left,
                            Err(e),
                        ));
                    }
                    return Err(e);
                },
            };
            let mut a: usize = 0;
            while a < active.len()
                invariant
                    a <= active@.len(),
                    active@ == who,
                    batch@.len() == who.len(),
                    n == before.len(),
                    asks == speculative::draft_asks(before),
                    requests@.len() == n,
                    results@.len() == n,
                    contexts@.len() == n,
                    had.len() == n,
                    forall|a: int|
                        0 <= a < who.len() ==> #[trigger] who[a] < n && asks[who[a] as int].max_tokens
                            > step,
                    forall|a: int, b: int|
                        0 <= a < b < who.len() ==> #[trigger] who[a] < #[trigger] who[b],
                    forall|k: int|
                        0 <= k < n ==> #[trigger] served(
                            before[k],
                            requests@[k],
                            contexts@[k]@,
                            results@[k]@,
                        ),
                    forall|k: int|
                        0 <= k < n ==> (#[trigger] had[k])@.len() == speculative::paired(
                            before[k].max_tokens as nat,
                            step as nat,
                        ),
                    forall|b: int|
                        0 <= b < a ==> ({
                            let k = #[trigger] who[b] as int;
                            &&& results@[k]@.len() == step + 1
                            &&& results@[k]@.take(step as int) == had[k]@
                            &&& chosen(
                                batch@[b]@,
                                fed_more(asks[k].fed, speculative::tokens_of(had[k]@)),
                                results@[k]@[step as int],
                            )
                        }),
                    forall|b: int|
                        a <= b < who.len() ==> results@[#[trigger] who[b] as int]@
                            == had[who[b] as int]@,
                    forall|k: int|
                        0 <= k < n && !who.contains(k as usize) ==> (#[trigger] results@[k])@
                            == had[k]@,
                decreases active@.len() - a,
            {
                let at: usize = active[a];
                let ghost requests0 = requests@;
                let ghost results0 = results@;
                let ghost contexts0 = contexts@;
                let ghost constrained = requests0[at as int].matcher is Some;
                proof {
                    assert(who[a as int] == at);
                    assert(served(
                        before[at as int],
                        requests0[at as int],
                        contexts0[at as int]@,
                        results0[at as int]@,
                    ));
                    assert(had[at as int]@.len() == step);
                }
                let prediction: NextTokenPrediction = match &mut requests[at].matcher {
                    Some(m) => {
                        let p: NextTokenPrediction = masked_choice(&batch[a], m);
                        m.advance(p.token);
                        p
                    },
                    None => GreedySampler.sample(&batch[a]),
                };
                contexts[at].push(prediction.token);
                results[at].push(prediction);
                proof {
                    let mine = results0[at as int]@;
                    let now = results@[at as int]@;
                    assert(now == mine.push(prediction));
                    assert(now.take(step as int) =~= mine);
                    assert(chosen(
                        batch@[a as int]@,
                        fed_more(asks[at as int].fed, speculative::tokens_of(mine)),
                        prediction,
                    ));
                    assert(speculative::tokens_of(now) =~= speculative::tokens_of(mine).push(
                        prediction.token,
                    ));
                    if constrained {
                        let f = before[at as int].matcher->0.guided().tokens;
                        assert(f + speculative::tokens_of(now) =~= (f + speculative::tokens_of(
                            mine,
                        )) + seq![prediction.token]);
                    }
                    assert(contexts@[at as int]@ =~= before[at as int].context@
                        + speculative::tokens_of(now));
                    assert(served(
                        before[at as int],
                        requests@[at as int],
                        contexts@[at as int]@,
                        now,
                    ));
                    assert forall|k: int| 0 <= k < n implies #[trigger] served(
                        before[k],
                        requests@[k],
                        contexts@[k]@,
                        results@[k]@,
                    ) by {
                        if k != at {
                            assert(served(
                                before[k],
                                requests0[k],
                                contexts0[k]@,
                                results0[k]@,
                            ));
                        }
                    }
                    assert forall|b: int| a < b < who.len() implies results@[#[trigger] who[b] as int]@
                        == had[who[b] as int]@ by {
                        assert(who[a as int] < who[b]);
                    }
                    assert forall|b: int| 0 <= b < a + 1 implies ({
                        let k = #[trigger] who[b] as int;
                        &&& results@[k]@.len() == step + 1
                        &&& results@[k]@.take(step as int) == had[k]@
                        &&& chosen(
                            batch@[b]@,
                            fed_more(asks[k].fed, speculative::tokens_of(had[k]@)),
                            results@[k]@[step as int],
                        )
                    }) by {
                        if b < a {
                            assert(who[b] < who[a as int]);
                        }
                    }
                }
                a = a + 1;
            }
            proof {
                batches = batches.push(batch);
                let old_views = views_of(had);
                let new_views = views_of(results@);
                assert forall|k: int| 0 <= k < n implies {
                    &&& (#[trigger] results@[k])@.len() == speculative::paired(
                        before[k].max_tokens as nat,
                        step as nat + 1,
                    )
                    &&& old_views[k].len() <= new_views[k].len()
                    &&& new_views[k].take(old_views[k].len() as int) == old_views[k]
                } by {
                    assert(had[k]@.len() == speculative::paired(
                        before[k].max_tokens as nat,
                        step as nat,
                    ));
                    if who.contains(k as usize) {
                        let b = who.index_of(k as usize);
                        assert(who[b] == k as usize);
                    } else {
                        assert(results@[k]@ == had[k]@);
                        assert(asks[k].max_tokens <= step);
                        assert(results@[k]@.take(had[k]@.len() as int) =~= had[k]@);
                    }
                }
                assert forall|i: int| 0 <= i < asks.len() implies (#[trigger] old_views[i]).len()
                    <= new_views[i].len() && new_views[i].take(old_views[i].len() as int)
                    == old_views[i] by {
                    assert(results@[i]@.len() == new_views[i].len());
                }
                assert forall|k: int| 0 <= k < step + 1 implies #[trigger] predicted_together_at(
                    asks,
                    new_views,
                    states,
                    batches,
                    k,
                ) by {
                    if k < step {
                        assert(predicted_together_at(asks, old_views, seen, known, k));
                        assert forall|i: int|
                            0 <= i < asks.len() && (#[trigger] asks[i]).max_tokens > k implies old_views[i].len()
                            > k by {
                            assert(had[i]@.len() == speculative::paired(
                                before[i].max_tokens as nat,
                                step as nat,
                            ));
                        }
                        lemma_predictions_stay(
                            asks,
                            old_views,
                            new_views,
                            seen,
                            states,
                            known,
                            batches,
                            k,
                        );
                    } else {
                        assert forall|a: int| 0 <= a < who.len() implies new_views[#[trigger] who[a] as int].take(
                            k,
                        ) =~= old_views[who[a] as int].take(k) by {
                            assert(had[who[a] as int]@.take(k) =~= had[who[a] as int]@);
                        }
                        assert(contexts_at(asks, new_views, k as nat) =~= contexts_at(
                            asks,
                            old_views,
                            k as nat,
                        ));
                        assert forall|a: int| 0 <= a < who.len() implies chosen(
                            batches[k]@[a]@,
                            fed_more(
                                asks[#[trigger] who[a] as int].fed,
                                speculative::tokens_of(new_views[who[a] as int].take(k)),
                            ),
                            new_views[who[a] as int][k],
                        ) by {
                            assert(results@[who[a] as int]@.len() == step + 1);
                        }
                    }
                }
            }
            step = step + 1;
        }
        proof {
            let left = speculative::draft_asks(requests@);
            let views = views_of(results@);
            assert forall|k: int| 0 <= k < n implies (#[trigger] views[k]).len()
                == speculative::paired(asks[k].max_tokens as nat, step as nat) && left[k] == (
            DraftAsk { fed: fed_more(asks[k].fed, speculative::tokens_of(views[k])), ..asks[k] })
                && asks[k].max_tokens <= step by {
                assert(results@[k]@.len() == speculative::paired(
                    before[k].max_tokens as nat,
                    step as nat,
                ));
                assert(served(before[k], requests@[k], contexts@[k]@, results@[k]@));
            }
            assert forall|i: int| 0 <= i < asks.len() implies (#[trigger] results@[i])@ == views[i]
                && asks[i].max_tokens <= step by {
                assert(views[i].len() == results@[i]@.len());
            }
            assert(batch_steps(asks, left, Ok(results), states, batches, views));
            assert(drafted_together(old(self).inner(), asks, self.backend, left, Ok(results)));
        }
        Ok(results)
    }
}

/// The requests that have fewer predictions than they want, in order. Each has
/// one for every position before `step`, unless it wants fewer.
fn wanted_at<M: CfgMatcher>(
    requests: &Vec<DraftRequest<M>>,
    results: &Vec<Vec<NextTokenPrediction>>,
    Ghost(asks): Ghost<Seq<DraftAsk>>,
    step: usize,
) -> (active: Vec<usize>)
    requires
        results@.len() == requests@.len(),
        asks.len() == requests@.len(),
        forall|k: int|
            0 <= k < requests@.len() ==> (#[trigger] requests@[k]).max_tokens == asks[k].max_tokens,
        forall|k: int|
            0 <= k < requests@.len() ==> (#[trigger] results@[k])@.len() == speculative::paired(
                asks[k].max_tokens as nat,
                step as nat,
            ),
    ensures
        active@ == wanting(asks, step as nat, asks.len()),
{
    let mut active: Vec<usize> = Vec::new();
    let mut i: usize = 0;
    while i < requests.len()
        invariant
            i <= requests@.len(),
            results@.len() == requests@.len(),
            asks.len() == requests@.len(),
            forall|k: int|
                0 <= k < requests@.len() ==> (#[trigger] requests@[k]).max_tokens
                    == asks[k].max_tokens,
            forall|k: int|
                0 <= k < requests@.len() ==> (#[trigger] results@[k])@.len()
                    == speculative::paired(asks[k].max_tokens as nat, step as nat),
            active@ == wanting(asks, step as nat, i as nat),
        decreases requests@.len() - i,
    {
        if results[i].len() < requests[i].max_tokens {
            active.push(i);
        }
        i = i + 1;
    }
    active
}

/// What a verdict feeds a matcher with: the expected tokens up to the first one
/// that was not drafted, and that one.
pub open spec fn heeded(drafted: Seq<TokenId>, expected: Seq<TokenId>) -> Seq<TokenId> {
    expected.take(
        speculative::paired(speculative::agreement(drafted, expected) + 1, expected.len()) as int,
    )
}

/// Whether `token` is the greedy choice from `logits`: the top one, or under a
/// matcher the best of the allowed ones.
pub open spec fn expects(logits: Seq<F32>, guide: Option<Guidance>, token: TokenId) -> bool {
    exists|p: NextTokenPrediction| #[trigger] chosen(logits, guide, p) && p.token == token
}

/// What guides the verdict on position `i`, where the draft agrees with the
/// verdict up to position `agreed`: a matcher, if there is one, that has come
/// over the expected tokens, as long as the draft agrees.
pub open spec fn guide_at(
    fed: Option<Guidance>,
    expected: Seq<TokenId>,
    agreed: int,
    i: int,
) -> Option<Guidance> {
    if i <= agreed {
        fed_more(fed, expected.take(i))
    } else {
        None
    }
}

/// Whether `steps` are the verdict on a draft for the given logits: the greedy
/// choice at each position, under a matcher among the allowed tokens as long as
/// the draft agrees.
pub open spec fn judged(
    logits: Seq<TokenLogits>,
    drafted: Seq<TokenId>,
    fed: Option<Guidance>,
    steps: Seq<VerifyStep>,
) -> bool {
    let expected = speculative::steps_of(steps);
    let agreed = speculative::agreement(drafted, expected);
    &&& steps.len() == logits.len()
    &&& forall|i: int|
        0 <= i < steps.len() ==> expects(
            logits[i]@,
            guide_at(fed, expected, agreed as int, i),
            (#[trigger] steps[i]).expected,
        )
}

/// Whether a backend may give this answer for a draft.
pub open spec fn verdict_given<B: CausalLmBackend>(
    before: B,
    context: Seq<TokenId>,
    drafted: Seq<TokenId>,
    after: B,
    answer: Result<Vec<TokenLogits>, SpeculativeError>,
) -> bool {
    B::judges(JudgeCall { before, context, drafted, after, answer })
}

/// Whether a verdict follows from what the backend gave: its error, or the
/// verdict for its logits.
pub open spec fn verdict_on(
    logits: Result<Vec<TokenLogits>, SpeculativeError>,
    ask: VerifyAsk,
    fed: Option<Guidance>,
    r: Result<Vec<VerifyStep>, SpeculativeError>,
) -> bool {
    match logits {
        Ok(l) => {
            &&& r is Ok
            &&& judged(l@, ask.drafted, ask.fed, r->Ok_0@)
            &&& fed == fed_more(ask.fed, heeded(ask.drafted, speculative::steps_of(r->Ok_0@)))
        },
        Err(e) => r == Err::<Vec<VerifyStep>, SpeculativeError>(e) && fed == ask.fed,
    }
}

/// The questions of a batch.
pub open spec fn questions_in(asks: Seq<VerifyAsk>) -> Seq<(Seq<TokenId>, Seq<TokenId>)> {
    asks.map_values(|a: VerifyAsk| (a.context, a.drafted))
}

/// Whether the verdicts on a batch follow from what the backend gave.
pub open spec fn verdicts_on(
    logits: Result<Vec<Vec<TokenLogits>>, SpeculativeError>,
    asks: Seq<VerifyAsk>,
    left: Seq<VerifyAsk>,
    r: Result<Vec<Vec<VerifyStep>>, SpeculativeError>,
) -> bool {
    match logits {
        Ok(all) => {
            &&& r is Ok
            &&& r->Ok_0@.len() == asks.len()
            &&& left.len() == asks.len()
            &&& all@.len() == asks.len()
            &&& forall|i: int|
                0 <= i < asks.len() ==> #[trigger] left[i] == (VerifyAsk {
                    fed: left[i].fed,
                    ..asks[i]
                }) && verdict_on(Ok(all@[i]), asks[i], left[i].fed, Ok(r->Ok_0@[i]))
        },
        Err(e) => r == Err::<Vec<Vec<VerifyStep>>, SpeculativeError>(e) && left == asks,
    }
}

/// Whether a verdict is the greedy one for what the backend gave.
pub open spec fn verified_greedily<B: CausalLmBackend>(
    before: B,
    ask: VerifyAsk,
    after: B,
    fed: Option<Guidance>,
    r: Result<Vec<VerifyStep>, SpeculativeError>,
) -> bool {
    exists|logits: Result<Vec<TokenLogits>, SpeculativeError>| #[trigger]
        verdict_given(before, ask.context, ask.drafted, after, logits) && verdict_on(
            logits,
            ask,
            fed,
            r,
        )
}

/// Whether the verdicts on a batch are the greedy ones for what the backend gave.
pub open spec fn verified_together<B: CausalLmBackend>(
    before: B,
    asks: Seq<VerifyAsk>,
    after: B,
    left: Seq<VerifyAsk>,
    r: Result<Vec<Vec<VerifyStep>>, SpeculativeError>,
) -> bool {
    exists|logits: Result<Vec<Vec<TokenLogits>>, SpeculativeError>| #[trigger]
        judged_batch(before, questions_in(asks), after, logits) && verdicts_on(
            logits,
            asks,
            left,
            r,
        )
}

impl<B: CausalLmBackend> TargetModel for GreedyTargetModel<B> {
    open spec fn prefix_bound(
        before: Self,
        prefix: CacheLookup,
        after: Self,
        r: Result<(), SpeculativeError>,
    ) -> bool {
        B::prefix_bound(before.inner(), prefix, after.inner(), r)
    }

    open spec fn slot_bound(
        before: Self,
        slot: SlotId,
        after: Self,
        r: Result<(), SpeculativeError>,
    ) -> bool {
        B::slot_bound(before.inner(), slot, after.inner(), r)
    }

    open spec fn verifies(call: VerifyCall<Self>) -> bool {
        verified_greedily(
            call.before.inner(),
            call.ask,
            call.after.inner(),
            call.fed,
            call.answer,
        )
    }

    open spec fn verifies_together(
        before: Self,
        asks: Seq<VerifyAsk>,
        after: Self,
        left: Seq<VerifyAsk>,
        r: Result<Vec<Vec<VerifyStep>>, SpeculativeError>,
    ) -> bool {
        verified_together(before.inner(), asks, after.inner(), left, r)
    }

    fn bind_prefix_cache(&mut self, prefix: &CacheLookup) -> (r: Result<(), SpeculativeError>) {
        self.backend.bind_prefix_cache(prefix)
    }

    fn bind_slot(&mut self, slot: SlotId) -> (r: Result<(), SpeculativeError>) {
        self.backend.bind_slot(slot)
    }

    /// The greedy choice at each position for which the backend gave logits. A
    /// matcher is advanced by what the round adds to the context: the agreeing
    /// tokens and the first correction.
    fn verify<M: CfgMatcher>(
        &mut self,
        context: &[TokenId],
        drafted: &[TokenId],
        matcher: Option<&mut M>,
    ) -> (r: Result<Vec<VerifyStep>, SpeculativeError>)
        ensures
            matcher is Some && r is Ok && r->Ok_0@.len() == drafted@.len()
                ==> final(matcher->0).guided() == old(matcher->0).guided().after(
                speculative::gained(drafted@, speculative::steps_of(r->Ok_0@)),
            ),
    {
        let logits: Result<Vec<TokenLogits>, SpeculativeError> = self.backend.verify_logits(
            context,
            drafted,
        );
        let ghost given = logits;
        let ghost ask = VerifyAsk {
            context: context@,
            drafted: drafted@,
            fed: speculative::handed(matcher),
        };
        let ghost left = if matcher is Some {
            Some(final(matcher->0).guided())
        } else {
            None
        };
        assert(verdict_given(
            old(self).inner(),
            ask.context,
            ask.drafted,
            self.backend,
            given,
        ));
        let r: Result<Vec<VerifyStep>, SpeculativeError> = match logits {
            Ok(l) => Ok(judge(&l, drafted, matcher)),
            Err(e) => Err(e),
        };
        assert(verdict_on(given, ask, left, r));
        assert(verified_greedily(old(self).inner(), ask, self.backend, left, r));
        r
    }

    /// As `verify`, with one call of the backend for all requests.
    fn verify_batch<M: CfgMatcher>(&mut self, requests: &mut Vec<VerifyRequest<M>>) -> (r: Result<
        Vec<Vec<VerifyStep>>,
        SpeculativeError,
    >)
        ensures
            Self::verifies_together(
                *old(self),
                speculative::verify_asks(old(requests)@),
                *final(self),
                speculative::verify_asks(final(requests)@),
                r,
            ),
    {
        let ghost asks = speculative::verify_asks(requests@);
        let outcome: Result<Vec<Vec<TokenLogits>>, SpeculativeError> = {
            let mut questions: Vec<(&[TokenId], &[TokenId])> = Vec::with_capacity(requests.len());
            let mut i: usize = 0;
            while i < requests.len()
                invariant
                    i <= requests@.len(),
                    asks == speculative::verify_asks(requests@),
                    questions_of(questions@) == questions_in(asks).take(i as int),
                    questions@.len() == i,
                decreases requests@.len() - i,
            {
                let ghost before = questions@;
                questions.push((requests[i].context.as_slice(), requests[i].drafted.as_slice()));
                assert(questions_of(questions@) =~= questions_of(before).push(
                    (requests@[i as int].context@, requests@[i as int].drafted@),
                ));
                i = i + 1;
                assert(questions_of(questions@) =~= questions_in(asks).take(i as int));
            }
            assert(questions_of(questions@) =~= questions_in(asks));
            self.backend.verify_logits_batch(&questions)
        };
        let ghost given = outcome;
        let ghost backend = self.backend;
        assert(judged_batch(old(self).inner(), questions_in(asks), backend, given));
        let all: Vec<Vec<TokenLogits>> = match outcome {
            Ok(l) => l,
            Err(e) => {
                return Err(e);
            },
        };
        let ghost before = requests@;
        let mut results: Vec<Vec<VerifyStep>> = Vec::with_capacity(all.len());
        let mut i: usize = 0;
        while i < all.len()
            invariant
                i <= all@.len(),
                all@.len() == before.len(),
                before == old(requests)@,
                asks == speculative::verify_asks(before),
                requests@.len() == before.len(),
                results@.len() == i,
                forall|k: int| i <= k < before.len() ==> requests@[k] == before[k],
                forall|k: int|
                    0 <= k < i ==> #[trigger] answers_request(
                        all@[k],
                        before[k],
                        requests@[k],
                        results@[k],
                    ),
            decreases all@.len() - i,
        {
            let ghost known = results@;
            let ghost so_far = requests@;
            let request = &mut requests[i];
            let steps: Vec<VerifyStep> = judge(
                &all[i],
                &request.drafted,
                request.matcher.as_mut(),
            );
            results.push(steps);
            assert forall|k: int| 0 <= k < i + 1 implies #[trigger] answers_request(
                all@[k],
                before[k],
                requests@[k],
                results@[k],
            ) by {
                if k < i {
                    assert(answers_request(all@[k], before[k], so_far[k], known[k]));
                }
            }
            i = i + 1;
        }
        proof {
            let left = speculative::verify_asks(requests@);
            assert forall|k: int| 0 <= k < asks.len() implies #[trigger] left[k] == (VerifyAsk {
                fed: left[k].fed,
                ..asks[k]
            }) && verdict_on(Ok(all@[k]), asks[k], left[k].fed, Ok(results@[k])) by {
                assert(answers_request(all@[k], before[k], requests@[k], results@[k]));
            }
            assert(verdicts_on(given, asks, left, Ok(results)));
            assert(judged_batch(old(self).inner(), questions_in(asks), self.backend, given));
            assert(verified_together(old(self).inner(), asks, self.backend, left, Ok(results)));
        }
        Ok(results)
    }
}

/// Whether `steps` answer a request: its context and draft are untouched, and
/// the verdict is the one for the given logits.
spec fn answers_request<M: CfgMatcher>(
    logits: Vec<TokenLogits>,
    before: VerifyRequest<M>,
    after: VerifyRequest<M>,
    steps: Vec<VerifyStep>,
) -> bool {
    &&& after.context == before.context
    &&& after.drafted == before.drafted
    &&& verdict_on(
        Ok(logits),
        (VerifyAsk {
            context: before.context@,
            drafted: before.drafted@,
            fed: speculative::fed_with(before.matcher),
        }),
        speculative::fed_with(after.matcher),
        Ok(steps),
    )
}

/// The expected token at each position. Without a matcher it is the top choice;
/// with one it is the best allowed token, as long as the draft agrees.
pub fn judge<M: CfgMatcher>(
    logits: &Vec<TokenLogits>,
    drafted: &[TokenId],
    matcher: Option<&mut M>,
) -> (steps: Vec<VerifyStep>)
    ensures
        judged(logits@, drafted@, speculative::handed(matcher), steps@),
        matcher is Some ==> final(matcher->0).guided() == old(matcher->0).guided().after(
            heeded(drafted@, speculative::steps_of(steps@)),
        ),
        steps@.len() == drafted@.len() ==> heeded(drafted@, speculative::steps_of(steps@))
            == speculative::gained(drafted@, speculative::steps_of(steps@)),
{
    let ghost constrained = matcher is Some;
    let ghost fed = speculative::handed(matcher);
    let mut matcher: Option<&mut M> = matcher;
    let ghost fed0 = (*matcher->0).guided();
    let ghost end = *final(matcher->0);
    let mut steps: Vec<VerifyStep> = Vec::with_capacity(logits.len());
    let mut agreeing: bool = true;
    let ghost mut miss: int = 0;
    let mut i: usize = 0;
    assert(fed0.tokens + speculative::steps_of(steps@).take(0) =~= fed0.tokens);
    while i < logits.len()
        invariant
            i <= logits@.len(),
            steps@.len() == i,
            constrained == (matcher is Some),
            fed == (if constrained {
                Some(fed0)
            } else {
                None
            }),
            constrained ==> *final(matcher->0) == end,
            forall|k: int|
                0 <= k < i ==> expects(
                    logits@[k]@,
                    guide_at(
                        fed,
                        speculative::steps_of(steps@),
                        if agreeing {
                            i as int
                        } else {
                            miss
                        },
                        k,
                    ),
                    (#[trigger] steps@[k]).expected,
                ),
            agreeing ==> i <= drafted@.len() && speculative::steps_of(steps@) == drafted@.take(
                i as int,
            ),
            !agreeing ==> 0 <= miss < i && miss <= drafted@.len() && speculative::steps_of(
                steps@,
            ).take(miss) == drafted@.take(miss),
            !agreeing && miss < drafted@.len() ==> drafted@[miss] != speculative::steps_of(
                steps@,
            )[miss],
            constrained ==> (*matcher->0).guided() == fed0.after(
                speculative::steps_of(steps@).take(
                    if agreeing {
                        i as int
                    } else {
                        miss + 1
                    },
                ),
            ),
        decreases logits@.len() - i,
    {
        let ghost before = steps@;
        let ghost was_agreeing = agreeing;
        let ghost was_missing = miss;
        let choice: NextTokenPrediction = match &mut matcher {
            Some(m) => {
                if agreeing {
                    let p: NextTokenPrediction = masked_choice(&logits[i], *m);
                    m.advance(p.token);
                    p
                } else {
                    GreedySampler.sample(&logits[i])
                }
            },
            None => GreedySampler.sample(&logits[i]),
        };
        let ghost guide = if agreeing {
            fed_more(fed, speculative::steps_of(before).take(i as int))
        } else {
            None
        };
        assert(chosen(logits@[i as int]@, guide, choice));
        let expected: TokenId = choice.token;
        steps.push(VerifyStep { expected });
        if agreeing && !(i < drafted.len() && drafted[i] == expected) {
            agreeing = false;
            proof {
                miss = i as int;
            }
        }
        proof {
            let s = speculative::steps_of(steps@);
            assert(s =~= speculative::steps_of(before).push(expected));
            if was_agreeing {
                assert(s.take(i as int + 1) =~= speculative::steps_of(before).take(i as int).push(expected));
                assert(fed0.tokens + s.take(i as int + 1) =~= (fed0.tokens + speculative::steps_of(
                    before,
                ).take(i as int)) + seq![expected]);
                assert(s.take(i as int) =~= drafted@.take(i as int));
                if agreeing {
                    assert(s =~= drafted@.take(i as int + 1));
                }
            } else {
                assert(s.take(miss + 1) =~= speculative::steps_of(before).take(miss + 1));
                assert(s.take(miss) =~= speculative::steps_of(before).take(miss));
            }
            let reached: int = if agreeing {
                i + 1
            } else {
                miss
            };
            assert forall|k: int| 0 <= k < i + 1 implies expects(
                logits@[k]@,
                guide_at(fed, s, reached, k),
                (#[trigger] steps@[k]).expected,
            ) by {
                assert(s.take(k) =~= speculative::steps_of(before).take(k));
                if k < i {
                    assert(expects(
                        logits@[k]@,
                        guide_at(
                            fed,
                            speculative::steps_of(before),
                            if was_agreeing {
                                i as int
                            } else {
                                was_missing
                            },
                            k,
                        ),
                        before[k].expected,
                    ));
                } else {
                    assert(chosen(logits@[k]@, guide_at(fed, s, reached, k), choice));
                }
            }
        }
        i = i + 1;
    }
    proof {
        let e = speculative::steps_of(steps@);
        let n: nat = if agreeing {
            i as nat
        } else {
            miss as nat
        };
        assert forall|k: int| 0 <= k < n implies drafted@[k] == #[trigger] e[k] by {
            assert(e.take(n as int)[k] == drafted@.take(n as int)[k]);
        }
        speculative::lemma_agreement(drafted@, e);
        let agreed = speculative::agreement(drafted@, e);
        assert(agreed == n) by {
            if agreed < n {
                assert(drafted@[agreed as int] == e[agreed as int]);
            }
            if n < agreed {
                assert(drafted@[n as int] == e[n as int]);
            }
        }
        if agreeing {
            assert(heeded(drafted@, e) =~= e.take(i as int));
        } else {
            assert(heeded(drafted@, e) =~= e.take(miss + 1));
        }
        if e.len() == drafted@.len() {
            assert(speculative::gained(drafted@, e) =~= heeded(drafted@, e));
        }
    }
    steps
}

/// A greedy draft model proposes as many tokens as it is asked for, so that a
/// generation with one ends with all tokens that were wanted, or with an error.
pub proof fn greedy_generations_are_complete<B: CausalLmBackend, T: TargetModel>(
    s: SessionModel,
    max: nat,
    draft0: GreedyDraftModel<B>,
    target0: T,
    draft1: GreedyDraftModel<B>,
    target1: T,
    out: SpeculativeOutput,
)
    requires
        speculative::generated_by(s, max, draft0, target0, draft1, target1, Ok(out)),
        s.stats == speculative::no_stats(),
        0 < s.draft_window <= s.max_window,
    ensures
        out.tokens@.len() == max,
{
    let r: Result<SpeculativeOutput, SpeculativeError> = Ok(out);
    let (drafters, targets, drafts, answers) = choose|
        drafters: Seq<GreedyDraftModel<B>>,
        targets: Seq<T>,
        drafts: Seq<Seq<TokenId>>,
        answers: Seq<Seq<TokenId>>,
    | #[trigger]
        speculative::ends_in(s, max, draft1, target1, r, drafters, targets, drafts, answers)
            && drafters[0] == draft0 && targets[0] == target0;
    let end = speculative::play(s, drafts, answers);
    speculative::generation_accounts_for_every_draft(s, max, drafts, answers);
    if end.context.len() - s.context.len() != max {
        let requested = speculative::next_request(s, max, end);
        let p = choose|p: Vec<NextTokenPrediction>|
            p@.len() == 0 && #[trigger] speculative::draft_asked(
                drafters.last(),
                end.context,
                requested,
                draft1,
                Ok(p),
            );
        let ask = DraftAsk { context: end.context, max_tokens: requested, fed: None };
        let fed: Option<Guidance> = None;
        assert(drafted_greedily(drafters.last().inner(), ask, draft1.inner(), fed, Ok(p)));
        assert(p@.len() == requested);
    }
    assert(end.context.len() == s.context.len() + out.tokens@.len());
}

/// A greedy draft model proposes as many tokens as it is asked for, in a batch
/// too.
pub proof fn greedy_drafts_are_complete<B: CausalLmBackend>(
    before: GreedyDraftModel<B>,
    asks: Seq<DraftAsk>,
    after: GreedyDraftModel<B>,
    left: Seq<DraftAsk>,
    drafts: Vec<Vec<NextTokenPrediction>>,
)
    requires
        speculative::drafted_batch(before, asks, after, left, Ok(drafts)),
    ensures
        drafts@.len() == asks.len(),
        forall|j: int|
            0 <= j < asks.len() ==> (#[trigger] drafts@[j])@.len() == asks[j].max_tokens,
{
    let r: Result<Vec<Vec<NextTokenPrediction>>, SpeculativeError> = Ok(drafts);
    if drafted_together(before.inner(), asks, after.inner(), left, r) {
        let (states, batches, results) = choose|
            states: Seq<B>,
            batches: Seq<Vec<TokenLogits>>,
            results: Seq<Seq<NextTokenPrediction>>,
        | #[trigger]
            batch_steps(asks, left, r, states, batches, results) && states[0] == before.inner()
                && states.last() == after.inner();
        assert forall|j: int| 0 <= j < asks.len() implies (#[trigger] drafts@[j])@.len()
            == asks[j].max_tokens by {
            assert(drafts@[j]@ == results[j]);
        }
    } else {
        let calls = |call: DraftCall<GreedyDraftModel<B>>| GreedyDraftModel::<B>::drafts(call);
        let (states, results) = choose|
            states: Seq<GreedyDraftModel<B>>,
            results: Seq<Vec<NextTokenPrediction>>,
        | #[trigger]
            speculative::drafts_in_turn(calls, states, asks, left, results, r) && states[0]
                == before && states.last() == after;
        assert forall|j: int| 0 <= j < asks.len() implies (#[trigger] drafts@[j])@.len()
            == asks[j].max_tokens by {
            assert(speculative::drafted_at(calls, states, asks, left, j, Ok(results[j])));
            let answer: Result<Vec<NextTokenPrediction>, SpeculativeError> = Ok(results[j]);
            assert(drafted_greedily(
                states[j].inner(),
                asks[j],
                states[j + 1].inner(),
                left[j].fed,
                answer,
            ));
        }
    }
}

/// With a greedy draft model, a batch ends with all tokens that its requests
/// wanted, or with an error.
pub proof fn greedy_batches_are_complete<R: MemoryRuntime, B: CausalLmBackend, T: TargetModel>(
    before: VeloEngine<R>,
    after: VeloEngine<R>,
    requests: Seq<BatchRequest>,
    draft0: GreedyDraftModel<B>,
    target0: T,
    draft1: GreedyDraftModel<B>,
    target1: T,
    outputs: Seq<EngineOutput>,
    i: int,
)
    requires
        engine::batch_delivered(
            before,
            after,
            requests,
            draft0,
            target0,
            draft1,
            target1,
            outputs,
        ),
        requests.len() <= usize::MAX,
        0 <= i < requests.len(),
        before.decodes().window() > 0,
    ensures
        outputs[i].tokens@.len() == requests[i].max_new_tokens,
{
    let holds = |draft: GreedyDraftModel<B>| true;
    assert forall|
        from: GreedyDraftModel<B>,
        asks: Seq<DraftAsk>,
        to: GreedyDraftModel<B>,
        left: Seq<DraftAsk>,
        drafts: Vec<Vec<NextTokenPrediction>>,
    | #[trigger]
        speculative::drafted_batch(from, asks, to, left, Ok(drafts)) && holds(from) implies holds(
        to,
    ) && forall|j: int|
        0 <= j < asks.len() && (#[trigger] asks[j]).max_tokens > 0 ==> drafts@[j]@.len() > 0 by {
        greedy_drafts_are_complete(from, asks, to, left, drafts);
    }
    engine::batches_are_complete(
        before,
        after,
        requests,
        draft0,
        target0,
        draft1,
        target1,
        outputs,
        holds,
        i,
    );
}

/// Of the logits that come last in the total order the last one is chosen.
pub proof fn the_last_of_the_highest_is_chosen(logits: Seq<F32>, i: int)
    requires
        0 <= i < logits.len() <= u32::MAX,
        forall|j: int|
            0 <= j < logits.len() ==> (#[trigger] logits[j]).total_rank()
                <= logits[i].total_rank(),
    ensures
        ({
            let c = top_choice(logits);
            &&& i <= c.token < logits.len()
            &&& c.confidence == logits[c.token as int]
            &&& c.confidence.total_rank() == logits[i].total_rank()
            &&& forall|j: int|
                c.token < j < logits.len() ==> (#[trigger] logits[j]).total_rank()
                    < c.confidence.total_rank()
        }),
{
    let n = logits.len() as int;
    let w = lemma_last_highest(logits, i, n);
    assert(tops(logits, n, w));
    let c = choose|k: int| tops(logits, n, k);
    top_is_unique(logits, n, w, c);
    assert(logits[w].total_rank() <= logits[i].total_rank());
}

proof fn lemma_last_highest(logits: Seq<F32>, i: int, n: int) -> (w: int)
    requires
        0 <= i < n <= logits.len(),
        forall|j: int| 0 <= j < n ==> (#[trigger] logits[j]).total_rank() <= logits[i].total_rank(),
    ensures
        i <= w < n,
        tops(logits, n, w),
    decreases n - i,
{
    if exists|j: int| i < j < n && (#[trigger] logits[j]).total_rank() == logits[i].total_rank() {
        let j = choose|j: int|
            i < j < n && (#[trigger] logits[j]).total_rank() == logits[i].total_rank();
        lemma_last_highest(logits, j, n)
    } else {
        assert forall|j: int| 0 <= j < n implies (#[trigger] logits[j]).total_rank()
            < logits[i].total_rank() || (logits[j].total_rank() == logits[i].total_rank() && j
            <= i) by {}
        i
    }
}

/// What a verdict feeds a matcher with is what the sequence gains by it.
pub proof fn matchers_are_fed_what_is_gained(drafted: Seq<TokenId>, expected: Seq<TokenId>)
    requires
        drafted.len() == expected.len(),
    ensures
        heeded(drafted, expected) == speculative::gained(drafted, expected),
{
    speculative::lemma_agreement(drafted, expected);
    let n = speculative::agreement(drafted, expected);
    let kept = drafted.take(n as int);
    assert(kept =~= expected.take(n as int));
    if n < drafted.len() {
        assert(kept.push(expected[n as int]) =~= expected.take(n as int + 1));
    }
    assert(heeded(drafted, expected) =~= speculative::gained(drafted, expected));
}

/// Whether a backend of which `holds` is true gives the logits of `f` for a context,
/// and `holds` stays true of it.
pub open spec fn gives_by<B: CausalLmBackend>(
    holds: spec_fn(B) -> bool,
    f: spec_fn(Seq<TokenId>) -> Seq<F32>,
) -> bool {
    forall|before: B, context: Seq<TokenId>, after: B, l: TokenLogits| #[trigger]
        next_given(before, context, after, Ok(l)) && holds(before) ==> holds(after) && l@ == f(
            context,
        )
}

/// Whether a backend of which `holds` is true answers a draft with the logits of `f`
/// for the context and what was drafted before each token, and `holds` stays true of
/// it.
pub open spec fn judges_by<B: CausalLmBackend>(
    holds: spec_fn(B) -> bool,
    f: spec_fn(Seq<TokenId>) -> Seq<F32>,
) -> bool {
    forall|
        before: B,
        context: Seq<TokenId>,
        drafted: Seq<TokenId>,
        after: B,
        l: Vec<TokenLogits>,
    | #[trigger]
        verdict_given(before, context, drafted, after, Ok(l)) && holds(before) ==> {
            &&& holds(after)
            &&& l@.len() == drafted.len()
            &&& forall|i: int|
                0 <= i < l@.len() ==> (#[trigger] l@[i])@ == f(context + drafted.take(i))
        }
}

/// Where the logits are a function of the context, a greedy draft is the greedy
/// continuation: each token is the top choice after the context and the tokens before
/// it.
pub proof fn greedy_drafts_continue_the_context<B: CausalLmBackend>(
    before: B,
    ask: DraftAsk,
    after: B,
    p: Vec<NextTokenPrediction>,
    holds: spec_fn(B) -> bool,
    f: spec_fn(Seq<TokenId>) -> Seq<F32>,
)
    requires
        drafted_greedily(before, ask, after, None, Ok(p)),
        ask.fed is None,
        holds(before),
        gives_by(holds, f),
    ensures
        p@.len() == ask.max_tokens,
        forall|k: int|
            0 <= k < p@.len() ==> #[trigger] p@[k] == top_choice(
                f(ask.context + speculative::tokens_of(p@.take(k))),
            ),
        holds(after),
{
    let (states, logits, predictions) = choose|
        states: Seq<B>,
        logits: Seq<TokenLogits>,
        predictions: Seq<NextTokenPrediction>,
    | #[trigger]
        draft_steps(ask, None, Ok(p), states, logits, predictions) && states[0] == before
            && states.last() == after;
    assert forall|k: int| 0 <= k <= predictions.len() implies holds(#[trigger] states[k]) by {
        lemma_holds_on(ask, p, states, logits, predictions, holds, f, k);
    }
    assert forall|k: int| 0 <= k < p@.len() implies #[trigger] p@[k] == top_choice(
        f(ask.context + speculative::tokens_of(p@.take(k))),
    ) by {
        assert(predicted_at(states, ask.context, ask.fed, logits, predictions, k));
        assert(holds(states[k]));
    }
    assert(states.last() == states[predictions.len() as int]);
}

proof fn lemma_holds_on<B: CausalLmBackend>(
    ask: DraftAsk,
    p: Vec<NextTokenPrediction>,
    states: Seq<B>,
    logits: Seq<TokenLogits>,
    predictions: Seq<NextTokenPrediction>,
    holds: spec_fn(B) -> bool,
    f: spec_fn(Seq<TokenId>) -> Seq<F32>,
    k: int,
)
    requires
        draft_steps(ask, None, Ok(p), states, logits, predictions),
        holds(states[0]),
        gives_by(holds, f),
        0 <= k <= predictions.len(),
    ensures
        holds(states[k]),
    decreases k,
{
    if k > 0 {
        lemma_holds_on(ask, p, states, logits, predictions, holds, f, k - 1);
        assert(predicted_at(states, ask.context, ask.fed, logits, predictions, k - 1));
        assert(next_given(
            states[k - 1],
            ask.context + speculative::tokens_of(predictions.take(k - 1)),
            states[k],
            Ok(logits[k - 1]),
        ));
    }
}

/// Where the logits are a function of the context, a greedy target model expects at each
/// place of a draft the top choice after the context and what was drafted before it.
pub proof fn greedy_targets_follow_their_backend<B: CausalLmBackend>(
    holds: spec_fn(B) -> bool,
    f: spec_fn(Seq<TokenId>) -> Seq<F32>,
)
    requires
        judges_by(holds, f),
    ensures
        speculative::follows(
            |t: GreedyTargetModel<B>| holds(t.inner()),
            |context: Seq<TokenId>| top_choice(f(context)).token,
        ),
{
    let on = |t: GreedyTargetModel<B>| holds(t.inner());
    let next = |context: Seq<TokenId>| top_choice(f(context)).token;
    assert forall|
        before: GreedyTargetModel<B>,
        context: Seq<TokenId>,
        drafted: Seq<TokenId>,
        after: GreedyTargetModel<B>,
        v: Vec<VerifyStep>,
    | #[trigger]
        speculative::verdict_asked(before, context, drafted, after, Ok(v)) && on(before) implies {
        &&& on(after)
        &&& v@.len() == drafted.len() ==> forall|i: int|
            0 <= i < drafted.len() ==> (#[trigger] v@[i]).expected == next(
                context + drafted.take(i),
            )
    } by {
        let ask = VerifyAsk { context, drafted, fed: None };
        let none: Option<Guidance> = None;
        let answer: Result<Vec<VerifyStep>, SpeculativeError> = Ok(v);
        assert(verified_greedily(before.inner(), ask, after.inner(), none, answer));
        let logits = choose|logits: Result<Vec<TokenLogits>, SpeculativeError>| #[trigger]
            verdict_given(
                before.inner(),
                ask.context,
                ask.drafted,
                after.inner(),
                logits,
            ) && verdict_on(logits, ask, none, answer);
        let l = logits->Ok_0;
        assert(logits == Ok::<Vec<TokenLogits>, SpeculativeError>(l));
        assert(verdict_given(before.inner(), context, drafted, after.inner(), Ok(l)));
        assert forall|i: int| 0 <= i < drafted.len() implies (#[trigger] v@[i]).expected == next(
            context + drafted.take(i),
        ) by {
            assert(l@[i]@ == f(context + drafted.take(i)));
        }
    }
}


/// A verdict goes by the grammar up to the first token on which the draft and the verdict
/// part, as if the matcher had been fed with the verdict so far; without a matcher every
/// token of it is the top choice.
pub proof fn verdicts_are_guided_while_drafts_agree(
    logits: Seq<TokenLogits>,
    drafted: Seq<TokenId>,
    fed: Option<Guidance>,
    steps: Seq<VerifyStep>,
    i: int,
)
    requires
        judged(logits, drafted, fed, steps),
        0 <= i < steps.len(),
    ensures
        fed is None ==> steps[i].expected == top_choice(logits[i]@).token,
        fed is Some && i <= drafted.len() && (forall|k: int|
            0 <= k < i ==> drafted[k] == (#[trigger] steps[k]).expected) ==> exists|
            p: NextTokenPrediction,
        | #[trigger]
            is_masked_choice(
                logits[i]@,
                fed->0.after(speculative::steps_of(steps).take(i)),
                p,
            ) && p.token == steps[i].expected,
{
    let e = speculative::steps_of(steps);
    let agreed = speculative::agreement(drafted, e);
    speculative::lemma_agreement(drafted, e);
    assert(expects(logits[i]@, guide_at(fed, e, agreed as int, i), steps[i].expected));
    let p = choose|p: NextTokenPrediction| #[trigger]
        chosen(logits[i]@, guide_at(fed, e, agreed as int, i), p) && p.token == steps[i].expected;
    if fed is Some && i <= drafted.len() && (forall|k: int|
        0 <= k < i ==> drafted[k] == (#[trigger] steps[k]).expected) {
        if agreed < i {
            assert(drafted[agreed as int] == steps[agreed as int].expected);
            assert(e[agreed as int] == steps[agreed as int].expected);
        }
        assert(is_masked_choice(logits[i]@, fed->0.after(e.take(i)), p));
    }
}
} // verus!
