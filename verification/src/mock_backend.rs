//! Mock backend for testing engine logic without a GPU.

use std::collections::BTreeMap;
use vstd::prelude::*;
use crate::backend;
use crate::backend::{
    CausalLmBackend, GreedyDraftModel, GreedyTargetModel, JudgeCall, NextCall, TokenLogits,
};
use crate::constraints::Guidance;
use crate::engine;
use crate::engine::{
    ActiveRequest, BatchRequest, EngineError, EngineOutput, Moment, VeloEngine,
};
use crate::radix_cache::{CacheLookup, TokenId};
use crate::runtime::MemoryRuntime;
use crate::scalar::{F32, ONE_BITS, ZERO_BITS};
use crate::slot_manager::SlotId;
use crate::speculative;
use crate::speculative::{
    DraftAsk, DraftCall, DraftModel, NextTokenPrediction, SessionModel, SpeculativeDecoder,
    SpeculativeError,
    SpeculativeOutput, SpeculativeStats, TargetModel, VerifyAsk, VerifyCall, VerifyStep,
};
use crate::text::text_with_number;

verus! {

broadcast use vstd::std_specs::btree::group_btree_axioms;

/// A backend that follows a script: at each position it is sure of one token.
#[derive(Debug, Clone)]
pub struct MockBackend {
    script: Vec<TokenId>,
    overrides: BTreeMap<usize, TokenId>,
    bound_prefixes: Vec<CacheLookup>,
    bound_slots: Vec<SlotId>,
}

/// A mock as seen from outside.
pub struct MockModel {
    pub script: Seq<TokenId>,
    pub overrides: Map<usize, TokenId>,
    pub bound_prefixes: Seq<CacheLookup>,
    pub bound_slots: Seq<SlotId>,
}

/// The token at `position`: an override where there is one, else the script's.
pub open spec fn scripted(m: MockModel, position: usize) -> Option<TokenId> {
    if m.overrides.contains_key(position) {
        Some(m.overrides[position])
    } else if position < m.script.len() {
        Some(m.script[position as int])
    } else {
        None
    }
}

/// The scripted token `k` places after a context of length `len`.
pub open spec fn scripted_after(m: MockModel, len: usize, k: int) -> Option<TokenId> {
    scripted(m, crate::speculative::plus(len, k as nat))
}

/// Logits that are one at `token`, the last token, and zero elsewhere.
pub open spec fn one_hot_logits(token: TokenId) -> Seq<F32> {
    Seq::new(
        (token + 1) as nat,
        |i: int|
            if i == token {
                F32 { bits: ONE_BITS }
            } else {
                F32 { bits: ZERO_BITS }
            },
    )
}

impl View for MockBackend {
    type V = MockModel;

    closed spec fn view(&self) -> MockModel {
        MockModel {
            script: self.script@,
            overrides: self.overrides@,
            bound_prefixes: self.bound_prefixes@,
            bound_slots: self.bound_slots@,
        }
    }
}

impl MockBackend {
    pub fn new(script: Vec<TokenId>) -> (mock: Self)
        ensures
            mock@ == (MockModel {
                script: script@,
                overrides: Map::empty(),
                bound_prefixes: Seq::empty(),
                bound_slots: Seq::empty(),
            }),
    {
        MockBackend {
            script,
            overrides: BTreeMap::new(),
            bound_prefixes: Vec::new(),
            bound_slots: Vec::new(),
        }
    }

    pub fn with_override(self, position: usize, token: TokenId) -> (mock: Self)
        ensures
            mock@ == (MockModel {
                overrides: self@.overrides.insert(position, token),
                ..self@
            }),
    {
        let mut mock = self;
        mock.overrides.insert(position, token);
        mock
    }

    pub fn bound_prefixes(&self) -> (p: &[CacheLookup])
        ensures
            p@ == self@.bound_prefixes,
    {
        self.bound_prefixes.as_slice()
    }

    pub fn token_at(&self, position: usize) -> (r: Result<TokenId, SpeculativeError>)
        ensures
            scripted(self@, position) is Some ==> r == Ok::<TokenId, SpeculativeError>(
                scripted(self@, position)->0,
            ),
            scripted(self@, position) is None ==> r is Err && r->Err_0 is Model
                && r->Err_0.text() == "mock backend has no token at position "@
                + crate::text::decimal(position as nat),
    {
        match self.overrides.get(&position) {
            Some(token) => {
                return Ok(*token);
            },
            None => {},
        }
        if position < self.script.len() {
            Ok(self.script[position])
        } else {
            let text: String = text_with_number(
                "mock backend has no token at position ",
                position as u64,
                "",
            );
            proof {
                reveal_strlit("");
                assert(text@ =~= "mock backend has no token at position "@
                    + crate::text::decimal(position as nat));
            }
            Err(SpeculativeError::Model(text))
        }
    }
}

/// Whether an error says that the script has no token at `position`.
pub open spec fn beyond_script(e: SpeculativeError, position: usize) -> bool {
    e is Model && e.text() == "mock backend has no token at position "@ + crate::text::decimal(
        position as nat,
    )
}

/// Whether a mock answers a draft so: with one-hot logits of the scripted tokens,
/// or with an error for the first position beyond the script.
pub open spec fn judges_by_script(
    m: MockModel,
    len: usize,
    count: nat,
    r: Result<Vec<TokenLogits>, SpeculativeError>,
) -> bool {
    match r {
        Ok(logits) => logits@.len() == count && forall|k: int|
            0 <= k < count ==> match #[trigger] scripted_after(m, len, k) {
                Some(t) => logits@[k]@ == one_hot_logits(t),
                None => false,
            },
        Err(e) => exists|k: int|
            0 <= k < count && #[trigger] scripted_after(m, len, k) is None && (forall|j: int|
                0 <= j < k ==> #[trigger] scripted_after(m, len, j) is Some) && beyond_script(
                e,
                speculative::plus(len, k as nat),
            ),
    }
}

impl CausalLmBackend for MockBackend {
    open spec fn prefix_bound(
        before: Self,
        prefix: CacheLookup,
        after: Self,
        r: Result<(), SpeculativeError>,
    ) -> bool {
        &&& r is Ok
        &&& after@ == (MockModel {
            bound_prefixes: before@.bound_prefixes.push(prefix),
            ..before@
        })
    }

    open spec fn slot_bound(
        before: Self,
        slot: SlotId,
        after: Self,
        r: Result<(), SpeculativeError>,
    ) -> bool {
        &&& r is Ok
        &&& after@ == (MockModel { bound_slots: before@.bound_slots.push(slot), ..before@ })
    }

    open spec fn gives(call: NextCall<Self>) -> bool {
        &&& call.after@ == call.before@
        &&& call.context.len() <= usize::MAX
        &&& match scripted(call.before@, call.context.len() as usize) {
            Some(t) => call.answer is Ok && call.answer->Ok_0@ == one_hot_logits(t),
            None => call.answer is Err && beyond_script(
                call.answer->Err_0,
                call.context.len() as usize,
            ),
        }
    }

    open spec fn judges(call: JudgeCall<Self>) -> bool {
        &&& call.after@ == call.before@
        &&& call.context.len() <= usize::MAX
        &&& judges_by_script(
            call.before@,
            call.context.len() as usize,
            call.drafted.len(),
            call.answer,
        )
    }

    /// Batches are answered one context after the other.
    open spec fn gives_together(
        before: Self,
        contexts: Seq<Seq<TokenId>>,
        after: Self,
        r: Result<Vec<TokenLogits>, SpeculativeError>,
    ) -> bool {
        false
    }

    /// Batches are answered one request after the other.
    open spec fn judges_together(
        before: Self,
        questions: Seq<(Seq<TokenId>, Seq<TokenId>)>,
        after: Self,
        r: Result<Vec<Vec<TokenLogits>>, SpeculativeError>,
    ) -> bool {
        false
    }

    fn bind_prefix_cache(&mut self, prefix: &CacheLookup) -> (r: Result<(), SpeculativeError>)
        ensures
            Self::prefix_bound(*old(self), *prefix, *final(self), r),
    {
        self.bound_prefixes.push(*prefix);
        Ok(())
    }

    fn bind_slot(&mut self, slot: SlotId) -> (r: Result<(), SpeculativeError>)
        ensures
            Self::slot_bound(*old(self), slot, *final(self), r),
    {
        self.bound_slots.push(slot);
        Ok(())
    }

    /// One-hot logits of the scripted token, or an error beyond the script.
    fn next_logits(&mut self, context: &[TokenId]) -> (r: Result<TokenLogits, SpeculativeError>) {
        match self.token_at(context.len()) {
            Ok(token) => one_hot(token),
            Err(e) => Err(e),
        }
    }

    /// One-hot logits of the scripted token at every drafted position, or an
    /// error as soon as one lies beyond the script.
    fn verify_logits(&mut self, context: &[TokenId], drafted: &[TokenId]) -> (r: Result<
        Vec<TokenLogits>,
        SpeculativeError,
    >) {
        let len: usize = context.len();
        let mut logits: Vec<TokenLogits> = Vec::with_capacity(drafted.len());
        let mut k: usize = 0;
        while k < drafted.len()
            invariant
                k <= drafted@.len(),
                self@ == old(self)@,
                logits@.len() == k,
                len == context@.len(),
                forall|j: int|
                    0 <= j < k ==> match #[trigger] scripted_after(old(self)@, len, j) {
                        Some(t) => logits@[j]@ == one_hot_logits(t),
                        None => false,
                    },
            decreases drafted@.len() - k,
        {
            let position: usize = len.saturating_add(k);
            assert(scripted_after(self@, len, k as int) == scripted(self@, position));
            match self.token_at(position) {
                Ok(token) => match one_hot(token) {
                    Ok(l) => {
                        logits.push(l);
                    },
                    Err(e) => {
                        return Err(e);
                    },
                },
                Err(e) => {
                    assert(scripted_after(self@, len, k as int) is None);
                    return Err(e);
                },
            }
            k = k + 1;
        }
        Ok(logits)
    }
}

fn one_hot(token: TokenId) -> (r: Result<TokenLogits, SpeculativeError>)
    ensures
        r is Ok,
        r->Ok_0@ == one_hot_logits(token),
{
    let mut logits: Vec<F32> = Vec::new();
    let mut i: u32 = 0;
    while i < token
        invariant
            i <= token,
            logits@ == one_hot_logits(token).take(i as int),
        decreases token - i,
    {
        logits.push(F32 { bits: ZERO_BITS });
        i = i + 1;
        assert(logits@ =~= one_hot_logits(token).take(i as int));
    }
    logits.push(F32 { bits: ONE_BITS });
    assert(logits@ =~= one_hot_logits(token));
    TokenLogits::new(logits)
}

/// Greedy sampling reads the scripted token back from its logits, with full
/// confidence.
pub proof fn greedy_sampling_follows_the_script(token: TokenId)
    ensures
        backend::top_choice(one_hot_logits(token)) == (NextTokenPrediction {
            token,
            confidence: F32 { bits: ONE_BITS },
        }),
{
    let logits = one_hot_logits(token);
    let n = logits.len() as int;
    assert(backend::tops(logits, n, token as int));
    let i = choose|i: int| backend::tops(logits, n, i);
    backend::top_is_unique(logits, n, i, token as int);
}

/// Whatever a draft model proposes, a generation whose target model follows a
/// script gives the tokens of that script, from the end of the prompt on.
pub proof fn scripted_targets_give_their_script<D: DraftModel>(
    s: SessionModel,
    max: nat,
    draft0: D,
    target0: GreedyTargetModel<MockBackend>,
    draft1: D,
    target1: GreedyTargetModel<MockBackend>,
    out: SpeculativeOutput,
)
    requires
        speculative::generated_by(s, max, draft0, target0, draft1, target1, Ok(out)),
    ensures
        forall|k: int|
            0 <= k < out.tokens@.len() ==> scripted(
                target0.inner()@,
                speculative::plus(0, (s.context.len() + k) as nat),
            ) == Some(#[trigger] out.tokens@[k]),
{
    let m = target0.inner()@;
    let holds = |t: GreedyTargetModel<MockBackend>| same_script(t.inner()@, m);
    let next0 = |context: Seq<TokenId>| token_or(m, context.len(), 0);
    let next1 = |context: Seq<TokenId>| token_or(m, context.len(), 1);
    lemma_follows_script(m, holds, next0, 0);
    lemma_follows_script(m, holds, next1, 1);
    speculative::generation_gives_the_target_models_tokens(
        s,
        max,
        draft0,
        target0,
        draft1,
        target1,
        out,
        holds,
        next0,
    );
    speculative::generation_gives_the_target_models_tokens(
        s,
        max,
        draft0,
        target0,
        draft1,
        target1,
        out,
        holds,
        next1,
    );
    assert forall|k: int| 0 <= k < out.tokens@.len() implies scripted(
        m,
        speculative::plus(0, (s.context.len() + k) as nat),
    ) == Some(#[trigger] out.tokens@[k]) by {
        let context = s.context + out.tokens@.take(k);
        assert(context.len() == s.context.len() + k);
        assert(out.tokens@[k] == next0(context));
        assert(out.tokens@[k] == next1(context));
    }
}

/// Whether two mocks follow the same script.
pub open spec fn same_script(a: MockModel, b: MockModel) -> bool {
    a.script == b.script && a.overrides == b.overrides
}

/// The scripted token at a position, or `other` beyond the script.
spec fn token_or(m: MockModel, position: nat, other: TokenId) -> TokenId {
    match scripted(m, speculative::plus(0, position)) {
        Some(t) => t,
        None => other,
    }
}

/// The verdict on logits that a mock gave is its script.
proof fn lemma_verdict_is_scripted(
    m: MockModel,
    other: TokenId,
    mock: MockModel,
    context: Seq<TokenId>,
    drafted: Seq<TokenId>,
    logits: Vec<TokenLogits>,
    steps: Seq<VerifyStep>,
    i: int,
)
    requires
        same_script(mock, m),
        context.len() <= usize::MAX,
        judges_by_script(mock, context.len() as usize, drafted.len(), Ok(logits)),
        backend::judged(logits@, drafted, None, steps),
        0 <= i < drafted.len(),
    ensures
        i < steps.len(),
        steps[i].expected == token_or(m, (context + drafted.take(i)).len(), other),
{
    let len = context.len() as usize;
    assert(speculative::plus(0, (context.len() + i) as nat) == speculative::plus(len, i as nat));
    let t = scripted_after(mock, len, i);
    assert(logits@[i]@ == one_hot_logits(t->0));
    greedy_sampling_follows_the_script(t->0);
    assert((context + drafted.take(i)).len() == context.len() + i);
    assert(backend::expects(logits@[i]@, None, steps[i].expected));
}

proof fn lemma_follows_script(
    m: MockModel,
    holds: spec_fn(GreedyTargetModel<MockBackend>) -> bool,
    next: spec_fn(Seq<TokenId>) -> TokenId,
    other: TokenId,
)
    requires
        holds == (|t: GreedyTargetModel<MockBackend>| same_script(t.inner()@, m)),
        next == (|context: Seq<TokenId>| token_or(m, context.len(), other)),
    ensures
        speculative::follows(holds, next),
{
    assert forall|
        before: GreedyTargetModel<MockBackend>,
        context: Seq<TokenId>,
        drafted: Seq<TokenId>,
        after: GreedyTargetModel<MockBackend>,
        v: Vec<VerifyStep>,
    | #[trigger]
        speculative::verdict_asked(before, context, drafted, after, Ok(v)) && holds(
            before,
        ) implies holds(after) && (v@.len() == drafted.len() ==> forall|i: int|
        0 <= i < drafted.len() ==> (#[trigger] v@[i]).expected == next(
            context + drafted.take(i),
        )) by {
        let r: Result<Vec<VerifyStep>, SpeculativeError> = Ok(v);
        let ask = speculative::VerifyAsk { context, drafted, fed: None };
        let fed: Option<Guidance> = None;
        assert(backend::verified_greedily(before.inner(), ask, after.inner(), fed, r));
        let logits = choose|logits: Result<Vec<TokenLogits>, SpeculativeError>| #[trigger]
            backend::verdict_given(before.inner(), context, drafted, after.inner(), logits)
                && backend::verdict_on(logits, ask, fed, r);
        assert forall|i: int| 0 <= i < drafted.len() implies (#[trigger] v@[i]).expected == next(
            context + drafted.take(i),
        ) by {
            lemma_verdict_is_scripted(
                m,
                other,
                before.inner()@,
                context,
                drafted,
                logits->Ok_0,
                v@,
                i,
            );
        }
    }
}

proof fn lemma_follows_script_in_batches(
    m: MockModel,
    holds: spec_fn(GreedyTargetModel<MockBackend>) -> bool,
    next: spec_fn(Seq<TokenId>) -> TokenId,
    other: TokenId,
)
    requires
        holds == (|t: GreedyTargetModel<MockBackend>| same_script(t.inner()@, m)),
        next == (|context: Seq<TokenId>| token_or(m, context.len(), other)),
    ensures
        engine::follows_in_batches(holds, next),
        engine::kept_when_bound(holds),
{
    assert forall|
        before: GreedyTargetModel<MockBackend>,
        asks: Seq<VerifyAsk>,
        after: GreedyTargetModel<MockBackend>,
        left: Seq<VerifyAsk>,
        v: Vec<Vec<VerifyStep>>,
    | #[trigger]
        speculative::verified_batch(before, asks, after, left, Ok(v)) && holds(
            before,
        ) implies holds(after) && forall|j: int|
        0 <= j < asks.len() && (#[trigger] asks[j]).fed is None ==> left[j].fed is None
            && engine::answers_as(asks[j], v@[j]@, next) by {
        if backend::verified_together(before.inner(), asks, after.inner(), left, Ok(v)) {
            lemma_batch_follows_script(m, before, asks, after, left, v, next, other);
        } else {
            lemma_turns_follow_script(m, before, asks, after, left, v, holds, next, other);
        }
    }
}

proof fn lemma_batch_follows_script(
    m: MockModel,
    before: GreedyTargetModel<MockBackend>,
    asks: Seq<VerifyAsk>,
    after: GreedyTargetModel<MockBackend>,
    left: Seq<VerifyAsk>,
    v: Vec<Vec<VerifyStep>>,
    next: spec_fn(Seq<TokenId>) -> TokenId,
    other: TokenId,
)
    requires
        same_script(before.inner()@, m),
        backend::verified_together(before.inner(), asks, after.inner(), left, Ok(v)),
        next == (|context: Seq<TokenId>| token_or(m, context.len(), other)),
    ensures
        same_script(after.inner()@, m),
        forall|j: int|
            0 <= j < asks.len() && (#[trigger] asks[j]).fed is None ==> left[j].fed is None
                && engine::answers_as(asks[j], v@[j]@, next),
{
    let r: Result<Vec<Vec<VerifyStep>>, SpeculativeError> = Ok(v);
    let questions = backend::questions_in(asks);
    let logits = choose|logits: Result<Vec<Vec<TokenLogits>>, SpeculativeError>| #[trigger]
        backend::judged_batch(before.inner(), questions, after.inner(), logits)
            && backend::verdicts_on(logits, asks, left, r);
    let calls = |call: JudgeCall<MockBackend>| MockBackend::judges(call);
    let (states, results) = choose|states: Seq<MockBackend>, results: Seq<Vec<TokenLogits>>|
        #[trigger] backend::judges_in_turn(calls, states, questions, results, logits) && states[0]
            == before.inner() && states.last() == after.inner();
    lemma_mock_stays(calls, states, questions, results, asks.len() as int);
    assert forall|j: int| 0 <= j < asks.len() && (
    #[trigger] asks[j]).fed is None implies left[j].fed is None && engine::answers_as(
        asks[j],
        v@[j]@,
        next,
    ) by {
        assert(left[j] == (VerifyAsk { fed: left[j].fed, ..asks[j] }));
        lemma_mock_stays(calls, states, questions, results, j);
        assert(backend::judged_at(calls, states, questions, j, Ok(results[j])));
        if v@[j]@.len() == asks[j].drafted.len() {
            assert forall|i: int| 0 <= i < v@[j]@.len() implies (
            #[trigger] v@[j]@[i]).expected == next(asks[j].context + asks[j].drafted.take(i)) by {
                lemma_verdict_is_scripted(
                    m,
                    other,
                    states[j]@,
                    asks[j].context,
                    asks[j].drafted,
                    results[j],
                    v@[j]@,
                    i,
                );
            }
        }
    }
}

proof fn lemma_mock_stays(
    calls: spec_fn(JudgeCall<MockBackend>) -> bool,
    states: Seq<MockBackend>,
    questions: Seq<(Seq<TokenId>, Seq<TokenId>)>,
    results: Seq<Vec<TokenLogits>>,
    n: int,
)
    requires
        calls == (|call: JudgeCall<MockBackend>| MockBackend::judges(call)),
        0 <= n <= results.len(),
        forall|k: int|
            0 <= k < results.len() ==> #[trigger] backend::judged_at(
                calls,
                states,
                questions,
                k,
                Ok(results[k]),
            ),
    ensures
        states[n]@ == states[0]@,
    decreases n,
{
    if n > 0 {
        lemma_mock_stays(calls, states, questions, results, n - 1);
        assert(backend::judged_at(calls, states, questions, n - 1, Ok(results[n - 1])));
    }
}

proof fn lemma_turns_follow_script(
    m: MockModel,
    before: GreedyTargetModel<MockBackend>,
    asks: Seq<VerifyAsk>,
    after: GreedyTargetModel<MockBackend>,
    left: Seq<VerifyAsk>,
    v: Vec<Vec<VerifyStep>>,
    holds: spec_fn(GreedyTargetModel<MockBackend>) -> bool,
    next: spec_fn(Seq<TokenId>) -> TokenId,
    other: TokenId,
)
    requires
        same_script(before.inner()@, m),
        speculative::verified_in_turn(
            |call: VerifyCall<GreedyTargetModel<MockBackend>>|
                GreedyTargetModel::<MockBackend>::verifies(call),
            before,
            asks,
            after,
            left,
            Ok(v),
        ),
        holds == (|t: GreedyTargetModel<MockBackend>| same_script(t.inner()@, m)),
        next == (|context: Seq<TokenId>| token_or(m, context.len(), other)),
    ensures
        same_script(after.inner()@, m),
        forall|j: int|
            0 <= j < asks.len() && (#[trigger] asks[j]).fed is None ==> left[j].fed is None
                && engine::answers_as(asks[j], v@[j]@, next),
{
    let calls = |call: VerifyCall<GreedyTargetModel<MockBackend>>|
        GreedyTargetModel::<MockBackend>::verifies(call);
    let r: Result<Vec<Vec<VerifyStep>>, SpeculativeError> = Ok(v);
    let (states, results) = choose|
        states: Seq<GreedyTargetModel<MockBackend>>,
        results: Seq<Vec<VerifyStep>>,
    | #[trigger]
        speculative::verifies_in_turn(calls, states, asks, left, results, r) && states[0] == before
            && states.last() == after;
    lemma_turns_keep_script(m, calls, states, asks, left, results, asks.len() as int);
    assert forall|j: int| 0 <= j < asks.len() && (
    #[trigger] asks[j]).fed is None implies left[j].fed is None && engine::answers_as(
        asks[j],
        v@[j]@,
        next,
    ) by {
        lemma_turns_keep_script(m, calls, states, asks, left, results, j);
        assert(speculative::verified_at(calls, states, asks, left, j, Ok(results[j])));
        let answer: Result<Vec<VerifyStep>, SpeculativeError> = Ok(results[j]);
        let a = states[j].inner();
        let b = states[j + 1].inner();
        assert(backend::verified_greedily(a, asks[j], b, left[j].fed, answer));
        let logits = choose|logits: Result<Vec<TokenLogits>, SpeculativeError>| #[trigger]
            backend::verdict_given(a, asks[j].context, asks[j].drafted, b, logits)
                && backend::verdict_on(logits, asks[j], left[j].fed, answer);
        if v@[j]@.len() == asks[j].drafted.len() {
            assert forall|i: int| 0 <= i < v@[j]@.len() implies (
            #[trigger] v@[j]@[i]).expected == next(asks[j].context + asks[j].drafted.take(i)) by {
                lemma_verdict_is_scripted(
                    m,
                    other,
                    a@,
                    asks[j].context,
                    asks[j].drafted,
                    logits->Ok_0,
                    v@[j]@,
                    i,
                );
            }
        }
    }
}

proof fn lemma_turns_keep_script(
    m: MockModel,
    calls: spec_fn(VerifyCall<GreedyTargetModel<MockBackend>>) -> bool,
    states: Seq<GreedyTargetModel<MockBackend>>,
    asks: Seq<VerifyAsk>,
    left: Seq<VerifyAsk>,
    results: Seq<Vec<VerifyStep>>,
    n: int,
)
    requires
        calls == (|call: VerifyCall<GreedyTargetModel<MockBackend>>|
            GreedyTargetModel::<MockBackend>::verifies(call)),
        same_script(states[0].inner()@, m),
        0 <= n <= results.len(),
        forall|k: int|
            0 <= k < results.len() ==> #[trigger] speculative::verified_at(
                calls,
                states,
                asks,
                left,
                k,
                Ok(results[k]),
            ),
    ensures
        same_script(states[n].inner()@, m),
    decreases n,
{
    if n > 0 {
        lemma_turns_keep_script(m, calls, states, asks, left, results, n - 1);
        assert(speculative::verified_at(calls, states, asks, left, n - 1, Ok(results[n - 1])));
        let answer: Result<Vec<VerifyStep>, SpeculativeError> = Ok(results[n - 1]);
        let a = states[n - 1].inner();
        let b = states[n].inner();
        let ask = asks[n - 1];
        assert(backend::verified_greedily(a, ask, b, left[n - 1].fed, answer));
        let logits = choose|logits: Result<Vec<TokenLogits>, SpeculativeError>| #[trigger]
            backend::verdict_given(a, ask.context, ask.drafted, b, logits) && backend::verdict_on(
                logits,
                ask,
                left[n - 1].fed,
                answer,
            );
        assert(b@ == a@);
    }
}

/// Whatever a draft model proposes, and whatever else is in a batch, a target
/// model that follows a script gives an unconstrained request the tokens of that
/// script, from the end of its prompt on.
pub proof fn scripted_targets_give_batches_their_script<R: MemoryRuntime, D: DraftModel>(
    before: VeloEngine<R>,
    after: VeloEngine<R>,
    requests: Seq<BatchRequest>,
    draft0: D,
    target0: GreedyTargetModel<MockBackend>,
    draft1: D,
    target1: GreedyTargetModel<MockBackend>,
    outputs: Seq<EngineOutput>,
    i: int,
)
    requires
        engine::batch_delivered(
            before,
            after,
            requests,
            draft0,
            target0,
            draft1,
            target1,
            outputs,
        ),
        requests.len() <= usize::MAX,
        0 <= i < requests.len(),
        requests[i].constraint is None,
    ensures
        forall|k: int|
            0 <= k < outputs[i].tokens@.len() ==> scripted(
                target0.inner()@,
                speculative::plus(0, (requests[i].prompt@.len() + k) as nat),
            ) == Some(#[trigger] outputs[i].tokens@[k]),
{
    let m = target0.inner()@;
    let holds = |t: GreedyTargetModel<MockBackend>| same_script(t.inner()@, m);
    let next0 = |context: Seq<TokenId>| token_or(m, context.len(), 0);
    let next1 = |context: Seq<TokenId>| token_or(m, context.len(), 1);
    lemma_follows_script_in_batches(m, holds, next0, 0);
    lemma_follows_script_in_batches(m, holds, next1, 1);
    engine::batches_give_the_target_models_tokens(
        before,
        after,
        requests,
        draft0,
        target0,
        draft1,
        target1,
        outputs,
        holds,
        next0,
        i,
    );
    engine::batches_give_the_target_models_tokens(
        before,
        after,
        requests,
        draft0,
        target0,
        draft1,
        target1,
        outputs,
        holds,
        next1,
        i,
    );
    assert forall|k: int| 0 <= k < outputs[i].tokens@.len() implies scripted(
        m,
        speculative::plus(0, (requests[i].prompt@.len() + k) as nat),
    ) == Some(#[trigger] outputs[i].tokens@[k]) by {
        let context = requests[i].prompt@ + outputs[i].tokens@.take(k);
        assert(context.len() == requests[i].prompt@.len() + k);
        assert(outputs[i].tokens@[k] == next0(context));
        assert(outputs[i].tokens@[k] == next1(context));
    }
}

/// The script from position `start` on.
pub open spec fn script_from(m: MockModel, start: nat, len: nat) -> Seq<TokenId> {
    Seq::new(len, |i: int| scripted(m, (start + i) as usize)->0)
}

/// Whether the script has a token at each of `len` positions from `start` on.
pub open spec fn covers(m: MockModel, start: nat, len: nat) -> bool {
    &&& start + len <= usize::MAX
    &&& forall|p: int|
        start <= p < start + len ==> (#[trigger] scripted(m, p as usize)) is Some
}

/// How many rounds it takes to get `wanted` tokens when every draft is accepted:
/// each asks for the draft window, or what is still wanted, and the window grows
/// by one after each round, up to its limit.
pub open spec fn rounds_needed(window: usize, limit: usize, wanted: nat) -> nat
    decreases wanted,
{
    if wanted == 0 || window == 0 {
        0
    } else {
        let got = speculative::paired(wanted, window as nat);
        1 + rounds_needed(
            speculative::adjusted(window, limit, got, got),
            limit,
            (wanted - got) as nat,
        )
    }
}

/// The counts of a generation of `count` tokens in which every draft was accepted.
pub open spec fn all_accepted(rounds: nat, count: nat) -> SpeculativeStats {
    SpeculativeStats {
        draft_calls: rounds as usize,
        target_calls: rounds as usize,
        drafted_tokens: count as usize,
        accepted_tokens: count as usize,
        rejected_tokens: 0,
    }
}

proof fn lemma_predictions_are_scripted(
    m: MockModel,
    states: Seq<MockBackend>,
    context: Seq<TokenId>,
    logits: Seq<TokenLogits>,
    predictions: Seq<NextTokenPrediction>,
    n: int,
)
    requires
        same_script(states[0]@, m),
        0 <= n <= predictions.len(),
        forall|k: int|
            0 <= k < predictions.len() ==> #[trigger] backend::predicted_at(
                states,
                context,
                None,
                logits,
                predictions,
                k,
            ),
    ensures
        same_script(states[n]@, m),
        forall|k: int|
            0 <= k < n ==> scripted(m, (context.len() + k) as usize) == Some(
                (#[trigger] predictions[k]).token,
            ),
    decreases n,
{
    if n > 0 {
        lemma_predictions_are_scripted(m, states, context, logits, predictions, n - 1);
        let k = n - 1;
        assert(backend::predicted_at(states, context, None, logits, predictions, k));
        let so_far = context + speculative::tokens_of(predictions.take(k));
        assert(so_far.len() == context.len() + k);
        let t = scripted(states[k]@, so_far.len() as usize)->0;
        greedy_sampling_follows_the_script(t);
    }
}

/// A mock drafts the script, as far as it goes.
proof fn lemma_mock_drafts_its_script(
    m: MockModel,
    before: GreedyDraftModel<MockBackend>,
    context: Seq<TokenId>,
    requested: usize,
    after: GreedyDraftModel<MockBackend>,
    r: Result<Vec<NextTokenPrediction>, SpeculativeError>,
)
    requires
        same_script(before.inner()@, m),
        covers(m, context.len(), requested as nat),
        speculative::draft_asked(before, context, requested, after, r),
    ensures
        r is Ok,
        speculative::tokens_of(r->Ok_0@) == script_from(m, context.len(), requested as nat),
        same_script(after.inner()@, m),
{
    let ask = speculative::DraftAsk { context, max_tokens: requested, fed: None };
    let fed: Option<Guidance> = None;
    assert(backend::drafted_greedily(before.inner(), ask, after.inner(), fed, r));
    let (states, logits, predictions) = choose|
        states: Seq<MockBackend>,
        logits: Seq<TokenLogits>,
        predictions: Seq<NextTokenPrediction>,
    | #[trigger]
        backend::draft_steps(ask, fed, r, states, logits, predictions) && states[0]
            == before.inner() && states.last() == after.inner();
    let n = predictions.len() as int;
    assert forall|k: int| 0 <= k < n implies #[trigger] backend::predicted_at(
        states,
        context,
        None,
        logits,
        predictions,
        k,
    ) by {
        assert(backend::predicted_at(states, ask.context, ask.fed, logits, predictions, k));
    }
    lemma_predictions_are_scripted(m, states, context, logits, predictions, n);
    if r is Err {
        let so_far = context + speculative::tokens_of(predictions);
        assert(so_far.len() == context.len() + n);
        assert(scripted(m, (context.len() + n) as usize) is Some);
    } else {
        assert(speculative::tokens_of(r->Ok_0@) =~= script_from(
            m,
            context.len(),
            requested as nat,
        )) by {
            assert forall|k: int| 0 <= k < requested implies speculative::tokens_of(
                r->Ok_0@,
            )[k] == script_from(m, context.len(), requested as nat)[k] by {
                assert(scripted(m, (context.len() + k) as usize) == Some(predictions[k].token));
            }
        }
    }
}

/// A mock's verdict is its script, as far as it goes.
proof fn lemma_mock_expects_its_script(
    m: MockModel,
    before: GreedyTargetModel<MockBackend>,
    context: Seq<TokenId>,
    drafted: Seq<TokenId>,
    after: GreedyTargetModel<MockBackend>,
    r: Result<Vec<VerifyStep>, SpeculativeError>,
)
    requires
        same_script(before.inner()@, m),
        covers(m, context.len(), drafted.len()),
        speculative::verdict_asked(before, context, drafted, after, r),
    ensures
        r is Ok,
        speculative::steps_of(r->Ok_0@) == script_from(m, context.len(), drafted.len()),
        same_script(after.inner()@, m),
{
    let ask = speculative::VerifyAsk { context, drafted, fed: None };
    let fed: Option<Guidance> = None;
    let mock = before.inner()@;
    let len = context.len() as usize;
    assert(backend::verified_greedily(before.inner(), ask, after.inner(), fed, r));
    let logits = choose|logits: Result<Vec<TokenLogits>, SpeculativeError>| #[trigger]
        backend::verdict_given(before.inner(), context, drafted, after.inner(), logits)
            && backend::verdict_on(logits, ask, fed, r);
    if logits is Err {
        let k = choose|k: int|
            0 <= k < drafted.len() && #[trigger] scripted_after(mock, len, k) is None;
        assert(scripted(m, (context.len() + k) as usize) is Some);
    } else {
        let expected = speculative::steps_of(r->Ok_0@);
        assert forall|i: int| 0 <= i < drafted.len() implies expected[i] == script_from(
            m,
            context.len(),
            drafted.len(),
        )[i] by {
            assert(scripted(m, (context.len() + i) as usize) is Some);
            lemma_verdict_is_scripted(m, 0, mock, context, drafted, logits->Ok_0, r->Ok_0@, i);
            assert((context + drafted.take(i)).len() == context.len() + i);
            assert(expected[i] == r->Ok_0@[i].expected);
        }
        assert(expected =~= script_from(m, context.len(), drafted.len()));
    }
}

proof fn lemma_agreeing_rounds(
    m: MockModel,
    s: SessionModel,
    max: nat,
    drafters: Seq<GreedyDraftModel<MockBackend>>,
    targets: Seq<GreedyTargetModel<MockBackend>>,
    drafts: Seq<Seq<TokenId>>,
    answers: Seq<Seq<TokenId>>,
    n: int,
)
    requires
        speculative::rounds_asked(s, max, drafters, targets, drafts, answers),
        same_script(drafters[0].inner()@, m),
        same_script(targets[0].inner()@, m),
        covers(m, s.context.len(), max),
        s.stats == speculative::no_stats(),
        0 < s.draft_window,
        0 <= n <= drafts.len(),
    ensures
        same_script(drafters[n].inner()@, m),
        same_script(targets[n].inner()@, m),
        ({
            let now = speculative::play(s, drafts.take(n), answers.take(n));
            let count = now.context.len() - s.context.len();
            &&& 0 <= count <= max
            &&& now.context == s.context + script_from(m, s.context.len(), count as nat)
            &&& now.draft_window > 0
            &&& now.max_window == s.max_window
            &&& n <= count
            &&& now.stats == all_accepted(n as nat, count as nat)
            &&& n + rounds_needed(now.draft_window, now.max_window, (max - count) as nat)
                == rounds_needed(s.draft_window, s.max_window, max)
        }),
    decreases n,
{
    let d = drafts.take(n);
    let a = answers.take(n);
    let now = speculative::play(s, d, a);
    if n == 0 {
        assert(now == s);
        assert(s.context =~= s.context + script_from(m, s.context.len(), 0));
    } else {
        lemma_agreeing_rounds(m, s, max, drafters, targets, drafts, answers, n - 1);
        assert(d.drop_last() =~= drafts.take(n - 1));
        assert(a.drop_last() =~= answers.take(n - 1));
        let before = speculative::play(s, drafts.take(n - 1), answers.take(n - 1));
        let done = (before.context.len() - s.context.len()) as nat;
        let requested = speculative::next_request(s, max, before);
        let k = n - 1;
        assert(speculative::round_asked(s, max, drafters, targets, drafts, answers, k));
        let p = choose|p: Vec<NextTokenPrediction>| #[trigger]
            speculative::tokens_of(p@) == drafts[k] && speculative::draft_asked(
                drafters[k],
                before.context,
                requested,
                drafters[k + 1],
                Ok(p),
            );
        let v = choose|v: Vec<VerifyStep>| #[trigger]
            speculative::steps_of(v@) == answers[k] && speculative::verdict_asked(
                targets[k],
                before.context,
                drafts[k],
                targets[k + 1],
                Ok(v),
            );
        assert(covers(m, before.context.len(), requested as nat)) by {
            assert forall|q: int|
                before.context.len() <= q < before.context.len() + requested implies (
            #[trigger] scripted(m, q as usize)) is Some by {
                assert(s.context.len() <= q < s.context.len() + max);
            }
        }
        lemma_mock_drafts_its_script(
            m,
            drafters[k],
            before.context,
            requested,
            drafters[k + 1],
            Ok(p),
        );
        lemma_mock_expects_its_script(
            m,
            targets[k],
            before.context,
            drafts[k],
            targets[k + 1],
            Ok(v),
        );
        let dk = drafts[k];
        assert(d.last() == dk && a.last() == answers[k]);
        assert(answers[k] =~= dk);
        speculative::lemma_agreement_is(dk, dk, dk.len());
        assert(speculative::gained(dk, dk) =~= dk);
        assert(now.context =~= s.context + script_from(m, s.context.len(), done + dk.len()));
        speculative::lemma_prefix_playable(s, max, drafts, answers, n);
        assert(0 < dk.len() == requested);
        assert(now.stats =~= all_accepted(n as nat, done + dk.len()));
    }
}

/// Two mocks that follow the same script deliver it: as long as the script has a
/// token for each position, a generation succeeds with as many tokens as were
/// asked for, all of them accepted drafts, in as many rounds as that takes.
pub proof fn agreeing_mocks_deliver_their_script(
    s: SessionModel,
    max: nat,
    draft0: GreedyDraftModel<MockBackend>,
    target0: GreedyTargetModel<MockBackend>,
    draft1: GreedyDraftModel<MockBackend>,
    target1: GreedyTargetModel<MockBackend>,
    r: Result<SpeculativeOutput, SpeculativeError>,
)
    requires
        speculative::generated_by(s, max, draft0, target0, draft1, target1, r),
        same_script(draft0.inner()@, target0.inner()@),
        covers(target0.inner()@, s.context.len(), max),
        s.stats == speculative::no_stats(),
        0 < s.draft_window,
    ensures
        r is Ok,
        r->Ok_0.tokens@ == script_from(target0.inner()@, s.context.len(), max),
        r->Ok_0.stats == all_accepted(rounds_needed(s.draft_window, s.max_window, max), max),
{
    let m = target0.inner()@;
    let (drafters, targets, drafts, answers) = choose|
        drafters: Seq<GreedyDraftModel<MockBackend>>,
        targets: Seq<GreedyTargetModel<MockBackend>>,
        drafts: Seq<Seq<TokenId>>,
        answers: Seq<Seq<TokenId>>,
    | #[trigger]
        speculative::ends_in(s, max, draft1, target1, r, drafters, targets, drafts, answers)
            && drafters[0] == draft0 && targets[0] == target0;
    let n = drafts.len() as int;
    lemma_agreeing_rounds(m, s, max, drafters, targets, drafts, answers, n);
    assert(drafts.take(n) =~= drafts);
    assert(answers.take(n) =~= answers);
    let end = speculative::play(s, drafts, answers);
    let count = (end.context.len() - s.context.len()) as nat;
    if count < max {
        let requested = speculative::next_request(s, max, end);
        assert(covers(m, end.context.len(), requested as nat)) by {
            assert forall|q: int|
                end.context.len() <= q < end.context.len() + requested implies (
            #[trigger] scripted(m, q as usize)) is Some by {
                assert(s.context.len() <= q < s.context.len() + max);
            }
        }
        match r {
            Ok(out) => {
                let p = choose|p: Vec<NextTokenPrediction>|
                    p@.len() == 0 && #[trigger] speculative::draft_asked(
                        drafters.last(),
                        end.context,
                        requested,
                        draft1,
                        Ok(p),
                    );
                lemma_mock_drafts_its_script(
                    m,
                    drafters.last(),
                    end.context,
                    requested,
                    draft1,
                    Ok(p),
                );
                assert(speculative::tokens_of(p@).len() == requested);
            },
            Err(e) => {
                let after = choose|after: SessionModel| #[trigger]
                    speculative::round_outcome(
                        drafters.last(),
                        targets.last(),
                        end,
                        requested,
                        draft1,
                        target1,
                        after,
                        Err(e),
                    );
                lemma_mock_rounds_go_well(
                    m,
                    drafters.last(),
                    targets.last(),
                    end,
                    requested,
                    draft1,
                    target1,
                    after,
                    Err(e),
                );
            },
        }
    }
    assert(r->Ok_0.tokens@ =~= script_from(m, s.context.len(), max)) by {
        assert(end.context == s.context + r->Ok_0.tokens@);
        assert(end.context.skip(s.context.len() as int) =~= r->Ok_0.tokens@);
        assert(end.context.skip(s.context.len() as int) =~= script_from(
            m,
            s.context.len(),
            count,
        ));
    }
}

/// A round of two mocks on the same script does not fail.
proof fn lemma_mock_rounds_go_well(
    m: MockModel,
    draft0: GreedyDraftModel<MockBackend>,
    target0: GreedyTargetModel<MockBackend>,
    before: SessionModel,
    requested: usize,
    draft1: GreedyDraftModel<MockBackend>,
    target1: GreedyTargetModel<MockBackend>,
    after: SessionModel,
    r: Result<Vec<TokenId>, SpeculativeError>,
)
    requires
        same_script(draft0.inner()@, m),
        same_script(target0.inner()@, m),
        covers(m, before.context.len(), requested as nat),
        speculative::round_outcome(
            draft0,
            target0,
            before,
            requested,
            draft1,
            target1,
            after,
            r,
        ),
    ensures
        r is Ok,
{
    let p = choose|p: Result<Vec<NextTokenPrediction>, SpeculativeError>| #[trigger]
        speculative::draft_asked(draft0, before.context, requested, draft1, p) && match p {
            Err(e) => true,
            Ok(p) => if p@.len() > requested {
                true
            } else if p@.len() == 0 {
                r is Ok
            } else {
                exists|v: Result<Vec<VerifyStep>, SpeculativeError>| #[trigger]
                    speculative::verdict_asked(
                        target0,
                        before.context,
                        speculative::tokens_of(p@),
                        target1,
                        v,
                    ) && speculative::answered(
                        before,
                        after,
                        speculative::tokens_of(p@),
                        v,
                        r,
                    )
            },
        };
    lemma_mock_drafts_its_script(m, draft0, before.context, requested, draft1, p);
    let d = speculative::tokens_of(p->Ok_0@);
    assert(d.len() == requested);
    if requested > 0 {
        let v = choose|v: Result<Vec<VerifyStep>, SpeculativeError>| #[trigger]
            speculative::verdict_asked(target0, before.context, d, target1, v)
                && speculative::answered(before, after, d, v, r);
        lemma_mock_expects_its_script(m, target0, before.context, d, target1, v);
        assert(speculative::steps_of(v->Ok_0@).len() == d.len());
    }
}

// ---------------------------------------------------------------------------
// Batches of mocks
// ---------------------------------------------------------------------------

/// A mock answers a batch of contexts within its script, and stays as it is.
proof fn lemma_mock_gives_batches(
    m: MockModel,
    before: MockBackend,
    contexts: Seq<Seq<TokenId>>,
    after: MockBackend,
    r: Result<Vec<TokenLogits>, SpeculativeError>,
)
    requires
        same_script(before@, m),
        backend::given_batch(before, contexts, after, r),
    ensures
        same_script(after@, m),
        (forall|k: int|
            0 <= k < contexts.len() ==> scripted(m, (#[trigger] contexts[k]).len() as usize)
                is Some) ==> r is Ok,
{
    let calls = |call: NextCall<MockBackend>| MockBackend::gives(call);
    let (states, results) = choose|states: Seq<MockBackend>, results: Seq<TokenLogits>| #[trigger]
        backend::gives_in_turn(calls, states, contexts, results, r) && states[0] == before
            && states.last() == after;
    lemma_mock_stays_in_turn(calls, states, contexts, results, results.len() as int);
    if r is Err {
        assert(backend::given_at(calls, states, contexts, results.len() as int, Err(r->Err_0)));
        let k = results.len() as int;
        assert(scripted(m, contexts[k].len() as usize) is None);
    }
}

proof fn lemma_mock_stays_in_turn(
    calls: spec_fn(NextCall<MockBackend>) -> bool,
    states: Seq<MockBackend>,
    contexts: Seq<Seq<TokenId>>,
    results: Seq<TokenLogits>,
    n: int,
)
    requires
        calls == (|call: NextCall<MockBackend>| MockBackend::gives(call)),
        0 <= n <= results.len(),
        forall|k: int|
            0 <= k < results.len() ==> #[trigger] backend::given_at(
                calls,
                states,
                contexts,
                k,
                Ok(results[k]),
            ),
    ensures
        states[n]@ == states[0]@,
    decreases n,
{
    if n > 0 {
        lemma_mock_stays_in_turn(calls, states, contexts, results, n - 1);
        assert(backend::given_at(calls, states, contexts, n - 1, Ok(results[n - 1])));
    }
}

/// Whether a draft without a matcher stays within the script.
spec fn draft_within(m: MockModel, ask: DraftAsk) -> bool {
    ask.fed is None && covers(m, ask.context.len(), ask.max_tokens as nat)
}

/// Whether a verdict without a matcher stays within the script.
spec fn verdict_within(m: MockModel, ask: VerifyAsk) -> bool {
    ask.fed is None && covers(m, ask.context.len(), ask.drafted.len())
}

proof fn lemma_mock_drafts_together(
    m: MockModel,
    asks: Seq<DraftAsk>,
    left: Seq<DraftAsk>,
    r: Result<Vec<Vec<NextTokenPrediction>>, SpeculativeError>,
    states: Seq<MockBackend>,
    batches: Seq<Vec<TokenLogits>>,
    results: Seq<Seq<NextTokenPrediction>>,
    n: int,
)
    requires
        same_script(states[0]@, m),
        backend::batch_steps(asks, left, r, states, batches, results),
        0 <= n <= batches.len(),
    ensures
        same_script(states[n]@, m),
    decreases n,
{
    if n > 0 {
        lemma_mock_drafts_together(m, asks, left, r, states, batches, results, n - 1);
        assert(backend::predicted_together_at(asks, results, states, batches, n - 1));
        lemma_mock_gives_batches(
            m,
            states[n - 1],
            backend::contexts_at(asks, results, (n - 1) as nat),
            states[n],
            Ok(batches[n - 1]),
        );
    }
}

/// A mock drafts for a batch within its script.
proof fn lemma_mock_drafts_batches(
    m: MockModel,
    before: GreedyDraftModel<MockBackend>,
    asks: Seq<DraftAsk>,
    after: GreedyDraftModel<MockBackend>,
    left: Seq<DraftAsk>,
    r: Result<Vec<Vec<NextTokenPrediction>>, SpeculativeError>,
)
    requires
        same_script(before.inner()@, m),
        asks.len() <= usize::MAX,
        forall|j: int| 0 <= j < asks.len() ==> draft_within(m, #[trigger] asks[j]),
        speculative::drafted_batch(before, asks, after, left, r),
    ensures
        r is Ok,
        same_script(after.inner()@, m),
{
    if backend::drafted_together(before.inner(), asks, after.inner(), left, r) {
        let (states, batches, results) = choose|
            states: Seq<MockBackend>,
            batches: Seq<Vec<TokenLogits>>,
            results: Seq<Seq<NextTokenPrediction>>,
        | #[trigger]
            backend::batch_steps(asks, left, r, states, batches, results) && states[0]
                == before.inner() && states.last() == after.inner();
        let n = batches.len() as int;
        lemma_mock_drafts_together(m, asks, left, r, states, batches, results, n);
        if r is Err {
            let contexts = backend::contexts_at(asks, results, n as nat);
            let who = backend::wanting(asks, n as nat, asks.len());
            backend::lemma_wanting(asks, n as nat, asks.len());
            assert forall|k: int| 0 <= k < contexts.len() implies scripted(
                m,
                (#[trigger] contexts[k]).len() as usize,
            ) is Some by {
                let i = who[k] as int;
                assert(draft_within(m, asks[i]));
                assert(results[i].len() == n);
                assert(contexts[k].len() == asks[i].context.len() + n);
                assert(scripted(m, (asks[i].context.len() + n) as usize) is Some);
            }
            lemma_mock_gives_batches(m, states[n], contexts, states[n + 1], Err(r->Err_0));
        }
    } else {
        let calls = |call: DraftCall<GreedyDraftModel<MockBackend>>|
            GreedyDraftModel::<MockBackend>::drafts(call);
        let (states, results) = choose|
            states: Seq<GreedyDraftModel<MockBackend>>,
            results: Seq<Vec<NextTokenPrediction>>,
        | #[trigger]
            speculative::drafts_in_turn(calls, states, asks, left, results, r) && states[0]
                == before && states.last() == after;
        let n = results.len() as int;
        lemma_mock_drafts_in_turn(m, calls, states, asks, left, results, n);
        if r is Err {
            assert(speculative::drafted_at(calls, states, asks, left, n, Err(r->Err_0)));
            assert(draft_within(m, asks[n]));
            lemma_mock_drafts_its_script(
                m,
                states[n],
                asks[n].context,
                asks[n].max_tokens,
                states[n + 1],
                Err(r->Err_0),
            );
        }
    }
}

proof fn lemma_mock_drafts_in_turn(
    m: MockModel,
    calls: spec_fn(DraftCall<GreedyDraftModel<MockBackend>>) -> bool,
    states: Seq<GreedyDraftModel<MockBackend>>,
    asks: Seq<DraftAsk>,
    left: Seq<DraftAsk>,
    results: Seq<Vec<NextTokenPrediction>>,
    n: int,
)
    requires
        calls == (|call: DraftCall<GreedyDraftModel<MockBackend>>|
            GreedyDraftModel::<MockBackend>::drafts(call)),
        same_script(states[0].inner()@, m),
        0 <= n <= results.len() <= asks.len(),
        forall|j: int| 0 <= j < asks.len() ==> draft_within(m, #[trigger] asks[j]),
        forall|k: int|
            0 <= k < results.len() ==> #[trigger] speculative::drafted_at(
                calls,
                states,
                asks,
                left,
                k,
                Ok(results[k]),
            ),
    ensures
        same_script(states[n].inner()@, m),
    decreases n,
{
    if n > 0 {
        let k = n - 1;
        lemma_mock_drafts_in_turn(m, calls, states, asks, left, results, k);
        assert(speculative::drafted_at(calls, states, asks, left, k, Ok(results[k])));
        assert(draft_within(m, asks[k]));
        lemma_mock_drafts_its_script(
            m,
            states[k],
            asks[k].context,
            asks[k].max_tokens,
            states[k + 1],
            Ok(results[k]),
        );
    }
}

/// A mock answers the drafts of a batch within its script, each in full.
proof fn lemma_mock_answers_batches(
    m: MockModel,
    before: GreedyTargetModel<MockBackend>,
    asks: Seq<VerifyAsk>,
    after: GreedyTargetModel<MockBackend>,
    left: Seq<VerifyAsk>,
    r: Result<Vec<Vec<VerifyStep>>, SpeculativeError>,
)
    requires
        same_script(before.inner()@, m),
        forall|j: int| 0 <= j < asks.len() ==> verdict_within(m, #[trigger] asks[j]),
        speculative::verified_batch(before, asks, after, left, r),
    ensures
        r is Ok,
        same_script(after.inner()@, m),
        forall|j: int|
            0 <= j < asks.len() ==> (#[trigger] r->Ok_0@[j])@.len() == asks[j].drafted.len()
                && left[j].fed is None,
{
    if backend::verified_together(before.inner(), asks, after.inner(), left, r) {
        let questions = backend::questions_in(asks);
        let logits = choose|logits: Result<Vec<Vec<TokenLogits>>, SpeculativeError>| #[trigger]
            backend::judged_batch(before.inner(), questions, after.inner(), logits)
                && backend::verdicts_on(logits, asks, left, r);
        let calls = |call: JudgeCall<MockBackend>| MockBackend::judges(call);
        let (states, results) = choose|states: Seq<MockBackend>, results: Seq<Vec<TokenLogits>>|
            #[trigger] backend::judges_in_turn(calls, states, questions, results, logits)
                && states[0] == before.inner() && states.last() == after.inner();
        let n = results.len() as int;
        lemma_mock_stays(calls, states, questions, results, n);
        if logits is Err {
            assert(backend::judged_at(calls, states, questions, n, Err(logits->Err_0)));
            let len = asks[n].context.len() as usize;
            assert(verdict_within(m, asks[n]));
            let k = choose|k: int|
                0 <= k < asks[n].drafted.len() && #[trigger] scripted_after(states[n]@, len, k)
                    is None;
            assert(scripted(m, (asks[n].context.len() + k) as usize) is Some);
        } else {
            assert forall|j: int| 0 <= j < asks.len() implies (#[trigger] r->Ok_0@[j])@.len()
                == asks[j].drafted.len() && left[j].fed is None by {
                assert(left[j] == (VerifyAsk { fed: left[j].fed, ..asks[j] }));
                assert(verdict_within(m, asks[j]));
                assert(backend::judged_at(calls, states, questions, j, Ok(results[j])));
            }
        }
    } else {
        let calls = |call: VerifyCall<GreedyTargetModel<MockBackend>>|
            GreedyTargetModel::<MockBackend>::verifies(call);
        let (states, results) = choose|
            states: Seq<GreedyTargetModel<MockBackend>>,
            results: Seq<Vec<VerifyStep>>,
        | #[trigger]
            speculative::verifies_in_turn(calls, states, asks, left, results, r) && states[0]
                == before && states.last() == after;
        let n = results.len() as int;
        lemma_turns_keep_script(m, calls, states, asks, left, results, n);
        if r is Err {
            assert(speculative::verified_at(calls, states, asks, left, n, Err(r->Err_0)));
            assert(verdict_within(m, asks[n]));
            lemma_verdict_is_unmatched(states[n], asks[n], states[n + 1], left[n].fed, Err(r->Err_0));
            lemma_mock_expects_its_script(
                m,
                states[n],
                asks[n].context,
                asks[n].drafted,
                states[n + 1],
                Err(r->Err_0),
            );
        } else {
            assert forall|j: int| 0 <= j < asks.len() implies (#[trigger] r->Ok_0@[j])@.len()
                == asks[j].drafted.len() && left[j].fed is None by {
                lemma_turns_keep_script(m, calls, states, asks, left, results, j);
                assert(speculative::verified_at(calls, states, asks, left, j, Ok(results[j])));
                assert(verdict_within(m, asks[j]));
                lemma_verdict_is_unmatched(
                    states[j],
                    asks[j],
                    states[j + 1],
                    left[j].fed,
                    Ok(results[j]),
                );
                lemma_mock_expects_its_script(
                    m,
                    states[j],
                    asks[j].context,
                    asks[j].drafted,
                    states[j + 1],
                    Ok(results[j]),
                );
                assert(speculative::steps_of(results[j]@).len() == asks[j].drafted.len());
            }
        }
    }
}

/// A verdict without a matcher leaves none.
proof fn lemma_verdict_is_unmatched(
    before: GreedyTargetModel<MockBackend>,
    ask: VerifyAsk,
    after: GreedyTargetModel<MockBackend>,
    fed: Option<Guidance>,
    r: Result<Vec<VerifyStep>, SpeculativeError>,
)
    requires
        ask.fed is None,
        backend::verified_greedily(before.inner(), ask, after.inner(), fed, r),
    ensures
        fed is None,
        speculative::verdict_asked(before, ask.context, ask.drafted, after, r),
{
}

/// Whether a request in work is unconstrained and within the script.
spec fn serving_within(m: MockModel, req: BatchRequest, active: ActiveRequest) -> bool {
    &&& active.matcher is None
    &&& active.session@.context == req.prompt@ + active.generated@
    &&& active.max_new_tokens == req.max_new_tokens
    &&& active.generated@.len() <= req.max_new_tokens
    &&& covers(m, req.prompt@.len(), req.max_new_tokens as nat)
}

/// Whether both models and all requests of a batch are within the script.
spec fn moment_within(
    m: MockModel,
    requests: Seq<BatchRequest>,
    now: Moment<GreedyDraftModel<MockBackend>, GreedyTargetModel<MockBackend>>,
) -> bool {
    &&& same_script(now.draft.inner()@, m)
    &&& same_script(now.target.inner()@, m)
    &&& now.active.len() == requests.len() <= usize::MAX
    &&& forall|i: int|
        0 <= i < requests.len() ==> serving_within(m, requests[i], #[trigger] now.active[i])
}

/// Whether no draft is longer than asked for.
spec fn as_wanted(
    active: Seq<ActiveRequest>,
    window: usize,
    drafts: Seq<Vec<NextTokenPrediction>>,
) -> bool {
    let who = engine::working_at(active, active.len());
    &&& drafts.len() == who.len()
    &&& forall|k: int|
        0 <= k < who.len() ==> (#[trigger] drafts[k])@.len() <= engine::wanted(
            active[who[k] as int],
            window,
        )
}

proof fn lemma_drafts_as_wanted(
    active: Seq<ActiveRequest>,
    window: usize,
    before: GreedyDraftModel<MockBackend>,
    after: GreedyDraftModel<MockBackend>,
    left: Seq<DraftAsk>,
    drafts: Vec<Vec<NextTokenPrediction>>,
)
    requires
        speculative::drafted_batch(
            before,
            engine::drafts_wanted(active, window),
            after,
            left,
            Ok(drafts),
        ),
    ensures
        as_wanted(active, window, drafts@),
{
    let asks = engine::drafts_wanted(active, window);
    let who = engine::working_at(active, active.len());
    backend::greedy_drafts_are_complete(before, asks, after, left, drafts);
    assert forall|k: int| 0 <= k < who.len() implies (#[trigger] drafts@[k])@.len()
        <= engine::wanted(active[who[k] as int], window) by {
        assert(drafts@[k]@.len() == asks[k].max_tokens);
    }
}

/// What is asked of the models from a moment within the script is within it too.
proof fn lemma_asks_within(
    m: MockModel,
    window: usize,
    requests: Seq<BatchRequest>,
    now: Moment<GreedyDraftModel<MockBackend>, GreedyTargetModel<MockBackend>>,
    drafts: Seq<Vec<NextTokenPrediction>>,
)
    requires
        moment_within(m, requests, now),
    ensures
        ({
            let asks = engine::drafts_wanted(now.active, window);
            &&& asks.len() <= usize::MAX
            &&& forall|j: int| 0 <= j < asks.len() ==> draft_within(m, #[trigger] asks[j])
        }),
        as_wanted(now.active, window, drafts) ==> {
            let asks = engine::verdicts_wanted(now.active, drafts);
            forall|j: int| 0 <= j < asks.len() ==> verdict_within(m, #[trigger] asks[j])
        },
{
    let who = engine::working_at(now.active, now.active.len());
    engine::lemma_working_at(now.active, now.active.len());
    engine::lemma_working_at_most(now.active, now.active.len());
    let asks = engine::drafts_wanted(now.active, window);
    assert forall|j: int| 0 <= j < asks.len() implies draft_within(m, #[trigger] asks[j]) by {
        let i = who[j] as int;
        assert(serving_within(m, requests[i], now.active[i]));
        lemma_covers_within(
            m,
            requests[i].prompt@.len(),
            requests[i].max_new_tokens as nat,
            asks[j].context.len(),
            asks[j].max_tokens as nat,
        );
    }
    if as_wanted(now.active, window, drafts) {
        let questions = engine::verdicts_wanted(now.active, drafts);
        assert forall|j: int| 0 <= j < questions.len() implies verdict_within(
            m,
            #[trigger] questions[j],
        ) by {
            let i = who[j] as int;
            assert(serving_within(m, requests[i], now.active[i]));
            assert(drafts[j]@.len() <= engine::wanted(now.active[who[j] as int], window));
            lemma_covers_within(
                m,
                requests[i].prompt@.len(),
                requests[i].max_new_tokens as nat,
                questions[j].context.len(),
                questions[j].drafted.len(),
            );
        }
    }
}

proof fn lemma_covers_within(m: MockModel, start: nat, len: nat, inner: nat, part: nat)
    requires
        covers(m, start, len),
        start <= inner,
        inner + part <= start + len,
    ensures
        covers(m, inner, part),
{
    assert forall|p: int| inner <= p < inner + part implies (
    #[trigger] scripted(m, p as usize)) is Some by {
        assert(start <= p < start + len);
    }
}

proof fn lemma_moments_stay_within(
    m: MockModel,
    window: usize,
    requests: Seq<BatchRequest>,
    moments: Seq<Moment<GreedyDraftModel<MockBackend>, GreedyTargetModel<MockBackend>>>,
    n: int,
)
    requires
        engine::round_chain(window, moments),
        0 <= n < moments.len(),
        moment_within(m, requests, moments[0]),
    ensures
        moment_within(m, requests, moments[n]),
    decreases n,
{
    if n > 0 {
        lemma_moments_stay_within(m, window, requests, moments, n - 1);
        let before = moments[n - 1];
        let after = moments[n];
        assert(engine::round_made(window, moments[n - 1], moments[n - 1 + 1]));
        let (drafts, answers, left) = choose|
            drafts: Vec<Vec<NextTokenPrediction>>,
            answers: Vec<Vec<VerifyStep>>,
            left: Seq<VerifyAsk>,
        | #[trigger]
            engine::round_made_by(window, before, after, drafts, answers, left);
        lemma_asks_within(m, window, requests, before, drafts@);
        let asks = engine::drafts_wanted(before.active, window);
        let dleft = choose|left: Seq<DraftAsk>| #[trigger]
            speculative::drafted_batch(before.draft, asks, after.draft, left, Ok(drafts));
        lemma_drafts_as_wanted(before.active, window, before.draft, after.draft, dleft, drafts);
        lemma_mock_drafts_batches(m, before.draft, asks, after.draft, dleft, Ok(drafts));
        let questions = engine::verdicts_wanted(before.active, drafts@);
        assert(speculative::verified_batch(
            before.target,
            questions,
            after.target,
            left,
            Ok(answers),
        ));
        lemma_mock_answers_batches(
            m,
            before.target,
            questions,
            after.target,
            left,
            Ok(answers),
        );
        let who = engine::working_at(before.active, before.active.len());
        engine::lemma_working_at(before.active, before.active.len());
        assert forall|i: int| 0 <= i < requests.len() implies serving_within(
            m,
            requests[i],
            #[trigger] after.active[i],
        ) by {
            let a = before.active[i];
            let b = after.active[i];
            assert(serving_within(m, requests[i], a));
            if engine::working(a) {
                let k = who.index_of(i as usize);
                assert(who.contains(i as usize));
                assert(who[k] == i as usize);
                assert(engine::request_settled(a, b, drafts@[k]@, answers@[k]@));
                assert(drafts@[k]@.len() <= engine::wanted(
                    before.active[who[k] as int],
                    window,
                ));
                assert(answers@[k]@.len() == questions[k].drafted.len());
                assert(left[k].fed is None);
                speculative::lemma_gained_len(
                    speculative::tokens_of(drafts@[k]@),
                    speculative::steps_of(answers@[k]@),
                );
                assert(b.session@.context =~= requests[i].prompt@ + b.generated@);
            }
        }
    }
}

/// Two mocks that follow the same script do not fail a batch of unconstrained
/// requests, as long as the script has a token for each position that the requests
/// come to.
pub proof fn agreeing_mocks_fail_no_batch<R: MemoryRuntime>(
    engine: VeloEngine<R>,
    after: VeloEngine<R>,
    requests: Seq<BatchRequest>,
    draft0: GreedyDraftModel<MockBackend>,
    target0: GreedyTargetModel<MockBackend>,
    draft1: GreedyDraftModel<MockBackend>,
    target1: GreedyTargetModel<MockBackend>,
    e: EngineError,
)
    requires
        same_script(draft0.inner()@, target0.inner()@),
        requests.len() <= usize::MAX,
        forall|i: int|
            0 <= i < requests.len() ==> (#[trigger] requests[i]).constraint is None && covers(
                target0.inner()@,
                requests[i].prompt@.len(),
                requests[i].max_new_tokens as nat,
            ),
    ensures
        !engine::models_failed(engine, after, requests, draft0, target0, draft1, target1, e),
{
    let m = target0.inner()@;
    let window = engine.decodes().window();
    if engine::models_failed(engine, after, requests, draft0, target0, draft1, target1, e) {
        if exists|
            first: Moment<GreedyDraftModel<MockBackend>, GreedyTargetModel<MockBackend>>,
            last: Moment<GreedyDraftModel<MockBackend>, GreedyTargetModel<MockBackend>>,
        | #[trigger]
            engine::batch_run(engine, requests, draft0, target0, after, first, last)
                && engine::round_failed(window, last, draft1, target1, e) {
            let (first, last) = choose|
                first: Moment<GreedyDraftModel<MockBackend>, GreedyTargetModel<MockBackend>>,
                last: Moment<GreedyDraftModel<MockBackend>, GreedyTargetModel<MockBackend>>,
            | #[trigger]
                engine::batch_run(engine, requests, draft0, target0, after, first, last)
                    && engine::round_failed(window, last, draft1, target1, e);
            lemma_first_moment_within(m, engine, requests, draft0, target0, first);
            let moments = choose|
                moments: Seq<
                    Moment<GreedyDraftModel<MockBackend>, GreedyTargetModel<MockBackend>>,
                >,
            | #[trigger]
                engine::round_chain(window, moments) && moments[0] == first && moments.last()
                    == last;
            lemma_moments_stay_within(m, window, requests, moments, moments.len() - 1);
            lemma_round_does_not_fail(m, window, requests, last, draft1, target1, e);
        } else {
            let active = choose|active: Seq<ActiveRequest>| #[trigger]
                engine::requests_taken(engine, requests, active, after) && engine::some_refused(
                    active,
                    draft0,
                    target0,
                    draft1,
                    target1,
                    e,
                );
            assert(engine::some_refused(active, draft0, target0, draft1, target1, e));
        }
    }
}

proof fn lemma_first_moment_within<R>(
    m: MockModel,
    engine: VeloEngine<R>,
    requests: Seq<BatchRequest>,
    draft0: GreedyDraftModel<MockBackend>,
    target0: GreedyTargetModel<MockBackend>,
    first: Moment<GreedyDraftModel<MockBackend>, GreedyTargetModel<MockBackend>>,
)
    requires
        same_script(draft0.inner()@, m),
        same_script(target0.inner()@, m),
        requests.len() <= usize::MAX,
        engine::all_admitted(engine, requests, first.active),
        engine::all_bound(first.active, draft0, target0, first.draft, first.target),
        forall|i: int|
            0 <= i < requests.len() ==> (#[trigger] requests[i]).constraint is None && covers(
                m,
                requests[i].prompt@.len(),
                requests[i].max_new_tokens as nat,
            ),
    ensures
        moment_within(m, requests, first),
{
    let (drafters, targets) = choose|
        drafters: Seq<GreedyDraftModel<MockBackend>>,
        targets: Seq<GreedyTargetModel<MockBackend>>,
    | #[trigger]
        engine::bound_in_turn(first.active, first.active.len() as int, drafters, targets)
            && drafters[0] == draft0 && targets[0] == target0 && drafters.last() == first.draft
            && targets.last() == first.target;
    lemma_mocks_stay_when_bound(m, first.active, drafters, targets, first.active.len() as int);
    assert forall|i: int| 0 <= i < requests.len() implies serving_within(
        m,
        requests[i],
        #[trigger] first.active[i],
    ) by {
        assert(requests[i].constraint is None);
        assert(engine::admitted(
            engine.decodes(),
            engine.factory(),
            requests[i],
            first.active[i],
        ));
        assert(first.active[i].session@.context =~= requests[i].prompt@
            + first.active[i].generated@);
    }
}

proof fn lemma_mocks_stay_when_bound(
    m: MockModel,
    active: Seq<ActiveRequest>,
    drafters: Seq<GreedyDraftModel<MockBackend>>,
    targets: Seq<GreedyTargetModel<MockBackend>>,
    n: int,
)
    requires
        engine::bound_in_turn(active, active.len() as int, drafters, targets),
        same_script(drafters[0].inner()@, m),
        same_script(targets[0].inner()@, m),
        0 <= n <= active.len(),
    ensures
        same_script(drafters[n].inner()@, m),
        same_script(targets[n].inner()@, m),
    decreases n,
{
    if n > 0 {
        let k = n - 1;
        lemma_mocks_stay_when_bound(m, active, drafters, targets, k);
        let slot = active[k].slot_id;
        let prefix = active[k].prefill.cached_prefix;
        assert(speculative::models_bound(
            slot,
            prefix,
            drafters[k],
            targets[k],
            drafters[k + 1],
            targets[k + 1],
        ));
    }
}

/// From a moment within the script, a round does not fail.
proof fn lemma_round_does_not_fail(
    m: MockModel,
    window: usize,
    requests: Seq<BatchRequest>,
    now: Moment<GreedyDraftModel<MockBackend>, GreedyTargetModel<MockBackend>>,
    draft: GreedyDraftModel<MockBackend>,
    target: GreedyTargetModel<MockBackend>,
    e: EngineError,
)
    requires
        moment_within(m, requests, now),
    ensures
        !engine::round_failed(window, now, draft, target, e),
{
    if engine::round_failed(window, now, draft, target, e) {
        let asks = engine::drafts_wanted(now.active, window);
        if e is Speculative && engine::drafts_made(
            now.draft,
            now.active,
            window,
            draft,
            Err(e->Speculative_0),
        ) {
            let none: Seq<Vec<NextTokenPrediction>> = Seq::empty();
            lemma_asks_within(m, window, requests, now, none);
            let left = choose|left: Seq<DraftAsk>| #[trigger]
                speculative::drafted_batch(
                    now.draft,
                    asks,
                    draft,
                    left,
                    Err(e->Speculative_0),
                );
            lemma_mock_drafts_batches(m, now.draft, asks, draft, left, Err(e->Speculative_0));
        } else {
            let drafts = choose|drafts: Vec<Vec<NextTokenPrediction>>| #[trigger]
                engine::verdicts_failed(now.target, now.active, window, drafts, target, e)
                    && engine::drafts_made(now.draft, now.active, window, draft, Ok(drafts));
            lemma_asks_within(m, window, requests, now, drafts@);
            let dleft = choose|left: Seq<DraftAsk>| #[trigger]
                speculative::drafted_batch(now.draft, asks, draft, left, Ok(drafts));
            lemma_drafts_as_wanted(now.active, window, now.draft, draft, dleft, drafts);
            let questions = engine::verdicts_wanted(now.active, drafts@);
            if e is Speculative && exists|left: Seq<VerifyAsk>| #[trigger]
                engine::verdicts_made(
                    now.target,
                    now.active,
                    drafts@,
                    target,
                    left,
                    Err(e->Speculative_0),
                ) {
                let left = choose|left: Seq<VerifyAsk>| #[trigger]
                    engine::verdicts_made(
                        now.target,
                        now.active,
                        drafts@,
                        target,
                        left,
                        Err(e->Speculative_0),
                    );
                lemma_mock_answers_batches(
                    m,
                    now.target,
                    questions,
                    target,
                    left,
                    Err(e->Speculative_0),
                );
            } else {
                let (left, answers) = choose|left: Seq<VerifyAsk>, answers: Vec<Vec<VerifyStep>>|
                    #[trigger] engine::verdicts_made(
                        now.target,
                        now.active,
                        drafts@,
                        target,
                        left,
                        Ok(answers),
                    ) && engine::some_fault(now.active, window, drafts@, answers@, e);
                lemma_mock_answers_batches(
                    m,
                    now.target,
                    questions,
                    target,
                    left,
                    Ok(answers),
                );
                let who = engine::working_at(now.active, now.active.len());
                engine::lemma_working_at(now.active, now.active.len());
                let k = choose|k: int|
                    0 <= k < who.len() && engine::round_fault(
                        now.active[#[trigger] who[k] as int],
                        window,
                        drafts@[k]@,
                        answers@[k]@,
                    ) == Some(e->Speculative_0);
                assert(answers@[k]@.len() == questions[k].drafted.len());
                engine::drafts_as_asked_for_fit(
                    now.active[who[k] as int],
                    window,
                    drafts@[k]@,
                    answers@[k]@,
                );
            }
        }
    }
}

} // verus!
