//! Continuous batching: requests wait in a queue, are admitted as slots become
//! free, gain tokens round by round, and leave when they are done or cancelled.
//!
//! The scheduler is a state machine. Whoever drives it hands the tokens of each
//! round over to their receivers and reports how far that went.

use std::collections::VecDeque;
use vstd::prelude::*;
use vstd::string::*;
use crate::constraints::LlguidanceMatcher;
use crate::engine;
use crate::engine::{EngineError, EnginePrefillOutput, VeloEngine};
use crate::model_pool::ModelPool;
use crate::radix_cache;
use crate::radix_cache::TokenId;
use crate::runtime::{KvBlockStore, MemoryRuntime, PagedBlockAllocator};
use crate::slot_manager::SlotId;
use crate::speculative;
use crate::speculative::{
    bind_models, copied, model_error, predicted_tokens, DraftAsk, DraftModel, DraftRequest,
    NextTokenPrediction, SpeculativeDecoder, SpeculativeError, SpeculativeSession, TargetModel,
    VerifyAsk, VerifyRequest, VerifyStep,
};

verus! {

// ---------------------------------------------------------------------------
// Data
// ---------------------------------------------------------------------------

/// A single request sent to the scheduler by a user.
#[derive(Debug)]
pub struct SchedulerRequest {
    /// Tells the requests of a scheduler apart.
    pub id: u64,
    /// The prompt tokens.
    pub prompt: Vec<TokenId>,
    /// How many tokens to generate.
    pub max_new_tokens: usize,
    /// Optional model name if we are using a pool of different models.
    pub model: Option<String>,
}

/// Commands for administrative tasks (like loading new models).
#[derive(Debug)]
pub enum SchedulerCommand {
    /// Load a model from disk into the pool.
    Prefetch { name: String, path: String },
    /// Change which models are currently being used for inference.
    SwitchModels { target: String, draft: Option<String> },
}

/// Real-time metrics for monitoring the scheduler's health.
#[derive(Debug, Clone, Copy, PartialEq, Eq, Structural)]
pub struct SchedulerMetrics {
    pub total_tokens_generated: u64,
    pub total_requests_completed: u64,
    /// How many slots are currently being used.
    pub active_slots: usize,
    /// Total "Time To First Token" in milliseconds.
    pub total_ttft_ms: u64,
    pub requests_with_ttft: u64,
}

impl Default for SchedulerMetrics {
    fn default() -> (m: Self)
        ensures
            m.total_tokens_generated == 0,
            m.total_requests_completed == 0,
            m.active_slots == 0,
            m.total_ttft_ms == 0,
            m.requests_with_ttft == 0,
    {
        SchedulerMetrics {
            total_tokens_generated: 0,
            total_requests_completed: 0,
            active_slots: 0,
            total_ttft_ms: 0,
            requests_with_ttft: 0,
        }
    }
}

/// A request that holds a slot.
#[derive(Debug)]
pub struct ScheduledRequest {
    pub id: u64,
    pub session: SpeculativeSession,
    pub slot_id: SlotId,
    pub max_new_tokens: usize,
    pub generated_count: usize,
    pub finished: bool,
    pub first_token_sent: bool,
    pub cancelled: bool,
    /// Accepted tokens that are yet to be handed over.
    pub outbox: Vec<TokenId>,
    /// The target model's own token that is yet to be handed over after them.
    pub correction: Option<TokenId>,
}

/// A request that could not be admitted.
#[derive(Debug)]
pub struct Refusal {
    pub id: u64,
    pub error: EngineError,
}

/// A request that left, and whether it had got all its tokens.
#[derive(Debug, Clone, Copy, PartialEq, Eq, Structural)]
pub struct Departure {
    pub id: u64,
    pub completed: bool,
}

/// The queue, the requests in service, and what serves them.
pub struct VeloScheduler<R, D, T> {
    pub engine: VeloEngine<R>,
    pub draft_model: D,
    pub target_model: T,
    pub active: Vec<ScheduledRequest>,
    pub pending: VecDeque<SchedulerRequest>,
    pub metrics: SchedulerMetrics,
    /// The id of the next request.
    pub next_id: u64,
}

// ---------------------------------------------------------------------------
// Model
// ---------------------------------------------------------------------------

/// One for something that is there.
pub open spec fn one_if(b: bool) -> nat {
    if b {
        1
    } else {
        0
    }
}

/// What every request in service keeps: its slot is one of the pool's, and the
/// tokens that were counted or wait to be handed over are part of its sequence.
pub open spec fn request_wf(req: ScheduledRequest, max_slots: nat) -> bool {
    &&& req.slot_id.0 < max_slots
    &&& req.generated_count + req.outbox@.len() + one_if(req.session@.rejected is Some) + one_if(
        req.correction is Some,
    ) <= req.session@.context.len()
}

/// The slots that requests hold.
pub open spec fn held_slots(active: Seq<ScheduledRequest>) -> Seq<u32> {
    active.map_values(|r: ScheduledRequest| r.slot_id.0)
}

/// Whether no slot is held twice, free twice, or both held and free.
pub open spec fn slots_apart(held: Seq<u32>, free: Seq<u32>) -> bool {
    &&& held.no_duplicates()
    &&& free.no_duplicates()
    &&& forall|i: int, j: int|
        0 <= i < held.len() && 0 <= j < free.len() ==> #[trigger] held[i] != #[trigger] free[j]
}

/// What a scheduler keeps.
pub open spec fn scheduler_wf<R: MemoryRuntime, D, T>(s: VeloScheduler<R, D, T>) -> bool {
    &&& engine::engine_wf(s.engine)
    &&& forall|i: int|
        0 <= i < s.active@.len() ==> request_wf(
            #[trigger] s.active@[i],
            s.engine.slots().max() as nat,
        )
    &&& s.metrics.active_slots == s.active@.len()
}

/// Whether each slot of a scheduler is in one place only. This holds from the start
/// if no slot of the engine is free twice.
pub open spec fn slots_in_order<R, D, T>(s: VeloScheduler<R, D, T>) -> bool {
    slots_apart(held_slots(s.active@), s.engine.slots()@)
}

/// Whether the slots stay in order, and what is cached stays backed by memory.
pub open spec fn keeps_order<R: MemoryRuntime, D, T>(
    before: VeloScheduler<R, D, T>,
    after: VeloScheduler<R, D, T>,
) -> bool {
    &&& slots_in_order(before) ==> slots_in_order(after)
    &&& engine::engine_backed(before.engine) ==> engine::engine_backed(after.engine)
}

/// The longest prompt of some requests.
pub open spec fn longest_prompt(reqs: Seq<SchedulerRequest>) -> nat
    decreases reqs.len(),
{
    if reqs.len() == 0 {
        0
    } else {
        let rest = longest_prompt(reqs.drop_first());
        if reqs[0].prompt@.len() > rest {
            reqs[0].prompt@.len()
        } else {
            rest
        }
    }
}

/// Whether a request in service is one that was just admitted.
pub open spec fn starts(
    decoder: SpeculativeDecoder,
    req: SchedulerRequest,
    active: ScheduledRequest,
) -> bool {
    &&& active.id == req.id
    &&& active.session@ == decoder.fresh(req.prompt@)
    &&& active.max_new_tokens == req.max_new_tokens
    &&& active.generated_count == 0
    &&& !active.finished
    &&& !active.first_token_sent
    &&& !active.cancelled
    &&& active.outbox@.len() == 0
    &&& active.correction is None
}

/// What requests are admitted to: an engine and both models.
pub struct Service<R, D, T> {
    pub engine: VeloEngine<R>,
    pub draft: D,
    pub target: T,
}

/// What serves the requests of a scheduler.
pub open spec fn service_of<R, D, T>(s: VeloScheduler<R, D, T>) -> Service<R, D, T> {
    Service { engine: s.engine, draft: s.draft_model, target: s.target_model }
}

/// Whether the memory has no room for a prompt that is not cached yet.
pub open spec fn prompt_refused<R: MemoryRuntime>(
    engine: VeloEngine<R>,
    prompt: Seq<TokenId>,
) -> bool {
    engine::wants_block(engine.cached()@, prompt) && !engine::can_hold(
        engine.memory(),
        prompt.len(),
    )
}

/// Whether the models' answer to a request that was prefilled leads to `r`.
pub open spec fn bound_or_refused<R: MemoryRuntime, D: DraftModel, T: TargetModel>(
    before: Service<R, D, T>,
    req: SchedulerRequest,
    out: EnginePrefillOutput,
    after: Service<R, D, T>,
    r: Result<ScheduledRequest, EngineError>,
) -> bool {
    let slot = SlotId(before.engine.slots()@[0]);
    &&& engine::prefilled(
        before.engine.cached()@,
        after.engine.cached()@,
        after.engine.memory().the_allocator().pages_of(),
        req.prompt@,
        out,
    )
    &&& engine::stocked(before.engine.memory(), out, after.engine.memory())
    &&& after.engine.memory().page_table() == before.engine.memory().page_table()
    &&& match r {
        Ok(active) => {
            &&& speculative::models_bound(
                slot,
                out.cached_prefix,
                before.draft,
                before.target,
                after.draft,
                after.target,
            )
            &&& starts(before.engine.decodes(), req, active)
            &&& active.slot_id == slot
        },
        Err(e) => e is Speculative && speculative::binding_refused(
            slot,
            out.cached_prefix,
            before.draft,
            before.target,
            after.draft,
            after.target,
            e->Speculative_0,
        ),
    }
}

/// What the attempt to admit a request makes of what serves it, and what comes
/// of it. A slot that was taken is gone even where the request is refused.
pub open spec fn admission<R: MemoryRuntime, D: DraftModel, T: TargetModel>(
    before: Service<R, D, T>,
    req: SchedulerRequest,
    after: Service<R, D, T>,
    r: Result<ScheduledRequest, EngineError>,
) -> bool {
    if before.engine.slots()@.len() == 0 {
        &&& after.engine.slots()@ == before.engine.slots()@
        &&& after.engine.cached() == before.engine.cached()
        &&& after.engine.memory() == before.engine.memory()
        &&& after.draft == before.draft
        &&& after.target == before.target
        &&& r is Err && r->Err_0 is Speculative && r->Err_0->Speculative_0 is Model
        &&& r->Err_0->Speculative_0.text() == "No free slots"@
    } else {
        &&& after.engine.slots()@ == before.engine.slots()@.drop_first()
        &&& if prompt_refused(before.engine, req.prompt@) {
            &&& after.draft == before.draft
            &&& after.target == before.target
            &&& r is Err && engine::prefill_failed(
                before.engine,
                req.prompt@,
                after.engine,
                r->Err_0,
            )
        } else {
            exists|out: EnginePrefillOutput| #[trigger]
                bound_or_refused(before, req, out, after, r)
        }
    }
}

/// Whether some requests, in the order in which they came, were each either
/// admitted or refused, and led from one state of what serves them to another.
pub open spec fn sorted_out<R: MemoryRuntime, D: DraftModel, T: TargetModel>(
    first: Service<R, D, T>,
    reqs: Seq<SchedulerRequest>,
    last: Service<R, D, T>,
    taken: Seq<ScheduledRequest>,
    refused: Seq<Refusal>,
) -> bool
    decreases reqs.len(),
{
    if reqs.len() == 0 {
        last == first && taken.len() == 0 && refused.len() == 0
    } else {
        ||| taken.len() > 0 && exists|mid: Service<R, D, T>| #[trigger]
            admission(mid, reqs.last(), last, Ok(taken.last())) && sorted_out(
                first,
                reqs.drop_last(),
                mid,
                taken.drop_last(),
                refused,
            )
        ||| refused.len() > 0 && refused.last().id == reqs.last().id && exists|
            mid: Service<R, D, T>,
        | #[trigger]
            admission(mid, reqs.last(), last, Err(refused.last().error)) && sorted_out(
                first,
                reqs.drop_last(),
                mid,
                taken,
                refused.drop_last(),
            )
    }
}

/// What the draft model is asked for in a round.
pub open spec fn drafts_wanted(active: Seq<ScheduledRequest>, window: usize) -> Seq<DraftAsk> {
    active.map_values(
        |req: ScheduledRequest|
            DraftAsk { context: req.session@.context, max_tokens: asked(req, window), fed: None },
    )
}

/// What the target model is asked for in a round with the given drafts.
pub open spec fn verdicts_wanted(
    active: Seq<ScheduledRequest>,
    drafts: Seq<Vec<NextTokenPrediction>>,
) -> Seq<VerifyAsk> {
    Seq::new(
        active.len(),
        |i: int|
            VerifyAsk {
                context: active[i].session@.context,
                drafted: speculative::tokens_of(drafts[i]@),
                fed: None,
            },
    )
}

/// Whether a round may take the models and the requests so far, with this
/// result: an error of a model changes no request, and otherwise the drafts and
/// the answers to them are worked in.
pub open spec fn stepped<D: DraftModel, T: TargetModel>(
    window: usize,
    draft0: D,
    target0: T,
    before: Seq<ScheduledRequest>,
    draft1: D,
    target1: T,
    after: Seq<ScheduledRequest>,
    r: Result<(), EngineError>,
) -> bool {
    exists|p: Result<Vec<Vec<NextTokenPrediction>>, SpeculativeError>, left: Seq<DraftAsk>|
        #[trigger] speculative::drafted_batch(
            draft0,
            drafts_wanted(before, window),
            draft1,
            left,
            p,
        ) && match p {
            Err(e) => target1 == target0 && after == before && r == Err::<(), EngineError>(
                EngineError::Speculative(e),
            ),
            Ok(drafts) => verdicts_settled(target0, before, drafts@, target1, after, r),
        }
}

/// Whether the target model's answer to some drafts may lead so far.
pub open spec fn verdicts_settled<T: TargetModel>(
    target0: T,
    before: Seq<ScheduledRequest>,
    drafts: Seq<Vec<NextTokenPrediction>>,
    target1: T,
    after: Seq<ScheduledRequest>,
    r: Result<(), EngineError>,
) -> bool {
    exists|v: Result<Vec<Vec<VerifyStep>>, SpeculativeError>, left: Seq<VerifyAsk>| #[trigger]
        speculative::verified_batch(
            target0,
            verdicts_wanted(before, drafts),
            target1,
            left,
            v,
        ) && match v {
            Err(e) => after == before && r == Err::<(), EngineError>(EngineError::Speculative(e)),
            Ok(answers) => all_settled(before, after, drafts, answers@, r),
        }
}

/// How many tokens a round asks for: the draft window, or what is still wanted.
pub open spec fn asked(req: ScheduledRequest, window: usize) -> usize {
    if req.max_new_tokens - req.generated_count < window {
        (req.max_new_tokens - req.generated_count) as usize
    } else {
        window
    }
}

/// How many of the first `n` drafts, from the first one on, were answered in
/// full.
pub open spec fn answered_drafts(
    drafts: Seq<Vec<NextTokenPrediction>>,
    answers: Seq<Vec<VerifyStep>>,
    n: nat,
) -> nat
    decreases n,
{
    if n == 0 {
        0
    } else {
        let before = answered_drafts(drafts, answers, (n - 1) as nat);
        if before == n - 1 && drafts[n - 1]@.len() == answers[n - 1]@.len() {
            n
        } else {
            before
        }
    }
}

/// A request before and after a round was worked in.
pub open spec fn round_settled(
    a: ScheduledRequest,
    b: ScheduledRequest,
    drafted: Seq<NextTokenPrediction>,
    verified: Seq<VerifyStep>,
) -> bool {
    let d = speculative::tokens_of(drafted);
    let e = speculative::steps_of(verified);
    &&& b.session@ == speculative::after_round(a.session@, d, e)
    &&& b.outbox@ == d.take(speculative::agreement(d, e) as int)
    &&& b.id == a.id
    &&& b.slot_id == a.slot_id
    &&& b.max_new_tokens == a.max_new_tokens
    &&& b.generated_count == a.generated_count
    &&& b.finished == a.finished
    &&& b.first_token_sent == a.first_token_sent
    &&& b.cancelled == a.cancelled
    &&& b.correction == a.correction
}

/// All requests before and after a round. Requests are worked off in order, up
/// to the first whose draft was not answered in full.
pub open spec fn all_settled(
    before: Seq<ScheduledRequest>,
    after: Seq<ScheduledRequest>,
    drafts: Seq<Vec<NextTokenPrediction>>,
    answers: Seq<Vec<VerifyStep>>,
    r: Result<(), EngineError>,
) -> bool {
    let n = answered_drafts(drafts, answers, before.len());
    &&& drafts.len() == before.len()
    &&& answers.len() == before.len()
    &&& after.len() == before.len()
    &&& n <= before.len()
    &&& forall|i: int|
        0 <= i < n ==> round_settled(
            before[i],
            #[trigger] after[i],
            drafts[i]@,
            answers[i]@,
        )
    &&& forall|i: int| n <= i < before.len() ==> #[trigger] after[i] == before[i]
    &&& r is Ok <==> n == before.len()
    &&& r is Err ==> r == Err::<(), EngineError>(
        EngineError::Speculative(
            SpeculativeError::TargetReturnedWrongLength {
                drafted: drafts[n as int]@.len() as usize,
                returned: answers[n as int]@.len() as usize,
            },
        ),
    )
}

/// The metrics after `sent` tokens were counted, and the time to the first one
/// if there was none before.
pub open spec fn counted(
    m: SchedulerMetrics,
    first: bool,
    elapsed_ms: u64,
    sent: usize,
) -> SchedulerMetrics {
    SchedulerMetrics {
        total_tokens_generated: m.total_tokens_generated.wrapping_add(sent as u64),
        total_ttft_ms: if first {
            m.total_ttft_ms.wrapping_add(elapsed_ms)
        } else {
            m.total_ttft_ms
        },
        requests_with_ttft: if first {
            m.requests_with_ttft.wrapping_add(1)
        } else {
            m.requests_with_ttft
        },
        ..m
    }
}

/// Whether a request has all its tokens.
pub open spec fn is_done(req: ScheduledRequest) -> bool {
    req.generated_count >= req.max_new_tokens || req.finished
}

/// Whether nobody waits for a request any more.
pub open spec fn is_cancelled(req: ScheduledRequest, closed: bool) -> bool {
    req.cancelled || closed
}

/// The first `n` requests without those that leave.
pub open spec fn staying(
    active: Seq<ScheduledRequest>,
    closed: Seq<bool>,
    n: nat,
) -> Seq<ScheduledRequest>
    decreases n,
{
    if n == 0 {
        Seq::empty()
    } else {
        let rest = staying(active, closed, (n - 1) as nat);
        if is_done(active[n - 1]) || is_cancelled(active[n - 1], closed[n - 1]) {
            rest
        } else {
            rest.push(active[n - 1])
        }
    }
}

/// Those of the first `n` requests that leave.
pub open spec fn leaving(
    active: Seq<ScheduledRequest>,
    closed: Seq<bool>,
    n: nat,
) -> Seq<ScheduledRequest>
    decreases n,
{
    if n == 0 {
        Seq::empty()
    } else {
        let rest = leaving(active, closed, (n - 1) as nat);
        if is_done(active[n - 1]) || is_cancelled(active[n - 1], closed[n - 1]) {
            rest.push(active[n - 1])
        } else {
            rest
        }
    }
}

/// What is reported of those of the first `n` requests that leave.
pub open spec fn departures(
    active: Seq<ScheduledRequest>,
    closed: Seq<bool>,
    n: nat,
) -> Seq<Departure>
    decreases n,
{
    if n == 0 {
        Seq::empty()
    } else {
        let rest = departures(active, closed, (n - 1) as nat);
        let req = active[n - 1];
        if is_done(req) || is_cancelled(req, closed[n - 1]) {
            rest.push(
                Departure {
                    id: req.id,
                    completed: is_done(req) && !is_cancelled(req, closed[n - 1]),
                },
            )
        } else {
            rest
        }
    }
}

/// How many departures are completions.
pub open spec fn completions(d: Seq<Departure>) -> nat
    decreases d.len(),
{
    if d.len() == 0 {
        0
    } else {
        completions(d.drop_last()) + one_if(d.last().completed)
    }
}

/// A counter that went up by `n`. Counters wrap around.
pub open spec fn counted_up(a: u64, n: nat) -> u64 {
    ((a + n) % 0x1_0000_0000_0000_0000) as u64
}

// ---------------------------------------------------------------------------
// Admission
// ---------------------------------------------------------------------------

/// Puts a request into service, on a slot that the models were bound to. Where
/// binding them failed, so does this.
pub fn start_request(
    decoder: &SpeculativeDecoder,
    req: &SchedulerRequest,
    slot_id: SlotId,
    bound: Result<(), SpeculativeError>,
) -> (r: Result<ScheduledRequest, EngineError>)
    ensures
        match bound {
            Ok(_) => r is Ok && starts(*decoder, *req, r->Ok_0) && r->Ok_0.slot_id == slot_id,
            Err(e) => r == Err::<ScheduledRequest, EngineError>(EngineError::Speculative(e)),
        },
{
    match bound {
        Ok(_) => {},
        Err(e) => {
            return Err(EngineError::from(e));
        },
    }
    let session: SpeculativeSession = match decoder.begin(&req.prompt) {
        Ok(s) => s,
        Err(e) => {
            return Err(EngineError::from(e));
        },
    };
    Ok(
        ScheduledRequest {
            id: req.id,
            session,
            slot_id,
            max_new_tokens: req.max_new_tokens,
            generated_count: 0,
            finished: false,
            first_token_sent: false,
            cancelled: false,
            outbox: Vec::new(),
            correction: None,
        },
    )
}

proof fn lemma_longest_prompt(reqs: Seq<SchedulerRequest>, i: int)
    requires
        0 <= i < reqs.len(),
    ensures
        reqs[i].prompt@.len() <= longest_prompt(reqs),
    decreases reqs.len(),
{
    if i > 0 {
        assert(reqs.drop_first()[i - 1] == reqs[i]);
        lemma_longest_prompt(reqs.drop_first(), i - 1);
    }
}

proof fn lemma_arrival(held: Seq<u32>, free: Seq<u32>)
    requires
        slots_apart(held, free),
        free.len() > 0,
    ensures
        slots_apart(held.push(free[0]), free.drop_first()),
{
    let held1 = held.push(free[0]);
    let rest = free.drop_first();
    crate::slot_manager::slots_stay_distinct(free);
    assert forall|i: int, j: int| 0 <= i < held1.len() && 0 <= j < rest.len() implies
        #[trigger] held1[i] != #[trigger] rest[j] by {
        assert(rest[j] == free[j + 1]);
        if i < held.len() {
            assert(held1[i] == held[i]);
        }
    }
    assert forall|i: int, j: int|
        0 <= i < held1.len() && 0 <= j < held1.len() && i != j implies held1[i] != held1[j] by {
        if i == held.len() {
            assert(held[j] != free[0]);
        } else if j == held.len() {
            assert(held[i] != free[0]);
        }
    }
}

impl<R: MemoryRuntime, D: DraftModel, T: TargetModel> VeloScheduler<R, D, T> {
    /// A scheduler without any request.
    pub fn new(engine: VeloEngine<R>, draft_model: D, target_model: T) -> (s: Self)
        requires
            engine::engine_wf(engine),
        ensures
            scheduler_wf(s),
            engine.slots()@.no_duplicates() ==> slots_in_order(s),
            s.engine == engine,
            s.draft_model == draft_model,
            s.target_model == target_model,
            s.active@.len() == 0,
            s.pending@.len() == 0,
            s.metrics == (SchedulerMetrics {
                total_tokens_generated: 0,
                total_requests_completed: 0,
                active_slots: 0,
                total_ttft_ms: 0,
                requests_with_ttft: 0,
            }),
            s.next_id == 0,
    {
        VeloScheduler {
            engine,
            draft_model,
            target_model,
            active: Vec::new(),
            pending: VecDeque::new(),
            metrics: SchedulerMetrics::default(),
            next_id: 0,
        }
    }

    /// Returns the scheduler metrics.
    pub fn metrics(&self) -> (m: SchedulerMetrics)
        ensures
            m == self.metrics,
    {
        self.metrics
    }

    /// Whether there is nothing to do until a request comes.
    pub fn is_idle(&self) -> (b: bool)
        ensures
            b == (self.active@.len() == 0 && self.pending@.len() == 0),
    {
        self.active.len() == 0 && self.pending.len() == 0
    }

    /// Puts a request at the end of the queue, and returns its id.
    pub fn submit(&mut self, prompt: Vec<TokenId>, max_new_tokens: usize) -> (id: u64)
        ensures
            id == old(self).next_id,
            final(self).next_id == old(self).next_id.wrapping_add(1),
            final(self).pending@.len() == old(self).pending@.len() + 1,
            final(self).pending@.drop_last() == old(self).pending@,
            final(self).pending@.last().id == id,
            final(self).pending@.last().prompt == prompt,
            final(self).pending@.last().max_new_tokens == max_new_tokens,
            final(self).pending@.last().model is None,
            final(self).engine == old(self).engine,
            final(self).draft_model == old(self).draft_model,
            final(self).target_model == old(self).target_model,
            final(self).active == old(self).active,
            final(self).metrics == old(self).metrics,
    {
        let id: u64 = self.next_id;
        self.next_id = id.wrapping_add(1);
        self.pending.push_back(SchedulerRequest { id, prompt, max_new_tokens, model: None });
        assert(self.pending@.drop_last() =~= old(self).pending@);
        id
    }

    /// Switches the models that are used. What the models answer is ignored.
    pub fn switch_models<P>(&mut self, target: &str, draft: &Option<String>, pool: &ModelPool<P>)
        ensures
            final(self).engine == old(self).engine,
            final(self).active == old(self).active,
            final(self).pending == old(self).pending,
            final(self).metrics == old(self).metrics,
            final(self).next_id == old(self).next_id,
            speculative::target_switched(
                old(self).target_model,
                target@,
                final(self).target_model,
            ),
            match draft {
                Some(name) => speculative::draft_switched(
                    old(self).draft_model,
                    name@,
                    final(self).draft_model,
                ),
                None => final(self).draft_model == old(self).draft_model,
            },
    {
        let answer: Result<(), SpeculativeError> = self.target_model.switch_model(target, pool);
        assert(speculative::target_switched_with(
            old(self).target_model,
            target@,
            self.target_model,
            answer,
        ));
        match draft {
            Some(name) => {
                let answer: Result<(), SpeculativeError> = self.draft_model.switch_model(
                    name.as_str(),
                    pool,
                );
                assert(speculative::draft_switched_with(
                    old(self).draft_model,
                    name@,
                    self.draft_model,
                    answer,
                ));
            },
            None => {},
        }
    }

    /// Gives a request a slot, prefills its prompt, and binds the models. Where
    /// that fails after a slot was taken, the slot is not given back.
    fn admit_request(
        engine: &mut VeloEngine<R>,
        draft_model: &mut D,
        target_model: &mut T,
        req: &SchedulerRequest,
    ) -> (r: Result<ScheduledRequest, EngineError>)
        requires
            engine::engine_wf(*old(engine)),
            engine::engine_room(*old(engine), 1, req.prompt@.len()),
        ensures
            engine::engine_wf(*final(engine)),
            engine::engine_backed(*old(engine)) ==> engine::engine_backed(*final(engine)),
            engine::same_service(*old(engine), *final(engine)),
            final(engine).memory().the_store().numbers_left() + 1
                >= old(engine).memory().the_store().numbers_left(),
            radix_cache::tokens_resident(final(engine).cached()@.entries)
                <= radix_cache::tokens_resident(old(engine).cached()@.entries) + req.prompt@.len(),
            admission(
                (Service {
                    engine: *old(engine),
                    draft: *old(draft_model),
                    target: *old(target_model),
                }),
                *req,
                (Service {
                    engine: *final(engine),
                    draft: *final(draft_model),
                    target: *final(target_model),
                }),
                r,
            ),
    {
        let slot_id: SlotId = match engine.allocate_slot() {
            Some(s) => s,
            None => {
                return Err(EngineError::Speculative(model_error("No free slots")));
            },
        };
        let prefill: EnginePrefillOutput = match engine.prefill(&req.prompt) {
            Ok(p) => p,
            Err(e) => {
                return Err(e);
            },
        };
        let bound: Result<(), SpeculativeError> = bind_models(
            draft_model,
            target_model,
            slot_id,
            &prefill.cached_prefix,
        );
        let r: Result<ScheduledRequest, EngineError> = start_request(
            engine.decoder(),
            req,
            slot_id,
            bound,
        );
        proof {
            let before = Service {
                engine: *old(engine),
                draft: *old(draft_model),
                target: *old(target_model),
            };
            let after = Service { engine: *engine, draft: *draft_model, target: *target_model };
            assert(bound_or_refused(before, *req, prefill, after, r));
        }
        r
    }

    /// Admits waiting requests, first come first served, as long as fewer are in
    /// service than there are slots. Returns those that were refused.
    pub fn admit_waiting(&mut self) -> (refused: Vec<Refusal>)
        requires
            scheduler_wf(*old(self)),
            engine::engine_room(
                old(self).engine,
                old(self).pending@.len(),
                longest_prompt(old(self).pending@),
            ),
        ensures
            scheduler_wf(*final(self)),
            keeps_order(*old(self), *final(self)),
            engine::same_service(old(self).engine, final(self).engine),
            engine::engine_room(
                final(self).engine,
                final(self).pending@.len(),
                longest_prompt(old(self).pending@),
            ),
            final(self).pending@.len() <= old(self).pending@.len(),
            final(self).active@.len() >= old(self).active@.len(),
            final(self).pending@ == old(self).pending@.skip(
                old(self).pending@.len() - final(self).pending@.len(),
            ),
            final(self).active@.take(old(self).active@.len() as int) == old(self).active@,
            sorted_out(
                service_of(*old(self)),
                old(self).pending@.take(old(self).pending@.len() - final(self).pending@.len()),
                service_of(*final(self)),
                final(self).active@.skip(old(self).active@.len() as int),
                refused@,
            ),
            final(self).pending@.len() == 0 || final(self).active@.len() >= final(self).engine.slots().max(),
            final(self).metrics == (SchedulerMetrics {
                active_slots: final(self).active@.len() as usize,
                ..old(self).metrics
            }),
            final(self).next_id == old(self).next_id,
    {
        let ghost before = *self;
        let ghost longest = longest_prompt(self.pending@);
        let ghost all = self.pending@;
        let ghost mut n: int = 0;
        let mut refused: Vec<Refusal> = Vec::new();
        assert(all.skip(0) =~= all);
        assert(self.active@.take(self.active@.len() as int) =~= self.active@);
        assert(self.active@.skip(self.active@.len() as int) =~= Seq::empty());
        while self.active.len() < self.engine.slot_pool_capacity() && self.pending.len() > 0
            invariant
                before == *old(self),
                all == before.pending@,
                longest == longest_prompt(all),
                0 <= n <= all.len(),
                self.pending@ == all.skip(n),
                scheduler_wf(*self),
                keeps_order(before, *self),
                engine::same_service(before.engine, self.engine),
                engine::engine_room(self.engine, self.pending@.len(), longest),
                self.active@.len() >= before.active@.len(),
                self.active@.take(before.active@.len() as int) == before.active@,
                sorted_out(
                    service_of(before),
                    all.take(n),
                    service_of(*self),
                    self.active@.skip(before.active@.len() as int),
                    refused@,
                ),
                self.metrics == (SchedulerMetrics {
                    active_slots: self.active@.len() as usize,
                    ..before.metrics
                }),
                self.next_id == before.next_id,
            decreases self.pending@.len(),
        {
            let ghost start = *self;
            let ghost left = self.pending@.len();
            match self.pending.pop_front() {
                None => {},
                Some(req) => {
                    let ghost start_engine = self.engine;
                    proof {
                        assert(req == all[n]);
                        lemma_longest_prompt(all, n);
                        assert(1 * req.prompt@.len() == req.prompt@.len());
                        assert(left * longest >= longest) by (nonlinear_arith)
                            requires
                                left >= 1,
                        ;
                        n = n + 1;
                        assert(self.pending@ =~= all.skip(n));
                        assert(all.take(n).drop_last() =~= all.take(n - 1));
                        assert(all.take(n).last() == req);
                    }
                    let outcome: Result<ScheduledRequest, EngineError> = Self::admit_request(
                        &mut self.engine,
                        &mut self.draft_model,
                        &mut self.target_model,
                        &req,
                    );
                    proof {
                        let mid = Service {
                            engine: start.engine,
                            draft: start.draft_model,
                            target: start.target_model,
                        };
                        let now = Service {
                            engine: self.engine,
                            draft: self.draft_model,
                            target: self.target_model,
                        };
                        assert(admission(mid, req, now, outcome));
                        assert((left - 1) * longest + longest == left * longest)
                            by (nonlinear_arith);
                        if start_engine.slots()@.len() > 0 && slots_in_order(start) {
                            let free = start_engine.slots()@;
                            let held = held_slots(start.active@);
                            let rest = free.drop_first();
                            assert forall|i: int, j: int|
                                0 <= i < held.len() && 0 <= j < rest.len() implies
                                #[trigger] held[i] != #[trigger] rest[j] by {
                                assert(rest[j] == free[j + 1]);
                            }
                            crate::slot_manager::slots_stay_distinct(free);
                        }
                    }
                    match outcome {
                        Ok(active_req) => {
                            self.active.push(active_req);
                            self.metrics.active_slots = self.active.len();
                            proof {
                                let taken = self.active@.skip(before.active@.len() as int);
                                assert(taken.drop_last() =~= start.active@.skip(
                                    before.active@.len() as int,
                                ));
                                assert(taken.last() == active_req);
                                assert(self.active@.take(before.active@.len() as int)
                                    =~= start.active@.take(before.active@.len() as int));
                                let free = start_engine.slots()@;
                                let held = held_slots(start.active@);
                                assert(held_slots(self.active@) =~= held.push(free[0]));
                                if slots_in_order(start) {
                                    lemma_arrival(held, free);
                                }
                                assert forall|i: int| 0 <= i < self.active@.len() implies request_wf(
                                    #[trigger] self.active@[i],
                                    self.engine.slots().max() as nat,
                                ) by {
                                    if i < start.active@.len() {
                                        assert(request_wf(
                                            start.active@[i],
                                            start.engine.slots().max() as nat,
                                        ));
                                        assert(self.active@[i] == start.active@[i]);
                                    } else {
                                        assert(start_engine.slots().in_range());
                                    }
                                }
                            }
                        },
                        Err(error) => {
                            let ghost r0 = refused@;
                            refused.push(Refusal { id: req.id, error });
                            proof {
                                assert(refused@.drop_last() =~= r0);
                                assert forall|i: int| 0 <= i < self.active@.len() implies request_wf(
                                    #[trigger] self.active@[i],
                                    self.engine.slots().max() as nat,
                                ) by {
                                    assert(request_wf(
                                        start.active@[i],
                                        start.engine.slots().max() as nat,
                                    ));
                                }
                            }
                        },
                    }
                },
            }
        }
        assert(n == all.len() - self.pending@.len());
        refused
    }
}

// ---------------------------------------------------------------------------
// Rounds
// ---------------------------------------------------------------------------

proof fn lemma_answered_drafts(
    drafts: Seq<Vec<NextTokenPrediction>>,
    answers: Seq<Vec<VerifyStep>>,
    i: nat,
    n: nat,
)
    requires
        i < n,
        answered_drafts(drafts, answers, i) == i,
        drafts[i as int]@.len() != answers[i as int]@.len(),
    ensures
        answered_drafts(drafts, answers, n) == i,
    decreases n,
{
    if i < n - 1 {
        lemma_answered_drafts(drafts, answers, i, (n - 1) as nat);
    }
}

/// Works a round into one request.
fn settle_one(
    req: &mut ScheduledRequest,
    drafted: &Vec<NextTokenPrediction>,
    verified: &Vec<VerifyStep>,
    Ghost(max_slots): Ghost<nat>,
) -> (r: Result<(), EngineError>)
    requires
        request_wf(*old(req), max_slots),
        old(req).outbox@.len() == 0,
    ensures
        request_wf(*final(req), max_slots),
        r is Ok <==> drafted@.len() == verified@.len(),
        r is Ok ==> round_settled(*old(req), *final(req), drafted@, verified@),
        r is Err ==> *final(req) == *old(req) && r == Err::<(), EngineError>(
            EngineError::Speculative(
                SpeculativeError::TargetReturnedWrongLength {
                    drafted: drafted@.len() as usize,
                    returned: verified@.len() as usize,
                },
            ),
        ),
{
    if drafted.len() != verified.len() {
        return Err(
            EngineError::Speculative(
                SpeculativeError::TargetReturnedWrongLength {
                    drafted: drafted.len(),
                    returned: verified.len(),
                },
            ),
        );
    }
    match req.session.commit(drafted, verified) {
        Ok(accepted) => {
            proof {
                speculative::lemma_agreement(
                    speculative::tokens_of(drafted@),
                    speculative::steps_of(verified@),
                );
            }
            req.outbox = accepted;
            Ok(())
        },
        Err(e) => Err(EngineError::from(e)),
    }
}

impl<R: MemoryRuntime, D: DraftModel, T: TargetModel> VeloScheduler<R, D, T> {
    /// What is asked of the draft model: for each request a draft that follows
    /// its sequence, no longer than the window and than what is still wanted.
    fn draft_requests(&self) -> (requests: Vec<DraftRequest<LlguidanceMatcher>>)
        requires
            forall|i: int|
                0 <= i < self.active@.len() ==> (#[trigger] self.active@[i]).generated_count
                    <= self.active@[i].max_new_tokens,
        ensures
            requests@.len() == self.active@.len(),
            forall|i: int|
                0 <= i < requests@.len() ==> (#[trigger] requests@[i]).context@
                    == self.active@[i].session@.context && requests@[i].max_tokens == asked(
                    self.active@[i],
                    self.engine.decodes().window(),
                ) && requests@[i].matcher is None,
    {
        let window: usize = self.engine.decoder().draft_window();
        let mut requests: Vec<DraftRequest<LlguidanceMatcher>> = Vec::with_capacity(
            self.active.len(),
        );
        let mut i: usize = 0;
        while i < self.active.len()
            invariant
                i <= self.active@.len(),
                window == self.engine.decodes().window(),
                forall|i: int|
                    0 <= i < self.active@.len() ==> (#[trigger] self.active@[i]).generated_count
                        <= self.active@[i].max_new_tokens,
                requests@.len() == i,
                forall|i: int|
                    0 <= i < requests@.len() ==> (#[trigger] requests@[i]).context@
                        == self.active@[i].session@.context && requests@[i].max_tokens == asked(
                        self.active@[i],
                        window,
                    ) && requests@[i].matcher is None,
            decreases self.active@.len() - i,
        {
            let req: &ScheduledRequest = &self.active[i];
            let remaining: usize = req.max_new_tokens - req.generated_count;
            let max_tokens: usize = if remaining < window {
                remaining
            } else {
                window
            };
            requests.push(
                DraftRequest { context: copied(req.session.context()), max_tokens, matcher: None },
            );
            i = i + 1;
        }
        requests
    }

    /// What is asked of the target model: an answer to each draft.
    fn verify_requests(&self, drafts: &Vec<Vec<NextTokenPrediction>>) -> (requests: Vec<
        VerifyRequest<LlguidanceMatcher>,
    >)
        requires
            drafts@.len() == self.active@.len(),
        ensures
            requests@.len() == self.active@.len(),
            forall|i: int|
                0 <= i < requests@.len() ==> (#[trigger] requests@[i]).context@
                    == self.active@[i].session@.context && requests@[i].drafted@
                    == speculative::tokens_of(drafts@[i]@) && requests@[i].matcher is None,
    {
        let mut requests: Vec<VerifyRequest<LlguidanceMatcher>> = Vec::with_capacity(
            self.active.len(),
        );
        let mut i: usize = 0;
        while i < self.active.len()
            invariant
                i <= self.active@.len(),
                drafts@.len() == self.active@.len(),
                requests@.len() == i,
                forall|i: int|
                    0 <= i < requests@.len() ==> (#[trigger] requests@[i]).context@
                        == self.active@[i].session@.context && requests@[i].drafted@
                        == speculative::tokens_of(drafts@[i]@) && requests@[i].matcher is None,
            decreases self.active@.len() - i,
        {
            requests.push(
                VerifyRequest {
                    context: copied(self.active[i].session.context()),
                    drafted: predicted_tokens(&drafts[i]),
                    matcher: None,
                },
            );
            i = i + 1;
        }
        requests
    }

    /// Works the drafts and the answers to them into the requests. The accepted
    /// tokens of each are then to be handed over.
    pub fn settle(
        &mut self,
        drafts: &Vec<Vec<NextTokenPrediction>>,
        answers: &Vec<Vec<VerifyStep>>,
    ) -> (r: Result<(), EngineError>)
        requires
            scheduler_wf(*old(self)),
            drafts@.len() == old(self).active@.len(),
            answers@.len() == old(self).active@.len(),
            forall|i: int|
                0 <= i < old(self).active@.len() ==> (#[trigger] old(self).active@[i]).outbox@.len() == 0,
        ensures
            scheduler_wf(*final(self)),
            keeps_order(*old(self), *final(self)),
            all_settled(old(self).active@, final(self).active@, drafts@, answers@, r),
            final(self).engine == old(self).engine,
            final(self).draft_model == old(self).draft_model,
            final(self).target_model == old(self).target_model,
            final(self).pending == old(self).pending,
            final(self).metrics == old(self).metrics,
            final(self).next_id == old(self).next_id,
    {
        let ghost before = *self;
        let len: usize = self.active.len();
        let mut i: usize = 0;
        while i < len
            invariant
                i <= len,
                before == *old(self),
                len == before.active@.len(),
                self.active@.len() == len,
                drafts@.len() == len,
                answers@.len() == len,
                scheduler_wf(before),
                self.engine == before.engine,
                self.draft_model == before.draft_model,
                self.target_model == before.target_model,
                self.pending == before.pending,
                self.metrics == before.metrics,
                self.next_id == before.next_id,
                forall|k: int|
                    0 <= k < len ==> (#[trigger] before.active@[k]).outbox@.len() == 0,
                answered_drafts(drafts@, answers@, i as nat) == i,
                forall|k: int|
                    0 <= k < i ==> round_settled(
                        before.active@[k],
                        #[trigger] self.active@[k],
                        drafts@[k]@,
                        answers@[k]@,
                    ),
                forall|k: int| i <= k < len ==> #[trigger] self.active@[k] == before.active@[k],
                forall|k: int|
                    0 <= k < len ==> request_wf(
                        #[trigger] self.active@[k],
                        before.engine.slots().max() as nat,
                    ),
                forall|k: int|
                    0 <= k < len ==> (#[trigger] self.active@[k]).slot_id
                        == before.active@[k].slot_id,
            decreases len - i,
        {
            let ghost now = self.active@;
            assert(before.active@[i as int].outbox@.len() == 0);
            let outcome: Result<(), EngineError> = settle_one(
                &mut self.active[i],
                &drafts[i],
                &answers[i],
                Ghost(before.engine.slots().max() as nat),
            );
            proof {
                assert forall|k: int| 0 <= k < len implies request_wf(
                    #[trigger] self.active@[k],
                    before.engine.slots().max() as nat,
                ) by {
                    if k != i {
                        assert(self.active@[k] == now[k]);
                    }
                }
                assert forall|k: int| 0 <= k < len implies (#[trigger] self.active@[k]).slot_id
                    == before.active@[k].slot_id by {
                    if k != i {
                        assert(self.active@[k] == now[k]);
                    }
                }
                assert forall|k: int| 0 <= k < i implies round_settled(
                    before.active@[k],
                    #[trigger] self.active@[k],
                    drafts@[k]@,
                    answers@[k]@,
                ) by {
                    assert(self.active@[k] == now[k]);
                }
                assert forall|k: int| i < k < len implies #[trigger] self.active@[k]
                    == before.active@[k] by {
                    assert(self.active@[k] == now[k]);
                }
                assert(held_slots(self.active@) =~= held_slots(before.active@));
            }
            match outcome {
                Ok(_) => {},
                Err(e) => {
                    proof {
                        lemma_answered_drafts(drafts@, answers@, i as nat, len as nat);
                    }
                    return Err(e);
                },
            }
            i = i + 1;
        }
        assert(held_slots(self.active@) =~= held_slots(before.active@));
        Ok(())
    }

    /// One round of token generation for all requests in service. The models
    /// decide what comes of it: where one of them fails, no request changes;
    /// otherwise the drafts and answers are worked in as `settle` says.
    pub fn step(&mut self) -> (r: Result<(), EngineError>)
        requires
            scheduler_wf(*old(self)),
            forall|i: int|
                0 <= i < old(self).active@.len() ==> (#[trigger] old(self).active@[i]).outbox@.len() == 0
                    && old(self).active@[i].generated_count <= old(self).active@[i].max_new_tokens,
        ensures
            scheduler_wf(*final(self)),
            keeps_order(*old(self), *final(self)),
            final(self).engine == old(self).engine,
            final(self).pending == old(self).pending,
            final(self).metrics == old(self).metrics,
            final(self).next_id == old(self).next_id,
            stepped(
                old(self).engine.decodes().window(),
                old(self).draft_model,
                old(self).target_model,
                old(self).active@,
                final(self).draft_model,
                final(self).target_model,
                final(self).active@,
                r,
            ),
    {
        let ghost window = self.engine.decodes().window();
        let ghost before = self.active@;
        let mut draft_requests: Vec<DraftRequest<LlguidanceMatcher>> = self.draft_requests();
        assert(speculative::draft_asks(draft_requests@) =~= drafts_wanted(before, window));
        let proposals: Result<Vec<Vec<NextTokenPrediction>>, SpeculativeError> =
            self.draft_model.draft_batch(&mut draft_requests);
        assert(speculative::drafted_batch(
            old(self).draft_model,
            drafts_wanted(before, window),
            self.draft_model,
            speculative::draft_asks(draft_requests@),
            proposals,
        ));
        let drafts: Vec<Vec<NextTokenPrediction>> = match proposals {
            Ok(d) => d,
            Err(e) => {
                return Err(EngineError::from(e));
            },
        };
        let mut verify_requests: Vec<VerifyRequest<LlguidanceMatcher>> = self.verify_requests(
            &drafts,
        );
        assert(speculative::verify_asks(verify_requests@) =~= verdicts_wanted(before, drafts@));
        let verdicts: Result<Vec<Vec<VerifyStep>>, SpeculativeError> =
            self.target_model.verify_batch(&mut verify_requests);
        assert(speculative::verified_batch(
            old(self).target_model,
            verdicts_wanted(before, drafts@),
            self.target_model,
            speculative::verify_asks(verify_requests@),
            verdicts,
        ));
        let answers: Vec<Vec<VerifyStep>> = match verdicts {
            Ok(a) => a,
            Err(e) => {
                let r: Result<(), EngineError> = Err(EngineError::from(e));
                assert(verdicts_settled(
                    old(self).target_model,
                    before,
                    drafts@,
                    self.target_model,
                    self.active@,
                    r,
                ));
                return r;
            },
        };
        let r: Result<(), EngineError> = self.settle(&drafts, &answers);
        assert(verdicts_settled(
            old(self).target_model,
            before,
            drafts@,
            self.target_model,
            self.active@,
            r,
        ));
        r
    }

    // -----------------------------------------------------------------------
    // Delivery
    // -----------------------------------------------------------------------

    /// Takes note that the first `sent` accepted tokens of a request reached
    /// their receiver, `elapsed_ms` after the request came into service. Where
    /// not all of them did, the request counts as cancelled. Otherwise the
    /// target model's own token, if there is one, is to be handed over next.
    pub fn record_delivery(&mut self, i: usize, sent: usize, elapsed_ms: u64) -> (next: Option<
        TokenId,
    >)
        requires
            scheduler_wf(*old(self)),
            i < old(self).active@.len(),
            sent <= old(self).active@[i as int].outbox@.len(),
            old(self).active@[i as int].correction is None,
        ensures
            scheduler_wf(*final(self)),
            keeps_order(*old(self), *final(self)),
            final(self).engine == old(self).engine,
            final(self).draft_model == old(self).draft_model,
            final(self).target_model == old(self).target_model,
            final(self).pending == old(self).pending,
            final(self).next_id == old(self).next_id,
            ({
                let a = old(self).active@[i as int];
                let b = final(self).active@[i as int];
                let n = a.outbox@.len();
                &&& final(self).active@ == old(self).active@.update(i as int, b)
                &&& b.outbox@.len() == 0
                &&& b.generated_count == a.generated_count + sent
                &&& b.cancelled == (a.cancelled || sent < n)
                &&& b.first_token_sent == (a.first_token_sent || n > 0)
                &&& b.id == a.id
                &&& b.slot_id == a.slot_id
                &&& b.max_new_tokens == a.max_new_tokens
                &&& b.finished == a.finished
                &&& b.correction == next
                &&& if b.cancelled {
                    next is None && b.session@ == a.session@
                } else {
                    next == a.session@.rejected && b.session@ == (speculative::SessionModel {
                        rejected: None,
                        ..a.session@
                    })
                }
                &&& final(self).metrics == counted(
                    old(self).metrics,
                    n > 0 && !a.first_token_sent,
                    elapsed_ms,
                    sent,
                )
            }),
    {
        let ghost before = *self;
        let total: usize = self.active[i].session.context().len();
        let n: usize = self.active[i].outbox.len();
        if n > 0 && !self.active[i].first_token_sent {
            self.metrics.total_ttft_ms = self.metrics.total_ttft_ms.wrapping_add(elapsed_ms);
            self.metrics.requests_with_ttft = self.metrics.requests_with_ttft.wrapping_add(1);
        }
        self.metrics.total_tokens_generated = self.metrics.total_tokens_generated.wrapping_add(
            sent as u64,
        );
        let req = &mut self.active[i];
        if n > 0 {
            req.first_token_sent = true;
        }
        req.generated_count = req.generated_count + sent;
        if sent < n {
            req.cancelled = true;
        }
        req.outbox = Vec::new();
        let next: Option<TokenId> = if req.cancelled {
            None
        } else {
            req.session.take_rejected_token()
        };
        req.correction = next;
        proof {
            let b = self.active@[i as int];
            assert(self.active@ =~= before.active@.update(i as int, b));
            assert(held_slots(self.active@) =~= held_slots(before.active@));
            assert forall|k: int| 0 <= k < self.active@.len() implies request_wf(
                #[trigger] self.active@[k],
                self.engine.slots().max() as nat,
            ) by {
                assert(request_wf(before.active@[k], before.engine.slots().max() as nat));
            }
        }
        next
    }

    /// Takes note of what became of the target model's own token. It counts as
    /// generated even where it did not reach its receiver; the request is then
    /// cancelled.
    pub fn record_correction(&mut self, i: usize, sent: bool, elapsed_ms: u64)
        requires
            scheduler_wf(*old(self)),
            i < old(self).active@.len(),
            old(self).active@[i as int].correction is Some,
        ensures
            scheduler_wf(*final(self)),
            keeps_order(*old(self), *final(self)),
            final(self).engine == old(self).engine,
            final(self).draft_model == old(self).draft_model,
            final(self).target_model == old(self).target_model,
            final(self).pending == old(self).pending,
            final(self).next_id == old(self).next_id,
            ({
                let a = old(self).active@[i as int];
                &&& final(self).active@ == old(self).active@.update(
                    i as int,
                    ScheduledRequest {
                        generated_count: (a.generated_count + 1) as usize,
                        cancelled: a.cancelled || !sent,
                        first_token_sent: true,
                        correction: None,
                        ..a
                    },
                )
                &&& final(self).metrics == counted(
                    old(self).metrics,
                    !a.first_token_sent,
                    elapsed_ms,
                    1,
                )
            }),
    {
        let ghost before = *self;
        let total: usize = self.active[i].session.context().len();
        assert(request_wf(before.active@[i as int], before.engine.slots().max() as nat));
        if !self.active[i].first_token_sent {
            self.metrics.total_ttft_ms = self.metrics.total_ttft_ms.wrapping_add(elapsed_ms);
            self.metrics.requests_with_ttft = self.metrics.requests_with_ttft.wrapping_add(1);
        }
        self.metrics.total_tokens_generated = self.metrics.total_tokens_generated.wrapping_add(1);
        let req = &mut self.active[i];
        req.first_token_sent = true;
        if !sent {
            req.cancelled = true;
        }
        req.generated_count = req.generated_count + 1;
        req.correction = None;
        proof {
            let b = self.active@[i as int];
            assert(self.active@ =~= before.active@.update(i as int, b));
            assert(held_slots(self.active@) =~= held_slots(before.active@));
            assert forall|k: int| 0 <= k < self.active@.len() implies request_wf(
                #[trigger] self.active@[k],
                self.engine.slots().max() as nat,
            ) by {
                assert(request_wf(before.active@[k], before.engine.slots().max() as nat));
            }
        }
    }
}

// ---------------------------------------------------------------------------
// Departure
// ---------------------------------------------------------------------------

proof fn lemma_departure(held: Seq<u32>, free: Seq<u32>, i: int)
    requires
        slots_apart(held, free),
        0 <= i < held.len(),
    ensures
        slots_apart(held.remove(i), free.push(held[i])),
{
    let held1 = held.remove(i);
    let free1 = free.push(held[i]);
    let old_place = |k: int|
        if k < i {
            k
        } else {
            k + 1
        };
    assert forall|k: int| 0 <= k < held1.len() implies held1[k] == held[old_place(k)] by {}
    assert forall|a: int, b: int|
        0 <= a < held1.len() && 0 <= b < free1.len() implies #[trigger] held1[a]
        != #[trigger] free1[b] by {
        assert(held1[a] == held[old_place(a)]);
        if b < free.len() {
            assert(held[old_place(a)] != free[b]);
        }
    }
    assert forall|a: int, b: int|
        0 <= a < free1.len() && 0 <= b < free1.len() && a != b implies free1[a] != free1[b] by {
        if a == free.len() {
            assert(held[i] != free[b]);
        } else if b == free.len() {
            assert(held[i] != free[a]);
        }
    }
}

impl<R: MemoryRuntime, D: DraftModel, T: TargetModel> VeloScheduler<R, D, T> {
    /// Removes requests that have all their tokens or whose receiver is gone,
    /// and gives their slots back. `closed` says which receivers are.
    pub fn cleanup(&mut self, closed: &[bool]) -> (gone: Vec<Departure>)
        requires
            scheduler_wf(*old(self)),
            closed@.len() == old(self).active@.len(),
        ensures
            scheduler_wf(*final(self)),
            keeps_order(*old(self), *final(self)),
            engine::same_service(old(self).engine, final(self).engine),
            final(self).engine.cached() == old(self).engine.cached(),
            final(self).engine.memory() == old(self).engine.memory(),
            final(self).draft_model == old(self).draft_model,
            final(self).target_model == old(self).target_model,
            final(self).pending == old(self).pending,
            final(self).next_id == old(self).next_id,
            ({
                let a = old(self).active@;
                let n = a.len();
                &&& final(self).active@ == staying(a, closed@, n)
                &&& gone@ == departures(a, closed@, n)
                &&& final(self).engine.slots()@ == old(self).engine.slots()@ + held_slots(
                    leaving(a, closed@, n),
                )
                &&& final(self).metrics == (SchedulerMetrics {
                    active_slots: staying(a, closed@, n).len() as usize,
                    total_requests_completed: counted_up(
                        old(self).metrics.total_requests_completed,
                        completions(gone@),
                    ),
                    ..old(self).metrics
                })
            }),
    {
        let ghost before = *self;
        let ghost a = self.active@;
        let len: usize = self.active.len();
        let mut gone: Vec<Departure> = Vec::new();
        let mut i: usize = 0;
        let mut k: usize = 0;
        proof {
            assert(a.skip(0) =~= a);
            assert(staying(a, closed@, 0) + a.skip(0) =~= a);
            assert(before.engine.slots()@ + held_slots(leaving(a, closed@, 0))
                =~= before.engine.slots()@);
        }
        while k < len
            invariant
                k <= len,
                before == *old(self),
                a == before.active@,
                len == a.len(),
                closed@.len() == len,
                scheduler_wf(*self),
                keeps_order(before, *self),
                engine::same_service(before.engine, self.engine),
                self.engine.cached() == before.engine.cached(),
                self.engine.memory() == before.engine.memory(),
                self.draft_model == before.draft_model,
                self.target_model == before.target_model,
                self.pending == before.pending,
                self.next_id == before.next_id,
                i == staying(a, closed@, k as nat).len(),
                self.active@ == staying(a, closed@, k as nat) + a.skip(k as int),
                gone@ == departures(a, closed@, k as nat),
                self.engine.slots()@ == before.engine.slots()@ + held_slots(
                    leaving(a, closed@, k as nat),
                ),
                self.metrics == (SchedulerMetrics {
                    active_slots: self.active@.len() as usize,
                    total_requests_completed: counted_up(
                        before.metrics.total_requests_completed,
                        completions(gone@),
                    ),
                    ..before.metrics
                }),
            decreases len - k,
        {
            let ghost now = *self;
            let ghost left = a.skip(k as int);
            assert(self.active@[i as int] == a[k as int]);
            let done: bool = self.active[i].generated_count >= self.active[i].max_new_tokens
                || self.active[i].finished;
            let cancelled: bool = self.active[i].cancelled || closed[k];
            if done || cancelled {
                let req: ScheduledRequest = self.active.remove(i);
                assert(request_wf(now.active@[i as int], now.engine.slots().max() as nat));
                self.engine.release_slot(req.slot_id);
                self.metrics.active_slots = self.active.len();
                let completed: bool = done && !cancelled;
                if completed {
                    self.metrics.total_requests_completed =
                    self.metrics.total_requests_completed.wrapping_add(1);
                }
                let ghost g0 = gone@;
                gone.push(Departure { id: req.id, completed });
                proof {
                    assert(gone@.drop_last() =~= g0);
                    let held = held_slots(now.active@);
                    if slots_in_order(now) {
                        lemma_departure(held, now.engine.slots()@, i as int);
                    }
                    assert(held_slots(self.active@) =~= held.remove(i as int));
                    assert(self.active@ =~= staying(a, closed@, (k + 1) as nat) + a.skip(k + 1));
                    assert(self.engine.slots()@ =~= before.engine.slots()@ + held_slots(
                        leaving(a, closed@, (k + 1) as nat),
                    ));
                    assert forall|j: int| 0 <= j < self.active@.len() implies request_wf(
                        #[trigger] self.active@[j],
                        self.engine.slots().max() as nat,
                    ) by {
                        if j < i {
                            assert(self.active@[j] == now.active@[j]);
                        } else {
                            assert(self.active@[j] == now.active@[j + 1]);
                        }
                    }
                }
            } else {
                i = i + 1;
                assert(self.active@ =~= staying(a, closed@, (k + 1) as nat) + a.skip(k + 1));
            }
            k = k + 1;
        }
        assert(self.active@ =~= staying(a, closed@, len as nat));
        gone
    }
}

// ---------------------------------------------------------------------------
// Laws
// ---------------------------------------------------------------------------

/// Isolation of requests: where the slots are in order, no two requests in service
/// share a slot, and none holds a slot that is free.
pub proof fn active_requests_hold_their_own_slots<R, D, T>(
    s: VeloScheduler<R, D, T>,
    i: int,
    j: int,
)
    requires
        slots_in_order(s),
        0 <= i < s.active@.len(),
        0 <= j < s.active@.len(),
        i != j,
    ensures
        s.active@[i].slot_id != s.active@[j].slot_id,
        !s.engine.slots()@.contains(s.active@[i].slot_id.0),
{
    let held = held_slots(s.active@);
    let free = s.engine.slots()@;
    assert(held[i] != held[j]);
    assert forall|k: int| 0 <= k < free.len() implies free[k] != s.active@[i].slot_id.0 by {
        assert(held[i] != free[k]);
    }
}

/// What a user gets of a round is what the sequence of the request gained: the
/// accepted tokens, then the target model's own token if there is one.
pub proof fn users_get_what_the_sequence_gains(
    a: ScheduledRequest,
    b: ScheduledRequest,
    drafted: Seq<NextTokenPrediction>,
    verified: Seq<VerifyStep>,
)
    requires
        drafted.len() == verified.len(),
        round_settled(a, b, drafted, verified),
    ensures
        b.session@.context == a.session@.context + b.outbox@ + (match b.session@.rejected {
            Some(t) => seq![t],
            None => seq![],
        }),
{
    let d = speculative::tokens_of(drafted);
    let e = speculative::steps_of(verified);
    speculative::lemma_agreement(d, e);
    let tail: Seq<TokenId> = match b.session@.rejected {
        Some(t) => seq![t],
        None => seq![],
    };
    assert(speculative::gained(d, e) =~= b.outbox@ + tail);
    assert(b.session@.context =~= a.session@.context + b.outbox@ + tail);
}

/// Nobody is lost: every request in service either stays or departs.
pub proof fn everyone_stays_or_departs(
    active: Seq<ScheduledRequest>,
    closed: Seq<bool>,
    n: nat,
)
    requires
        n <= active.len(),
    ensures
        staying(active, closed, n).len() + departures(active, closed, n).len() == n,
        leaving(active, closed, n).len() == departures(active, closed, n).len(),
        forall|i: int|
            0 <= i < staying(active, closed, n).len() ==> !is_done(
                #[trigger] staying(active, closed, n)[i],
            ),
        forall|i: int|
            0 <= i < departures(active, closed, n).len() ==> (#[trigger] departures(
                active,
                closed,
                n,
            )[i]).id == leaving(active, closed, n)[i].id,
    decreases n,
{
    if n > 0 {
        let m = (n - 1) as nat;
        everyone_stays_or_departs(active, closed, m);
        let s0 = staying(active, closed, m);
        let s = staying(active, closed, n);
        assert forall|i: int| 0 <= i < s.len() implies !is_done(#[trigger] s[i]) by {
            if i < s0.len() {
                assert(s[i] == s0[i]);
                assert(!is_done(s0[i]));
            }
        }
        let d0 = departures(active, closed, m);
        let d = departures(active, closed, n);
        assert forall|i: int| 0 <= i < d.len() implies (#[trigger] d[i]).id == leaving(
            active,
            closed,
            n,
        )[i].id by {
            if i < d0.len() {
                assert(d[i] == d0[i]);
                assert(d0[i].id == leaving(active, closed, m)[i].id);
            }
        }
    }
}

/// A slot that a departing request held can be given to the next request: after
/// a departure, with no request in service and none refused, all slots are free.
pub proof fn departures_free_their_slots(
    active: Seq<ScheduledRequest>,
    closed: Seq<bool>,
    n: nat,
)
    requires
        n <= active.len(),
        forall|i: int|
            0 <= i < n ==> is_done(#[trigger] active[i]) || is_cancelled(active[i], closed[i]),
    ensures
        staying(active, closed, n).len() == 0,
        held_slots(leaving(active, closed, n)) == held_slots(active.take(n as int)),
    decreases n,
{
    if n > 0 {
        departures_free_their_slots(active, closed, (n - 1) as nat);
        assert(is_done(active[n - 1]) || is_cancelled(active[n - 1], closed[n - 1]));
        assert(held_slots(leaving(active, closed, n)) =~= held_slots(
            active.take(n as int - 1),
        ).push(active[n - 1].slot_id.0));
    }
    assert(held_slots(leaving(active, closed, n)) =~= held_slots(active.take(n as int)));
}

/// Whether `after` is `before`, continued with the tokens of `next`.
pub open spec fn continued_by(
    before: Seq<TokenId>,
    after: Seq<TokenId>,
    next: spec_fn(Seq<TokenId>) -> TokenId,
) -> bool {
    &&& before.is_prefix_of(after)
    &&& forall|k: int|
        before.len() <= k < after.len() ==> #[trigger] after[k] == next(after.take(k))
}

/// Rounds change nothing but the speed: if the target model's token is a function
/// `next` of the text before it, then a round continues every sequence in service
/// with the tokens that the target model alone would have produced, whatever the
/// draft model proposed.
pub proof fn rounds_give_the_target_models_tokens<D: DraftModel, T: TargetModel>(
    window: usize,
    draft0: D,
    target0: T,
    before: Seq<ScheduledRequest>,
    draft1: D,
    target1: T,
    after: Seq<ScheduledRequest>,
    holds: spec_fn(T) -> bool,
    next: spec_fn(Seq<TokenId>) -> TokenId,
    i: int,
)
    requires
        stepped(window, draft0, target0, before, draft1, target1, after, Ok(())),
        holds(target0),
        engine::follows_in_batches(holds, next),
        0 <= i < before.len(),
    ensures
        holds(target1),
        continued_by(before[i].session@.context, after[i].session@.context, next),
{
    let r: Result<(), EngineError> = Ok(());
    let (p, left) = choose|
        p: Result<Vec<Vec<NextTokenPrediction>>, SpeculativeError>,
        left: Seq<DraftAsk>,
    | #[trigger]
        speculative::drafted_batch(draft0, drafts_wanted(before, window), draft1, left, p)
            && match p {
            Err(e) => false,
            Ok(drafts) => verdicts_settled(target0, before, drafts@, target1, after, r),
        };
    let drafts = p->Ok_0@;
    let asks = verdicts_wanted(before, drafts);
    let (v, vleft) = choose|
        v: Result<Vec<Vec<VerifyStep>>, SpeculativeError>,
        left: Seq<VerifyAsk>,
    | #[trigger]
        speculative::verified_batch(target0, asks, target1, left, v) && match v {
            Err(e) => false,
            Ok(answers) => all_settled(before, after, drafts, answers@, r),
        };
    let answers = v->Ok_0@;
    assert(speculative::verified_batch(target0, asks, target1, vleft, Ok(v->Ok_0)));
    assert(asks[i].fed is None);
    assert(engine::answers_as(asks[i], answers[i]@, next));
    assert(round_settled(before[i], after[i], drafts[i]@, answers[i]@));
    lemma_answered_in_full(drafts, answers, before.len(), i);
    let context = before[i].session@.context;
    let d = speculative::tokens_of(drafts[i]@);
    let e = speculative::steps_of(answers[i]@);
    assert forall|j: int| 0 <= j < d.len() implies #[trigger] e[j] == next(context + d.take(j)) by {
        assert(e[j] == answers[i]@[j].expected);
    }
    speculative::round_gains_the_target_models_tokens(context, d, e, next);
    let g = speculative::gained(d, e);
    let now = after[i].session@.context;
    assert(now == context + g);
    assert forall|k: int| context.len() <= k < now.len() implies #[trigger] now[k] == next(
        now.take(k),
    ) by {
        let j = k - context.len();
        assert(g[j] == now[k]);
        assert(now.take(k) =~= context + g.take(j));
    }
}

proof fn lemma_answered_in_full(
    drafts: Seq<Vec<NextTokenPrediction>>,
    answers: Seq<Vec<VerifyStep>>,
    n: nat,
    i: int,
)
    requires
        answered_drafts(drafts, answers, n) == n,
        0 <= i < n,
    ensures
        drafts[i]@.len() == answers[i]@.len(),
    decreases n,
{
    lemma_answered_at_most(drafts, answers, (n - 1) as nat);
    if i < n - 1 {
        lemma_answered_in_full(drafts, answers, (n - 1) as nat, i);
    }
}

proof fn lemma_answered_at_most(
    drafts: Seq<Vec<NextTokenPrediction>>,
    answers: Seq<Vec<VerifyStep>>,
    n: nat,
)
    ensures
        answered_drafts(drafts, answers, n) <= n,
    decreases n,
{
    if n > 0 {
        lemma_answered_at_most(drafts, answers, (n - 1) as nat);
    }
}

/// A round asks for no more tokens than the window has room for and than are still
/// wanted, and for one of the two.
pub proof fn rounds_ask_for_what_is_wanted(req: ScheduledRequest, window: usize)
    requires
        req.generated_count <= req.max_new_tokens,
    ensures
        asked(req, window) <= window,
        req.generated_count + asked(req, window) <= req.max_new_tokens,
        asked(req, window) == window || req.generated_count + asked(req, window)
            == req.max_new_tokens,
{
}

/// A request leaves when it has all its tokens, is finished, was cancelled, or nobody
/// waits for it, and stays otherwise. Whoever leaves with all tokens and was waited
/// for to the end counts as completed.
pub proof fn requests_leave_when_they_are_through(
    active: Seq<ScheduledRequest>,
    closed: Seq<bool>,
    n: nat,
    i: int,
)
    requires
        n <= active.len(),
        0 <= i < n,
    ensures
        ({
            let req = active[i];
            let through = req.generated_count >= req.max_new_tokens || req.finished;
            let dropped = req.cancelled || closed[i];
            &&& through || dropped ==> leaving(active, closed, n).contains(req)
            &&& !through && !dropped ==> staying(active, closed, n).contains(req)
            &&& through || dropped ==> exists|k: int|
                0 <= k < departures(active, closed, n).len() && (#[trigger] departures(
                    active,
                    closed,
                    n,
                )[k]).id == req.id && departures(active, closed, n)[k].completed == (through
                    && !dropped)
        }),
    decreases n,
{
    let req = active[i];
    let s = staying(active, closed, n);
    let l = leaving(active, closed, n);
    let d = departures(active, closed, n);
    let s0 = staying(active, closed, (n - 1) as nat);
    let l0 = leaving(active, closed, (n - 1) as nat);
    let d0 = departures(active, closed, (n - 1) as nat);
    let through = req.generated_count >= req.max_new_tokens || req.finished;
    let dropped = req.cancelled || closed[i];
    if i < n - 1 {
        requests_leave_when_they_are_through(active, closed, (n - 1) as nat, i);
        if through || dropped {
            let a = choose|a: int| 0 <= a < l0.len() && l0[a] == req;
            assert(l[a] == req);
            let k = choose|k: int|
                0 <= k < d0.len() && (#[trigger] d0[k]).id == req.id && d0[k].completed == (through
                    && !dropped);
            assert(d[k] == d0[k]);
        } else {
            let a = choose|a: int| 0 <= a < s0.len() && s0[a] == req;
            assert(s[a] == req);
        }
    } else {
        if through || dropped {
            assert(l[l0.len() as int] == req);
            assert(d[d0.len() as int].id == req.id);
        } else {
            assert(s[s0.len() as int] == req);
        }
    }
}

/// The drafts that count as answered are those before the first whose answer has
/// another length.
pub proof fn answers_count_up_to_the_first_short_one(
    drafts: Seq<Vec<NextTokenPrediction>>,
    answers: Seq<Vec<VerifyStep>>,
    n: nat,
)
    ensures
        ({
            let k = answered_drafts(drafts, answers, n);
            &&& k <= n
            &&& forall|i: int|
                0 <= i < k ==> (#[trigger] drafts[i])@.len() == (#[trigger] answers[i])@.len()
            &&& k < n ==> drafts[k as int]@.len() != answers[k as int]@.len()
        }),
    decreases n,
{
    if n > 0 {
        answers_count_up_to_the_first_short_one(drafts, answers, (n - 1) as nat);
    }
}

/// Tokens are counted as they are sent, and the time to the first one once for each
/// request.
pub proof fn first_tokens_are_timed_once(
    m: SchedulerMetrics,
    first_ms: u64,
    later_ms: u64,
    a: usize,
    b: usize,
)
    requires
        m.total_tokens_generated + a + b <= u64::MAX,
        m.total_ttft_ms + first_ms <= u64::MAX,
        m.requests_with_ttft < u64::MAX,
    ensures
        ({
            let after = counted(counted(m, true, first_ms, a), false, later_ms, b);
            &&& after.total_tokens_generated == m.total_tokens_generated + a + b
            &&& after.total_ttft_ms == m.total_ttft_ms + first_ms
            &&& after.requests_with_ttft == m.requests_with_ttft + 1
            &&& after.active_slots == m.active_slots
        }),
{
}

/// No prompt is longer than the longest, and one is as long.
pub proof fn the_longest_prompt_is_one_of_them(reqs: Seq<SchedulerRequest>, i: int)
    ensures
        0 <= i < reqs.len() ==> reqs[i].prompt@.len() <= longest_prompt(reqs),
        reqs.len() > 0 ==> exists|k: int|
            0 <= k < reqs.len() && (#[trigger] reqs[k]).prompt@.len() == longest_prompt(reqs),
    decreases reqs.len(),
{
    if reqs.len() > 0 {
        let rest = reqs.drop_first();
        the_longest_prompt_is_one_of_them(rest, i - 1);
        if 0 < i < reqs.len() {
            assert(rest[i - 1] == reqs[i]);
        }
        if reqs[0].prompt@.len() >= longest_prompt(reqs) {
            assert(reqs[0].prompt@.len() == longest_prompt(reqs));
        } else {
            let k = choose|k: int|
                0 <= k < rest.len() && (#[trigger] rest[k]).prompt@.len() == longest_prompt(rest);
            assert(reqs[k + 1].prompt@.len() == longest_prompt(reqs));
        }
    }
}


/// Departures are counted one by one: as many completions as there are departures that
/// completed.
pub proof fn completed_departures_are_counted(d: Seq<Departure>)
    ensures
        completions(d) == d.filter(|x: Departure| x.completed).len(),
        completions(d) <= d.len(),
    decreases d.len(),
{
    reveal(Seq::filter);
    if d.len() > 0 {
        completed_departures_are_counted(d.drop_last());
    }
}

/// A counter goes up by what is counted as long as it has room for it, and to count twice
/// is to count the sum.
pub proof fn counters_go_up(a: u64, m: nat, n: nat)
    ensures
        a + n <= u64::MAX ==> counted_up(a, n) == a + n,
        counted_up(counted_up(a, m), n) == counted_up(a, m + n),
{
    let full = 0x1_0000_0000_0000_0000int;
    let once = (a + m) % full;
    vstd::arithmetic::div_mod::lemma_add_mod_noop(a as int + m, n as int, full);
    vstd::arithmetic::div_mod::lemma_add_mod_noop(once, n as int, full);
    vstd::arithmetic::div_mod::lemma_mod_twice(a as int + m, full);
    vstd::arithmetic::div_mod::lemma_mod_bound(a as int + m, full);
    vstd::arithmetic::div_mod::lemma_mod_bound(a as int + m + n, full);
    if a + n <= u64::MAX {
        vstd::arithmetic::div_mod::lemma_small_mod((a + n) as nat, full as nat);
    }
}

/// A request is admitted only to a slot that was free, the one that waited longest, and
/// starts there with its own prompt and limit; without a free slot it is refused and
/// nothing changes.
pub proof fn requests_are_admitted_to_free_slots<R: MemoryRuntime, D: DraftModel, T: TargetModel>(
    before: Service<R, D, T>,
    req: SchedulerRequest,
    after: Service<R, D, T>,
    r: Result<ScheduledRequest, EngineError>,
)
    requires
        admission(before, req, after, r),
    ensures
        before.engine.slots()@.len() == 0 ==> r is Err && after.engine.slots()@.len() == 0
            && after.draft == before.draft && after.target == before.target,
        before.engine.slots()@.len() > 0 ==> after.engine.slots()@.len() + 1
            == before.engine.slots()@.len(),
        r is Ok ==> {
            let active = r->Ok_0;
            &&& before.engine.slots()@.len() > 0
            &&& active.slot_id.0 == before.engine.slots()@[0]
            &&& active.id == req.id
            &&& active.session@.prompt == req.prompt@ && active.session@.context == req.prompt@
            &&& active.max_new_tokens == req.max_new_tokens
            &&& active.generated_count == 0 && !active.finished && !active.cancelled
        },
{
}

/// Every request that waits is either taken or refused, and none of them twice; those
/// that are taken keep their order.
pub proof fn waiting_requests_are_taken_or_refused<R: MemoryRuntime, D: DraftModel, T: TargetModel>(
    first: Service<R, D, T>,
    reqs: Seq<SchedulerRequest>,
    last: Service<R, D, T>,
    taken: Seq<ScheduledRequest>,
    refused: Seq<Refusal>,
)
    requires
        sorted_out(first, reqs, last, taken, refused),
    ensures
        taken.len() + refused.len() == reqs.len(),
        forall|i: int|
            0 <= i < taken.len() ==> exists|k: int|
                i <= k < reqs.len() && (#[trigger] reqs[k]).id == (#[trigger] taken[i]).id,
        forall|i: int|
            0 <= i < refused.len() ==> exists|k: int|
                i <= k < reqs.len() && (#[trigger] reqs[k]).id == (#[trigger] refused[i]).id,
    decreases reqs.len(),
{
    if reqs.len() > 0 {
        let n = reqs.len() - 1;
        let front = reqs.drop_last();
        if taken.len() > 0 && exists|mid: Service<R, D, T>| #[trigger]
            admission(mid, reqs.last(), last, Ok(taken.last())) && sorted_out(
                first,
                front,
                mid,
                taken.drop_last(),
                refused,
            ) {
            let mid = choose|mid: Service<R, D, T>| #[trigger]
                admission(mid, reqs.last(), last, Ok(taken.last())) && sorted_out(
                    first,
                    front,
                    mid,
                    taken.drop_last(),
                    refused,
                );
            waiting_requests_are_taken_or_refused(first, front, mid, taken.drop_last(), refused);
            requests_are_admitted_to_free_slots(mid, reqs.last(), last, Ok(taken.last()));
            assert forall|i: int| 0 <= i < taken.len() implies exists|k: int|
                i <= k < reqs.len() && (#[trigger] reqs[k]).id == (#[trigger] taken[i]).id by {
                if i < taken.len() - 1 {
                    assert(taken.drop_last()[i] == taken[i]);
                    let k = choose|k: int|
                        i <= k < front.len() && (#[trigger] front[k]).id
                            == taken.drop_last()[i].id;
                    assert(reqs[k] == front[k]);
                } else {
                    assert(reqs[n].id == taken[i].id);
                }
            }
            assert forall|i: int| 0 <= i < refused.len() implies exists|k: int|
                i <= k < reqs.len() && (#[trigger] reqs[k]).id == (#[trigger] refused[i]).id by {
                let k = choose|k: int|
                    i <= k < front.len() && (#[trigger] front[k]).id == refused[i].id;
                assert(reqs[k] == front[k]);
            }
        } else {
            let mid = choose|mid: Service<R, D, T>| #[trigger]
                admission(mid, reqs.last(), last, Err(refused.last().error)) && sorted_out(
                    first,
                    front,
                    mid,
                    taken,
                    refused.drop_last(),
                );
            waiting_requests_are_taken_or_refused(first, front, mid, taken, refused.drop_last());
            assert forall|i: int| 0 <= i < taken.len() implies exists|k: int|
                i <= k < reqs.len() && (#[trigger] reqs[k]).id == (#[trigger] taken[i]).id by {
                let k = choose|k: int|
                    i <= k < front.len() && (#[trigger] front[k]).id == taken[i].id;
                assert(reqs[k] == front[k]);
            }
            assert forall|i: int| 0 <= i < refused.len() implies exists|k: int|
                i <= k < reqs.len() && (#[trigger] reqs[k]).id == (#[trigger] refused[i]).id by {
                if i < refused.len() - 1 {
                    assert(refused.drop_last()[i] == refused[i]);
                    let k = choose|k: int|
                        i <= k < front.len() && (#[trigger] front[k]).id
                            == refused.drop_last()[i].id;
                    assert(reqs[k] == front[k]);
                } else {
                    assert(reqs[n].id == refused[i].id);
                }
            }
        }
    }
}
} // verus!
