//! Benchmark suite for measuring engine performance.
//!
//! This module runs the measured work, labels it, and reads the reports of other
//! benchmarks. Averages and rates are up to the caller.

use std::time::Instant;
use vstd::prelude::*;
use vstd::string::*;
use crate::backend;
use crate::backend::{GreedyDraftModel, GreedyTargetModel};
use crate::engine;
use crate::engine::{
    EngineConfig, EngineError, EngineOutput, EnginePrefillOutput, EngineStats, VeloEngine,
};
use crate::metal::types::Quantization;
use crate::mock_backend;
use crate::mock_backend::MockBackend;
use crate::paged_attention::PageManagerError;
use crate::radix_cache;
use crate::radix_cache::{CacheLookup, TokenId};
use crate::runtime::{KvBlockStore, MemoryRuntime, PagedBlockAllocator};
use crate::scalar::F64;
use crate::speculative;
use crate::speculative::{
    append_tokens, DraftModel, NextTokenPrediction, SpeculativeError, SpeculativeOutput,
    SpeculativeSession, SpeculativeStats, TargetModel,
};
use crate::text;
use crate::text::{
    characters, is_blank, joined, lines, push_decimal, read_u128, read_usize, same_text,
    text_contains, text_with_number,
};

verus! {

#[verifier::external_type_specification]
#[verifier::external_body]
pub struct ExInstant(std::time::Instant);

/// `Instant::now` reads the clock. Nothing is known of what it shows.
pub assume_specification[ std::time::Instant::now ]() -> std::time::Instant
;

/// `Instant::elapsed` reads the clock. Nothing is known of what it shows.
pub assume_specification[ std::time::Instant::elapsed ](
    instant: &std::time::Instant,
) -> std::time::Duration
;

/// `Duration::as_nanos` gives the nanoseconds of a duration, of which nothing is
/// known here.
pub assume_specification[ std::time::Duration::as_nanos ](
    duration: &std::time::Duration,
) -> u128
;

// ---------------------------------------------------------------------------
// Configuration and results
// ---------------------------------------------------------------------------

#[derive(Debug, Clone, Copy, PartialEq, Eq, Structural)]
pub enum BenchmarkMode {
    PromptProcessing,
    Generation,
    PromptPlusGeneration,
}

#[derive(Debug, Clone, Copy, PartialEq, Eq, Structural)]
pub enum BenchmarkFormat {
    Markdown,
    Csv,
    Json,
}

#[derive(Debug, Clone, PartialEq)]
pub struct BenchmarkConfig {
    pub mode: BenchmarkMode,
    pub prompt_len: usize,
    pub gen_len: usize,
    pub cached_depth: usize,
    pub repetitions: usize,
    pub warmups: usize,
    pub draft_window: usize,
    pub bytes_per_token: usize,
    pub page_tokens: usize,
    pub total_pages: usize,
    pub quantization: Quantization,
    pub model_name: String,
    pub backend_name: String,
    pub measure_power: bool,
    pub model_params_billions: F64,
    pub roofline: bool,
}

#[derive(Debug, Clone, Copy, PartialEq)]
pub struct BenchmarkSample {
    pub elapsed_ns: u128,
    pub ttft_ns: Option<u128>,
    pub tokens: usize,
    pub cache_hit_tokens: usize,
    pub cache_miss_tokens: usize,
    pub speculative: SpeculativeStats,
    pub energy_uj: Option<u128>,
    pub achieved_gb_s: Option<F64>,
    pub achieved_tflops: Option<F64>,
}

#[derive(Debug, Clone, PartialEq)]
pub struct BenchmarkRow {
    pub model_name: String,
    pub backend_name: String,
    pub test: String,
    pub mode: BenchmarkMode,
    pub prompt_len: usize,
    pub gen_len: usize,
    pub cached_depth: usize,
    pub repetitions: usize,
    pub warmups: usize,
    pub avg_ns: F64,
    pub stddev_ns: F64,
    pub avg_ts: F64,
    pub stddev_ts: F64,
    pub avg_ttft_ns: Option<F64>,
    pub avg_cache_hit_tokens: F64,
    pub avg_cache_miss_tokens: F64,
    pub avg_draft_calls: F64,
    pub avg_target_calls: F64,
    pub avg_accepted_tokens: F64,
    pub avg_rejected_tokens: F64,
    pub p50_ns: F64,
    pub p90_ns: F64,
    pub p99_ns: F64,
    pub avg_power_w: Option<F64>,
    pub tokens_per_joule: Option<F64>,
    pub joules_per_token: Option<F64>,
    pub baseline_avg_ts: Option<F64>,
    pub speedup_vs_baseline: Option<F64>,
    pub achieved_gb_s: Option<F64>,
    pub achieved_tflops: Option<F64>,
    pub bw_utilization: Option<F64>,
}

#[derive(Debug, Clone, PartialEq)]
pub struct BenchmarkReport {
    pub rows: Vec<BenchmarkRow>,
}

impl BenchmarkMode {
    pub open spec fn text(self) -> Seq<char> {
        match self {
            BenchmarkMode::PromptProcessing => "prompt-processing"@,
            BenchmarkMode::Generation => "generation"@,
            BenchmarkMode::PromptPlusGeneration => "prompt-plus-generation"@,
        }
    }

    pub fn to_string(&self) -> (s: String)
        ensures
            s@ == self.text(),
    {
        match self {
            BenchmarkMode::PromptProcessing => String::from_str("prompt-processing"),
            BenchmarkMode::Generation => String::from_str("generation"),
            BenchmarkMode::PromptPlusGeneration => String::from_str("prompt-plus-generation"),
        }
    }
}

impl BenchmarkFormat {
    pub open spec fn text(self) -> Seq<char> {
        match self {
            BenchmarkFormat::Markdown => "markdown"@,
            BenchmarkFormat::Csv => "csv"@,
            BenchmarkFormat::Json => "json"@,
        }
    }

    pub fn to_string(&self) -> (s: String)
        ensures
            s@ == self.text(),
    {
        match self {
            BenchmarkFormat::Markdown => String::from_str("markdown"),
            BenchmarkFormat::Csv => String::from_str("csv"),
            BenchmarkFormat::Json => String::from_str("json"),
        }
    }
}

/// The tokens from 0 up to the lowest 32 bits of `n`.
pub open spec fn counting(n: usize) -> Seq<TokenId> {
    Seq::new((n as u32) as nat, |i: int| i as u32)
}

/// The tokens from 0 up to the lowest 32 bits of `n`.
fn counting_tokens(n: usize) -> (v: Vec<TokenId>)
    ensures
        v@ == counting(n),
{
    let end: u32 = n as u32;
    let mut v: Vec<TokenId> = Vec::new();
    let mut i: u32 = 0;
    while i < end
        invariant
            i <= end,
            v@ == Seq::new(i as nat, |i: int| i as u32),
        decreases end - i,
    {
        v.push(i);
        i = i + 1;
        assert(v@ =~= Seq::new(i as nat, |i: int| i as u32));
    }
    v
}

/// How many tokens a mode works on.
pub open spec fn tokens_of_mode(mode: BenchmarkMode, prompt_len: usize, gen_len: usize) -> nat {
    match mode {
        BenchmarkMode::PromptProcessing => prompt_len as nat,
        BenchmarkMode::Generation => gen_len as nat,
        BenchmarkMode::PromptPlusGeneration => prompt_len as nat + gen_len as nat,
    }
}

fn mode_tokens(mode: BenchmarkMode, prompt_len: usize, gen_len: usize) -> (n: usize)
    requires
        tokens_of_mode(mode, prompt_len, gen_len) <= usize::MAX,
    ensures
        n == tokens_of_mode(mode, prompt_len, gen_len),
{
    match mode {
        BenchmarkMode::PromptProcessing => prompt_len,
        BenchmarkMode::Generation => gen_len,
        BenchmarkMode::PromptPlusGeneration => prompt_len + gen_len,
    }
}

impl BenchmarkConfig {
    pub fn prompt_tokens(&self) -> (v: Vec<TokenId>)
        ensures
            v@ == counting(self.prompt_len),
    {
        counting_tokens(self.prompt_len)
    }

    pub fn script_tokens(&self) -> (v: Vec<TokenId>)
        requires
            self.prompt_len + self.gen_len + 16 <= usize::MAX,
        ensures
            v@ == counting((self.prompt_len + self.gen_len + 16) as usize),
    {
        counting_tokens(self.prompt_len + self.gen_len + 16)
    }
}

impl BenchmarkRow {
    pub fn tokens_processed(&self) -> (n: usize)
        requires
            tokens_of_mode(self.mode, self.prompt_len, self.gen_len) <= usize::MAX,
        ensures
            n == tokens_of_mode(self.mode, self.prompt_len, self.gen_len),
    {
        mode_tokens(self.mode, self.prompt_len, self.gen_len)
    }
}

// ---------------------------------------------------------------------------
// Energy
// ---------------------------------------------------------------------------

/// Orchestrates energy measurement during benchmarks.
///
/// The spec function describes it. It says nothing unless an implementation
/// defines it.
pub trait EnergyMonitor {
    /// Whether a measurement may come out so.
    open spec fn measures(energy: Option<u128>) -> bool {
        true
    }

    fn start(&mut self);

    /// Returns energy in microjoules.
    fn stop(&mut self) -> (energy: Option<u128>)
        ensures
            Self::measures(energy),
    ;
}

/// A monitor that always returns None (for platforms without power metrics).
#[derive(Debug, Clone, Copy)]
pub struct NoopEnergyMonitor;

impl EnergyMonitor for NoopEnergyMonitor {
    open spec fn measures(energy: Option<u128>) -> bool {
        energy is None
    }

    fn start(&mut self)
        ensures
            *final(self) == *old(self),
    {
    }

    fn stop(&mut self) -> (energy: Option<u128>)
        ensures
            energy is None,
            *final(self) == *old(self),
    {
        None
    }
}

/// Mac-specific monitor. Without a source that needs no privileges there is no
/// measurement to return.
#[derive(Debug)]
pub struct MacEnergyMonitor {
    pub start_time: Option<Instant>,
}

impl MacEnergyMonitor {
    pub fn new() -> (m: Self)
        ensures
            m.start_time is None,
    {
        MacEnergyMonitor { start_time: None }
    }
}

impl EnergyMonitor for MacEnergyMonitor {
    open spec fn measures(energy: Option<u128>) -> bool {
        energy is None
    }

    fn start(&mut self)
        ensures
            final(self).start_time is Some,
    {
        self.start_time = Some(Instant::now());
    }

    fn stop(&mut self) -> (energy: Option<u128>)
        ensures
            energy is None,
            *final(self) == *old(self),
    {
        None
    }
}

// ---------------------------------------------------------------------------
// Hardware
// ---------------------------------------------------------------------------

/// What a chip can do at most: gigabytes per second, and teraflops in tenths.
#[derive(Debug, Clone, Copy, PartialEq, Eq, Structural)]
pub struct PeakSpecs {
    pub bw_gb_s: u32,
    pub tflops_tenths: u32,
}

/// The peaks of a chip by its brand, in lower case. The first name that the
/// brand holds counts; an unknown chip is taken for a small one.
pub open spec fn peaks_of(brand: Seq<char>) -> PeakSpecs {
    if text::holds(brand, "m1 ultra"@) {
        PeakSpecs { bw_gb_s: 800, tflops_tenths: 210 }
    } else if text::holds(brand, "m1 max"@) {
        PeakSpecs { bw_gb_s: 400, tflops_tenths: 104 }
    } else if text::holds(brand, "m1 pro"@) {
        PeakSpecs { bw_gb_s: 200, tflops_tenths: 52 }
    } else if text::holds(brand, "m2 ultra"@) {
        PeakSpecs { bw_gb_s: 800, tflops_tenths: 272 }
    } else if text::holds(brand, "m2 max"@) {
        PeakSpecs { bw_gb_s: 400, tflops_tenths: 136 }
    } else if text::holds(brand, "m2 pro"@) {
        PeakSpecs { bw_gb_s: 200, tflops_tenths: 68 }
    } else if text::holds(brand, "m3 max"@) {
        PeakSpecs { bw_gb_s: 400, tflops_tenths: 180 }
    } else if text::holds(brand, "m3 pro"@) {
        PeakSpecs { bw_gb_s: 150, tflops_tenths: 90 }
    } else {
        PeakSpecs { bw_gb_s: 100, tflops_tenths: 50 }
    }
}

/// The peaks of a chip by its brand, in lower case.
pub fn chip_peaks(brand: &str) -> (p: PeakSpecs)
    ensures
        p == peaks_of(brand@),
{
    if text_contains(brand, "m1 ultra") {
        PeakSpecs { bw_gb_s: 800, tflops_tenths: 210 }
    } else if text_contains(brand, "m1 max") {
        PeakSpecs { bw_gb_s: 400, tflops_tenths: 104 }
    } else if text_contains(brand, "m1 pro") {
        PeakSpecs { bw_gb_s: 200, tflops_tenths: 52 }
    } else if text_contains(brand, "m2 ultra") {
        PeakSpecs { bw_gb_s: 800, tflops_tenths: 272 }
    } else if text_contains(brand, "m2 max") {
        PeakSpecs { bw_gb_s: 400, tflops_tenths: 136 }
    } else if text_contains(brand, "m2 pro") {
        PeakSpecs { bw_gb_s: 200, tflops_tenths: 68 }
    } else if text_contains(brand, "m3 max") {
        PeakSpecs { bw_gb_s: 400, tflops_tenths: 180 }
    } else if text_contains(brand, "m3 pro") {
        PeakSpecs { bw_gb_s: 150, tflops_tenths: 90 }
    } else {
        PeakSpecs { bw_gb_s: 100, tflops_tenths: 50 }
    }
}

// ---------------------------------------------------------------------------
// Labels
// ---------------------------------------------------------------------------

/// How the name of a test ends: with the cached depth, if there is one.
pub open spec fn depth_text(depth: usize) -> Seq<char> {
    if depth > 0 {
        " @ d"@ + text::decimal(depth as nat)
    } else {
        ""@
    }
}

/// The name of a test.
pub open spec fn mode_text(
    mode: BenchmarkMode,
    prompt_len: usize,
    gen_len: usize,
    cached_depth: usize,
) -> Seq<char> {
    (match mode {
        BenchmarkMode::PromptProcessing => "pp"@ + text::decimal(prompt_len as nat),
        BenchmarkMode::Generation => "tg"@ + text::decimal(gen_len as nat),
        BenchmarkMode::PromptPlusGeneration => "pp"@ + text::decimal(prompt_len as nat) + "+tg"@
            + text::decimal(gen_len as nat),
    }) + depth_text(cached_depth)
}

fn push_depth(s: &mut String, depth: usize)
    ensures
        final(s)@ == old(s)@ + depth_text(depth),
{
    if depth > 0 {
        s.append(" @ d");
        push_decimal(s, depth as u64);
        assert(s@ =~= old(s)@ + depth_text(depth));
    } else {
        proof {
            reveal_strlit("");
        }
        assert(s@ =~= old(s)@ + depth_text(depth));
    }
}

/// The name of a test.
pub fn format_mode(
    mode: BenchmarkMode,
    prompt_len: usize,
    gen_len: usize,
    cached_depth: usize,
) -> (s: String)
    ensures
        s@ == mode_text(mode, prompt_len, gen_len, cached_depth),
{
    let mut s: String = match mode {
        BenchmarkMode::PromptProcessing => String::from_str("pp"),
        BenchmarkMode::Generation => String::from_str("tg"),
        BenchmarkMode::PromptPlusGeneration => text_with_number("pp", prompt_len as u64, "+tg"),
    };
    match mode {
        BenchmarkMode::PromptProcessing => {
            push_decimal(&mut s, prompt_len as u64);
        },
        _ => {
            push_decimal(&mut s, gen_len as u64);
        },
    }
    push_depth(&mut s, cached_depth);
    s
}

/// The name that a test of another benchmark has here.
pub open spec fn llama_test_text(n_prompt: usize, n_gen: usize, n_depth: usize) -> Seq<char> {
    mode_text(
        if n_prompt > 0 && n_gen == 0 {
            BenchmarkMode::PromptProcessing
        } else if n_gen > 0 && n_prompt == 0 {
            BenchmarkMode::Generation
        } else {
            BenchmarkMode::PromptPlusGeneration
        },
        n_prompt,
        n_gen,
        n_depth,
    )
}

/// The name that a test of another benchmark has here.
pub fn format_llama_test(n_prompt: usize, n_gen: usize, n_depth: usize) -> (s: String)
    ensures
        s@ == llama_test_text(n_prompt, n_gen, n_depth),
{
    let mode: BenchmarkMode = if n_prompt > 0 && n_gen == 0 {
        BenchmarkMode::PromptProcessing
    } else if n_gen > 0 && n_prompt == 0 {
        BenchmarkMode::Generation
    } else {
        BenchmarkMode::PromptPlusGeneration
    };
    format_mode(mode, n_prompt, n_gen, n_depth)
}

// ---------------------------------------------------------------------------
// Running
// ---------------------------------------------------------------------------

/// How many tokens of the prompt are cached before the measurement.
pub open spec fn warm_tokens(config: BenchmarkConfig) -> nat {
    let n = counting(config.prompt_len).len();
    if config.cached_depth < n {
        config.cached_depth as nat
    } else {
        n
    }
}

/// How many pages some tokens take.
pub open spec fn pages_taken(engine_config: EngineConfig, tokens: nat) -> nat {
    crate::paged_attention::pages_needed(tokens, engine_config.memory.paged_block_size as nat)
}

/// How many pages the cached start of the prompt takes.
pub open spec fn warm_pages(engine_config: EngineConfig, config: BenchmarkConfig) -> nat {
    if warm_tokens(config) == 0 {
        0
    } else {
        pages_taken(engine_config, warm_tokens(config))
    }
}

/// The longest block whose size in bytes is a number.
pub open spec fn block_limit(bytes_per_token: usize) -> nat {
    if bytes_per_token == 0 {
        usize::MAX as nat
    } else {
        usize::MAX as nat / bytes_per_token as nat
    }
}

/// Whether every number that a case comes to fits the machine.
pub open spec fn runnable(engine_config: EngineConfig, config: BenchmarkConfig) -> bool {
    &&& engine_config.draft_window * 2 <= usize::MAX
    &&& config.prompt_len + config.gen_len + 16 <= usize::MAX
    &&& 2 * counting(config.prompt_len).len() <= usize::MAX
    &&& counting(config.prompt_len).len() <= block_limit(engine_config.memory.bytes_per_token)
}

/// Where a generation starts from.
pub open spec fn first_session(
    engine_config: EngineConfig,
    prompt: Seq<TokenId>,
) -> speculative::SessionModel {
    speculative::SessionModel {
        draft_window: engine_config.draft_window,
        max_window: (engine_config.draft_window * 2) as usize,
        prompt,
        context: prompt,
        stats: speculative::no_stats(),
        rejected: None,
    }
}

/// Whether the script of a case has a token for every position that the case
/// comes to.
pub open spec fn scripted_through(config: BenchmarkConfig) -> bool {
    config.gen_len > 0 ==> counting(config.prompt_len).len() + config.gen_len <= counting(
        (config.prompt_len + config.gen_len + 16) as usize,
    ).len()
}

/// What is known of a sample, whatever the clock shows, of a case that starts
/// with `hits` cached tokens. Both models follow the same script, so that every
/// draft is accepted.
pub open spec fn is_sample(
    config: BenchmarkConfig,
    start: speculative::SessionModel,
    hits: nat,
    sample: BenchmarkSample,
) -> bool {
    &&& sample.tokens == tokens_of_mode(config.mode, config.prompt_len, config.gen_len)
    &&& sample.cache_hit_tokens == hits
    &&& sample.cache_hit_tokens + sample.cache_miss_tokens == counting(config.prompt_len).len()
    &&& sample.achieved_gb_s is None
    &&& sample.achieved_tflops is None
    &&& if config.mode == BenchmarkMode::PromptProcessing {
        sample.ttft_ns is None && sample.speculative == speculative::no_stats()
    } else {
        &&& sample.ttft_ns is Some <==> config.gen_len > 0
        &&& sample.speculative == mock_backend::all_accepted(
            mock_backend::rounds_needed(
                start.draft_window,
                start.max_window,
                config.gen_len as nat,
            ),
            config.gen_len as nat,
        )
    }
}

/// The outcome of a generation, and when its first token was there.
#[derive(Debug)]
pub struct GenerationTrace {
    pub ttft_ns: Option<u128>,
    pub output: EngineOutput,
}

/// The rounds of a generation, up to `max_new_tokens` tokens, and when the first
/// token was there.
fn timed_rounds<D: DraftModel, T: TargetModel>(
    session: &mut SpeculativeSession,
    draft: &mut D,
    target: &mut T,
    max_new_tokens: usize,
    started: &Instant,
) -> (r: Result<(Vec<TokenId>, Option<u128>), SpeculativeError>)
    requires
        old(session)@.rejected is None,
    ensures
        speculative::generated_by(
            old(session)@,
            max_new_tokens as nat,
            *old(draft),
            *old(target),
            *final(draft),
            *final(target),
            match r {
                Ok(done) => Ok(
                    SpeculativeOutput { tokens: done.0, stats: final(session)@.stats },
                ),
                Err(e) => Err(e),
            },
        ),
        r is Ok ==> ((r->Ok_0).1 is Some <==> (r->Ok_0).0@.len() > 0),
{
    let ghost start = session@;
    let ghost max = max_new_tokens as nat;
    let ghost mut drafts: Seq<Seq<TokenId>> = Seq::empty();
    let ghost mut answers: Seq<Seq<TokenId>> = Seq::empty();
    let ghost mut drafters: Seq<D> = seq![*draft];
    let ghost mut targets: Seq<T> = seq![*target];
    let mut generated: Vec<TokenId> = Vec::with_capacity(max_new_tokens);
    let mut ttft_ns: Option<u128> = None;
    let mut exhausted: bool = false;
    assert(start.context + generated@ =~= start.context);

    while generated.len() < max_new_tokens && !exhausted
        invariant
            start == old(session)@,
            max == max_new_tokens,
            generated@.len() <= max_new_tokens,
            speculative::rounds_asked(start, max, drafters, targets, drafts, answers),
            drafters[0] == *old(draft),
            targets[0] == *old(target),
            targets.last() == *target,
            speculative::play(start, drafts, answers).context == start.context + generated@,
            speculative::play(start, drafts, answers).rejected is None,
            ttft_ns is Some <==> generated@.len() > 0,
            !exhausted ==> session@ == speculative::play(start, drafts, answers)
                && drafters.last() == *draft,
            exhausted ==> generated@.len() < max_new_tokens && session@
                == speculative::draft_called(speculative::play(start, drafts, answers))
                && exists|p: Vec<NextTokenPrediction>|
                p@.len() == 0 && #[trigger] speculative::draft_asked(
                    drafters.last(),
                    speculative::play(start, drafts, answers).context,
                    speculative::next_request(
                        start,
                        max,
                        speculative::play(start, drafts, answers),
                    ),
                    *draft,
                    Ok(p),
                ),
        decreases max_new_tokens - generated.len(), (if exhausted { 0int } else { 1int }),
    {
        let remaining: usize = max_new_tokens - generated.len();
        let ghost before = session@;
        let ghost requested = speculative::next_request(start, max, before);
        let outcome: Result<Vec<TokenId>, SpeculativeError> = session.draft(
            draft,
            target,
            remaining,
        );
        assert(speculative::round_outcome(
            drafters.last(),
            targets.last(),
            before,
            requested,
            *draft,
            *target,
            session@,
            outcome,
        ));
        let accepted: Vec<TokenId> = match outcome {
            Ok(a) => a,
            Err(e) => {
                proof {
                    let r: Result<SpeculativeOutput, SpeculativeError> = Err(e);
                    assert(speculative::ends_in(
                        start,
                        max,
                        *draft,
                        *target,
                        r,
                        drafters,
                        targets,
                        drafts,
                        answers,
                    ));
                }
                return Err(e);
            },
        };
        let ghost (drafted, verified) = speculative::lemma_round_went_well(
            drafters.last(),
            targets.last(),
            before,
            requested,
            *draft,
            *target,
            session@,
            accepted,
        );
        let ghost d = speculative::tokens_of(drafted@);
        let ghost e = speculative::steps_of(verified@);
        if accepted.len() == 0 && !session.has_pending_rejection() {
            assert(drafted@.len() == 0);
            exhausted = true;
        } else {
            assert(drafted@.len() > 0);
            let ghost grown = generated@;
            if ttft_ns.is_none() && accepted.len() > 0 {
                ttft_ns = Some(started.elapsed().as_nanos());
            }
            append_tokens(&mut generated, &accepted);
            match session.take_rejected_token() {
                Some(token) => {
                    if ttft_ns.is_none() {
                        ttft_ns = Some(started.elapsed().as_nanos());
                    }
                    generated.push(token);
                },
                None => {},
            }
            proof {
                assert(generated@ =~= grown + speculative::gained(d, e));
                speculative::lemma_more_rounds(
                    start,
                    max,
                    drafters,
                    targets,
                    drafts,
                    answers,
                    *draft,
                    *target,
                    drafted,
                    verified,
                );
                assert(drafts.push(d).drop_last() =~= drafts);
                assert(answers.push(e).drop_last() =~= answers);
                drafts = drafts.push(d);
                answers = answers.push(e);
                drafters = drafters.push(*draft);
                targets = targets.push(*target);
                assert(speculative::play(start, drafts, answers).context =~= start.context
                    + generated@);
            }
        }
    }
    proof {
        let output = SpeculativeOutput { tokens: generated, stats: session@.stats };
        assert(speculative::ends_in(
            start,
            max,
            *draft,
            *target,
            Ok(output),
            drafters,
            targets,
            drafts,
            answers,
        ));
    }
    Ok((generated, ttft_ns))
}

/// What was generated, or the error of a model in its place.
pub open spec fn generated_in(r: Result<GenerationTrace, EngineError>) -> Result<
    SpeculativeOutput,
    SpeculativeError,
> {
    match r {
        Ok(trace) => Ok(
            SpeculativeOutput {
                tokens: trace.output.tokens,
                stats: trace.output.stats.speculative,
            },
        ),
        Err(e) => Err(e->Speculative_0),
    }
}

/// Whether the cache has, or can get, room for a prompt.
pub open spec fn has_room<R: MemoryRuntime>(engine: VeloEngine<R>, prompt: Seq<TokenId>) -> bool {
    !engine::wants_block(engine.cached()@, prompt) || engine::can_hold(
        engine.memory(),
        prompt.len(),
    )
}

/// Whether both models may have been told about a cached prefix in this way.
pub open spec fn prefix_told<D: DraftModel, T: TargetModel>(
    prefix: CacheLookup,
    draft0: D,
    target0: T,
    draft1: D,
    target1: T,
) -> bool {
    speculative::draft_prefix_bound(draft0, prefix, draft1, Ok(()))
        && speculative::target_prefix_bound(target0, prefix, target1, Ok(()))
}

/// Whether telling both models about a prefix and generating from `s` may end in
/// `r`: one of them refuses the prefix, or the generation ends so.
pub open spec fn told_and_generated<D: DraftModel, T: TargetModel>(
    prefix: CacheLookup,
    s: speculative::SessionModel,
    max: nat,
    draft0: D,
    target0: T,
    draft1: D,
    target1: T,
    r: Result<SpeculativeOutput, SpeculativeError>,
) -> bool {
    ||| r is Err && target1 == target0 && speculative::draft_prefix_bound(
        draft0,
        prefix,
        draft1,
        Err(r->Err_0),
    )
    ||| r is Err && speculative::draft_prefix_bound(draft0, prefix, draft1, Ok(()))
        && speculative::target_prefix_bound(target0, prefix, target1, Err(r->Err_0))
    ||| exists|draft: D, target: T| #[trigger]
        prefix_told(prefix, draft0, target0, draft, target) && speculative::generated_by(
            s,
            max,
            draft,
            target,
            draft1,
            target1,
            r,
        )
}

/// Generates up to `max_new_tokens` tokens, and takes the time of the first.
/// What is generated is not cached.
pub fn run_generation_with_ttft<R: MemoryRuntime, D: DraftModel, T: TargetModel>(
    engine: &mut VeloEngine<R>,
    draft: &mut D,
    target: &mut T,
    prompt: &[TokenId],
    max_new_tokens: usize,
) -> (r: Result<GenerationTrace, EngineError>)
    requires
        engine::engine_wf(*old(engine)),
        engine::engine_room(*old(engine), 1, prompt@.len()),
    ensures
        engine::engine_wf(*final(engine)),
        engine::same_service(*old(engine), *final(engine)),
        final(engine).slots() == old(engine).slots(),
        final(engine).memory().page_table() == old(engine).memory().page_table(),
        engine::engine_backed(*old(engine)) ==> engine::engine_backed(*final(engine)),
        !has_room(*old(engine), prompt@) ==> r is Err && engine::prefill_failed(
            *old(engine),
            prompt@,
            *final(engine),
            r->Err_0,
        ) && *final(draft) == *old(draft) && *final(target) == *old(target),
        has_room(*old(engine), prompt@) ==> exists|out: EnginePrefillOutput| #[trigger]
            engine::prefilled(
                old(engine).cached()@,
                final(engine).cached()@,
                final(engine).memory().the_allocator().pages_of(),
                prompt@,
                out,
            ) && engine::stocked(old(engine).memory(), out, final(engine).memory()),
        has_room(*old(engine), prompt@) ==> told_and_generated(
            radix_cache::longest_cached(old(engine).cached()@.entries, prompt@, prompt@.len()),
            old(engine).decodes().fresh(prompt@),
            max_new_tokens as nat,
            *old(draft),
            *old(target),
            *final(draft),
            *final(target),
            generated_in(r),
        ) && (r is Err ==> r->Err_0 is Speculative),
        r is Ok ==> {
            let found = radix_cache::longest_cached(
                old(engine).cached()@.entries,
                prompt@,
                prompt@.len(),
            );
            let out = r->Ok_0.output;
            &&& out.cached_prefix == found
            &&& engine::spans(
                final(engine).memory().the_allocator().pages_of(),
                found.handle,
                out.cached_pages,
            )
            &&& out.inserted_handle is None
            &&& out.inserted_pages is None
            &&& out.stats.cache_hit_tokens == found.matched_tokens
            &&& out.stats.cache_hit_tokens + out.stats.cache_miss_tokens == prompt@.len()
            &&& r->Ok_0.ttft_ns is Some <==> out.tokens@.len() > 0
        },
{
    let started: Instant = Instant::now();
    let ghost cache0 = engine.cached()@;
    let prefill: EnginePrefillOutput = match engine.prefill(prompt) {
        Ok(p) => p,
        Err(e) => {
            return Err(e);
        },
    };
    proof {
        radix_cache::lookup_finds_the_longest_prefix(
            cache0.entries,
            prompt@,
            prompt@.len(),
            0,
        );
    }
    let told: Result<(), SpeculativeError> = draft.bind_prefix_cache(&prefill.cached_prefix);
    assert(speculative::draft_prefix_bound(*old(draft), prefill.cached_prefix, *draft, told));
    match told {
        Ok(done) => {
            assert(done == ());
        },
        Err(e) => {
            return Err(EngineError::from(e));
        },
    }
    let told: Result<(), SpeculativeError> = target.bind_prefix_cache(&prefill.cached_prefix);
    assert(speculative::target_prefix_bound(*old(target), prefill.cached_prefix, *target, told));
    match told {
        Ok(done) => {
            assert(done == ());
        },
        Err(e) => {
            return Err(EngineError::from(e));
        },
    }
    assert(prefix_told(prefill.cached_prefix, *old(draft), *old(target), *draft, *target));
    let mut session: SpeculativeSession = match engine.decoder().begin(prompt) {
        Ok(s) => s,
        Err(e) => {
            return Err(EngineError::from(e));
        },
    };
    let (generated, ttft_ns): (Vec<TokenId>, Option<u128>) = match timed_rounds(
        &mut session,
        draft,
        target,
        max_new_tokens,
        &started,
    ) {
        Ok(outcome) => outcome,
        Err(e) => {
            return Err(EngineError::from(e));
        },
    };
    let output = EngineOutput {
        tokens: generated,
        cached_prefix: prefill.cached_prefix,
        cached_pages: prefill.cached_pages,
        inserted_handle: None,
        inserted_pages: None,
        stats: EngineStats {
            cache_hit_tokens: prefill.stats.cache_hit_tokens,
            cache_miss_tokens: prefill.stats.cache_miss_tokens,
            speculative: *session.stats(),
        },
    };
    Ok(GenerationTrace { ttft_ns, output })
}

proof fn lemma_warm_cache(
    tokens: Seq<TokenId>,
    d: nat,
    handle: crate::radix_cache::KvCacheHandle,
)
    requires
        0 < d <= tokens.len() <= usize::MAX,
        handle.token_len == d,
    ensures
        ({
            let prefix = tokens.take(d as int);
            let after = engine::inserted(
                engine::looked_up(radix_cache::empty_cache(), prefix),
                prefix,
                handle,
            );
            radix_cache::longest_cached(after.entries, tokens, tokens.len()).matched_tokens == d
        }),
{
    let prefix = tokens.take(d as int);
    let none = radix_cache::empty_cache();
    let tick = radix_cache::tick_after(none.clock);
    radix_cache::lookup_keeps_handles(none.entries, prefix, tick);
    let seen = engine::looked_up(none, prefix);
    let after = engine::inserted(seen, prefix, handle).entries;
    let found = radix_cache::longest_cached(after, tokens, tokens.len());
    let tick1 = radix_cache::tick_after(seen.clock);
    radix_cache::stored_is_read_back(seen.entries, prefix, handle, tick1, prefix);
    radix_cache::lookup_finds_the_longest_prefix(after, tokens, tokens.len(), d);
    let p = tokens.take(found.matched_tokens as int);
    radix_cache::stored_is_read_back(seen.entries, prefix, handle, tick1, p);
    assert(radix_cache::handle_on(none.entries, p) is None);
    assert(p == prefix);
    assert(p.len() == found.matched_tokens);
}

proof fn lemma_nothing_cached(tokens: Seq<TokenId>, upto: nat)
    ensures
        radix_cache::longest_cached(radix_cache::empty_cache().entries, tokens, upto) == (
        radix_cache::CacheLookup { matched_tokens: 0, handle: None }),
    decreases upto,
{
    if upto > 0 {
        lemma_nothing_cached(tokens, (upto - 1) as nat);
    }
}

/// The error of an allocator that lacks pages.
pub open spec fn out_of_pages(requested: nat, available: nat) -> PageManagerError {
    PageManagerError::OutOfPages { requested: requested as usize, available: available as usize }
}

/// The error with which the engine of a case cannot be made: pages hold nothing,
/// the draft window is empty, or there are not enough pages for the start of the
/// prompt.
pub open spec fn engine_fault(engine_config: EngineConfig, config: BenchmarkConfig) -> Option<
    EngineError,
> {
    let warm = warm_pages(engine_config, config);
    let total = engine_config.memory.paged_total_pages;
    if engine_config.memory.paged_block_size == 0 {
        Some(EngineError::PagedAttention(PageManagerError::InvalidBlockSize))
    } else if engine_config.draft_window == 0 {
        Some(EngineError::Speculative(SpeculativeError::EmptyDraftWindow))
    } else if warm > total {
        Some(EngineError::PagedAttention(out_of_pages(warm, total as nat)))
    } else {
        None
    }
}

/// A fresh engine whose cache holds the start of the prompt, as long as the
/// configuration says.
pub fn warm_engine(engine_config: &EngineConfig, config: &BenchmarkConfig) -> (r: Result<
    VeloEngine,
    EngineError,
>)
    requires
        runnable(*engine_config, *config),
    ensures
        engine_config.memory.paged_block_size == 0 ==> r == Err::<VeloEngine, EngineError>(
            EngineError::PagedAttention(PageManagerError::InvalidBlockSize),
        ),
        engine_config.memory.paged_block_size > 0 && engine_config.draft_window == 0 ==> r == Err::<
            VeloEngine,
            EngineError,
        >(EngineError::Speculative(SpeculativeError::EmptyDraftWindow)),
        engine_config.memory.paged_block_size > 0 && engine_config.draft_window > 0 ==> (r is Ok
            <==> warm_pages(*engine_config, *config) <= engine_config.memory.paged_total_pages),
        r is Err ==> engine_fault(*engine_config, *config) == Some(r->Err_0),
        r is Ok ==> {
            let engine = r->Ok_0;
            let prompt = counting(config.prompt_len);
            &&& engine::engine_wf(engine)
            &&& engine::engine_backed(engine)
            &&& engine::engine_room(engine, 1, prompt.len())
            &&& engine.decodes().fresh(prompt) == first_session(*engine_config, prompt)
            &&& radix_cache::longest_cached(
                engine.cached()@.entries,
                prompt,
                prompt.len(),
            ).matched_tokens == warm_tokens(*config)
            &&& engine.memory().the_allocator().can_map(prompt.len() as usize) <==> warm_pages(
                *engine_config,
                *config,
            ) + pages_taken(*engine_config, prompt.len())
                <= engine_config.memory.paged_total_pages
            &&& engine.memory().the_allocator().refusal(prompt.len() as usize) == out_of_pages(
                pages_taken(*engine_config, prompt.len()),
                (engine_config.memory.paged_total_pages - warm_pages(
                    *engine_config,
                    *config,
                )) as nat,
            )
        },
{
    let mut engine: VeloEngine = match VeloEngine::new(*engine_config) {
        Ok(e) => e,
        Err(e) => {
            return Err(e);
        },
    };
    let prompt: Vec<TokenId> = config.prompt_tokens();
    let depth: usize = if config.cached_depth < prompt.len() {
        config.cached_depth
    } else {
        prompt.len()
    };
    proof {
        let none = radix_cache::empty_cache().entries;
        assert(none.drop_last() =~= Seq::empty());
        assert(radix_cache::tokens_resident(none) == 0) by {
            reveal_with_fuel(radix_cache::tokens_resident, 2);
        }
        lemma_nothing_cached(prompt@, prompt@.len());
        lemma_nothing_cached(prompt@.take(depth as int), depth as nat);
        assert(1 * prompt@.len() == prompt@.len());
    }
    let ghost fresh = engine.memory().the_allocator();
    proof {
        assert(fresh.pages_for(prompt@.len() as usize) == pages_taken(
            *engine_config,
            prompt@.len(),
        ));
        assert(fresh.pages_for(depth) == pages_taken(*engine_config, depth as nat));
        assert(fresh.pages_free() == engine_config.memory.paged_total_pages);
    }
    if depth > 0 {
        let prefix: &[TokenId] = vstd::slice::slice_subrange(prompt.as_slice(), 0, depth);
        assert(prefix@ =~= prompt@.take(depth as int));
        assert(1 * prefix@.len() == prefix@.len());
        match engine.prefill(prefix) {
            Ok(out) => {
                proof {
                    lemma_warm_cache(prompt@, depth as nat, out.inserted_handle->0);
                    let warm = engine.memory().the_allocator();
                    assert(warm.pages_for(prompt@.len() as usize) == fresh.pages_for(
                        prompt@.len() as usize,
                    ));
                    assert(warm.pages_free() == fresh.pages_free() - fresh.pages_for(depth));
                }
            },
            Err(e) => {
                return Err(e);
            },
        }
    }
    Ok(engine)
}

/// What comes of a case whose models follow the same script: it succeeds exactly
/// if the script goes far enough, and every draft is accepted.
proof fn lemma_scripted_case(
    config: BenchmarkConfig,
    prefix: CacheLookup,
    s: speculative::SessionModel,
    draft0: GreedyDraftModel<MockBackend>,
    target0: GreedyTargetModel<MockBackend>,
    draft1: GreedyDraftModel<MockBackend>,
    target1: GreedyTargetModel<MockBackend>,
    r: Result<SpeculativeOutput, SpeculativeError>,
)
    requires
        config.prompt_len + config.gen_len + 16 <= usize::MAX,
        s.context == counting(config.prompt_len),
        s.stats == speculative::no_stats(),
        0 < s.draft_window <= s.max_window,
        told_and_generated(
            prefix,
            s,
            config.gen_len as nat,
            draft0,
            target0,
            draft1,
            target1,
            r,
        ),
        follow_the_script(config, draft0, target0),
    ensures
        r is Ok <==> scripted_through(config),
        r is Ok ==> r->Ok_0.tokens@.len() == config.gen_len && r->Ok_0.stats
            == mock_backend::all_accepted(
            mock_backend::rounds_needed(s.draft_window, s.max_window, config.gen_len as nat),
            config.gen_len as nat,
        ),
{
    let script = counting((config.prompt_len + config.gen_len + 16) as usize);
    let max = config.gen_len as nat;
    let (draft, target) = choose|
        draft: GreedyDraftModel<MockBackend>,
        target: GreedyTargetModel<MockBackend>,
    | #[trigger]
        prefix_told(prefix, draft0, target0, draft, target) && speculative::generated_by(
            s,
            max,
            draft,
            target,
            draft1,
            target1,
            r,
        );
    let m = target.inner()@;
    assert(m.script == script && m.overrides == Map::<usize, TokenId>::empty());
    if scripted_through(config) {
        assert(mock_backend::covers(m, s.context.len(), max));
        mock_backend::agreeing_mocks_deliver_their_script(
            s,
            max,
            draft,
            target,
            draft1,
            target1,
            r,
        );
    } else if r is Ok {
        let out = r->Ok_0;
        backend::greedy_generations_are_complete(s, max, draft, target, draft1, target1, out);
        mock_backend::scripted_targets_give_their_script(
            s,
            max,
            draft,
            target,
            draft1,
            target1,
            out,
        );
        let last = out.tokens@.len() - 1;
        assert(mock_backend::scripted(
            m,
            speculative::plus(0, (s.context.len() + last) as nat),
        ) == Some(out.tokens@[last]));
    }
}

/// Whether two models follow the script of a case.
pub open spec fn follow_the_script(
    config: BenchmarkConfig,
    draft: GreedyDraftModel<MockBackend>,
    target: GreedyTargetModel<MockBackend>,
) -> bool {
    let script = counting((config.prompt_len + config.gen_len + 16) as usize);
    &&& draft.inner()@.script == script
    &&& draft.inner()@.overrides == Map::<usize, TokenId>::empty()
    &&& target.inner()@.script == script
    &&& target.inner()@.overrides == Map::<usize, TokenId>::empty()
}

/// Whether models that follow the script of a case may end it in `r`, when they
/// start from `s` and are told about that prefix.
pub open spec fn script_ends_in(
    config: BenchmarkConfig,
    prefix: CacheLookup,
    s: speculative::SessionModel,
    r: Result<SpeculativeOutput, SpeculativeError>,
) -> bool {
    exists|
        draft0: GreedyDraftModel<MockBackend>,
        target0: GreedyTargetModel<MockBackend>,
        draft1: GreedyDraftModel<MockBackend>,
        target1: GreedyTargetModel<MockBackend>,
    |
        follow_the_script(config, draft0, target0) && #[trigger] told_and_generated(
            prefix,
            s,
            config.gen_len as nat,
            draft0,
            target0,
            draft1,
            target1,
            r,
        )
}

/// Runs and times a case on an engine.
pub fn measure_case<R: MemoryRuntime, M: EnergyMonitor>(
    engine: &mut VeloEngine<R>,
    config: &BenchmarkConfig,
    monitor: &mut M,
) -> (r: Result<BenchmarkSample, EngineError>)
    requires
        engine::engine_wf(*old(engine)),
        engine::engine_room(*old(engine), 1, counting(config.prompt_len).len()),
        config.prompt_len + config.gen_len + 16 <= usize::MAX,
        0 < old(engine).decodes().window() <= old(engine).decodes().limit(),
    ensures
        engine::engine_wf(*final(engine)),
        engine::same_service(*old(engine), *final(engine)),
        engine::engine_backed(*old(engine)) ==> engine::engine_backed(*final(engine)),
        ({
            let prompt = counting(config.prompt_len);
            &&& r is Err && !has_room(*old(engine), prompt) ==> engine::prefill_failed(
                *old(engine),
                prompt,
                *final(engine),
                r->Err_0,
            )
            &&& r is Err && has_room(*old(engine), prompt) ==> r->Err_0 is Speculative
                && script_ends_in(
                *config,
                radix_cache::longest_cached(old(engine).cached()@.entries, prompt, prompt.len()),
                old(engine).decodes().fresh(prompt),
                Err(r->Err_0->Speculative_0),
            )
            &&& r is Ok <==> has_room(*old(engine), prompt) && (config.mode
                == BenchmarkMode::PromptProcessing || scripted_through(*config))
            &&& r is Ok ==> is_sample(
                *config,
                old(engine).decodes().fresh(prompt),
                radix_cache::longest_cached(
                    old(engine).cached()@.entries,
                    prompt,
                    prompt.len(),
                ).matched_tokens as nat,
                r->Ok_0,
            ) && M::measures(r->Ok_0.energy_uj)
        }),
{
    let prompt: Vec<TokenId> = config.prompt_tokens();
    let ghost cache0 = engine.cached()@;
    proof {
        radix_cache::lookup_finds_the_longest_prefix(
            cache0.entries,
            prompt@,
            prompt@.len(),
            0,
        );
    }
    monitor.start();
    let started: Instant = Instant::now();
    let elapsed_ns: u128;
    let ttft_ns: Option<u128>;
    let stats: EngineStats;
    match config.mode {
        BenchmarkMode::PromptProcessing => {
            let prefill: EnginePrefillOutput = match engine.prefill(&prompt) {
                Ok(p) => p,
                Err(e) => {
                    return Err(e);
                },
            };
            elapsed_ns = started.elapsed().as_nanos();
            ttft_ns = None;
            stats = prefill.stats;
        },
        _ => {
            let mut draft: GreedyDraftModel<MockBackend> = GreedyDraftModel::new(
                MockBackend::new(config.script_tokens()),
            );
            let mut target: GreedyTargetModel<MockBackend> = GreedyTargetModel::new(
                MockBackend::new(config.script_tokens()),
            );
            let ghost draft0 = draft;
            let ghost target0 = target;
            let outcome: Result<GenerationTrace, EngineError> = run_generation_with_ttft(
                engine,
                &mut draft,
                &mut target,
                &prompt,
                config.gen_len,
            );
            proof {
                assert(follow_the_script(*config, draft0, target0));
                if has_room(*old(engine), prompt@) {
                    lemma_scripted_case(
                        *config,
                        radix_cache::longest_cached(cache0.entries, prompt@, prompt@.len()),
                        old(engine).decodes().fresh(prompt@),
                        draft0,
                        target0,
                        draft,
                        target,
                        generated_in(outcome),
                    );
                }
            }
            let trace: GenerationTrace = match outcome {
                Ok(t) => t,
                Err(e) => {
                    return Err(e);
                },
            };
            elapsed_ns = started.elapsed().as_nanos();
            ttft_ns = trace.ttft_ns;
            stats = trace.output.stats;
        },
    }
    let energy_uj: Option<u128> = monitor.stop();
    let sample = BenchmarkSample {
        elapsed_ns,
        ttft_ns,
        tokens: mode_tokens(config.mode, config.prompt_len, config.gen_len),
        cache_hit_tokens: stats.cache_hit_tokens,
        cache_miss_tokens: stats.cache_miss_tokens,
        speculative: stats.speculative,
        energy_uj,
        achieved_gb_s: None,
        achieved_tflops: None,
    };
    assert(is_sample(
        *config,
        old(engine).decodes().fresh(prompt@),
        radix_cache::longest_cached(cache0.entries, prompt@, prompt@.len()).matched_tokens as nat,
        sample,
    ));
    Ok(sample)
}

/// When a case succeeds: the configuration is valid, there are pages for the
/// cached start of the prompt and for the prompt itself unless it is all cached,
/// and the script goes far enough for what is generated.
pub open spec fn case_succeeds(engine_config: EngineConfig, config: BenchmarkConfig) -> bool {
    let total = engine_config.memory.paged_total_pages;
    let warm = warm_pages(engine_config, config);
    let len = counting(config.prompt_len).len();
    &&& engine_config.memory.paged_block_size > 0
    &&& engine_config.draft_window > 0
    &&& warm <= total
    &&& warm_tokens(config) < len ==> warm + pages_taken(engine_config, len) <= total
    &&& config.mode == BenchmarkMode::PromptProcessing || scripted_through(config)
}

/// Whether a case fails with `e`: its engine cannot be made, there are not enough
/// pages for its prompt, or its models end with that error.
pub open spec fn case_fails(
    engine_config: EngineConfig,
    config: BenchmarkConfig,
    e: EngineError,
) -> bool {
    let total = engine_config.memory.paged_total_pages;
    let warm = warm_pages(engine_config, config);
    let len = counting(config.prompt_len).len();
    match engine_fault(engine_config, config) {
        Some(fault) => e == fault,
        None => if warm_tokens(config) < len && warm + pages_taken(engine_config, len) > total {
            e == EngineError::PagedAttention(
                out_of_pages(pages_taken(engine_config, len), (total - warm) as nat),
            )
        } else {
            &&& config.mode != BenchmarkMode::PromptProcessing && !scripted_through(config)
            &&& e is Speculative
            &&& exists|prefix: CacheLookup|
                prefix.matched_tokens == warm_tokens(config) && #[trigger] script_ends_in(
                    config,
                    prefix,
                    first_session(engine_config, counting(config.prompt_len)),
                    Err(e->Speculative_0),
                )
        },
    }
}

/// Runs a case on an engine of its own, with a monitor.
pub fn run_monitored_case<M: EnergyMonitor>(
    engine_config: &EngineConfig,
    config: &BenchmarkConfig,
    monitor: &mut M,
) -> (r: Result<BenchmarkSample, EngineError>)
    requires
        runnable(*engine_config, *config),
    ensures
        r is Ok <==> case_succeeds(*engine_config, *config),
        r is Err ==> case_fails(*engine_config, *config, r->Err_0),
        r is Ok ==> is_sample(
            *config,
            first_session(*engine_config, counting(config.prompt_len)),
            warm_tokens(*config),
            r->Ok_0,
        ) && M::measures(r->Ok_0.energy_uj),
{
    let mut engine: VeloEngine = match warm_engine(engine_config, config) {
        Ok(e) => e,
        Err(e) => {
            return Err(e);
        },
    };
    measure_case(&mut engine, config, monitor)
}

/// Runs a case on an engine of its own. Estimates of what the hardware achieved
/// are left to the caller.
pub fn run_single_case(engine_config: &EngineConfig, config: &BenchmarkConfig) -> (r: Result<
    BenchmarkSample,
    EngineError,
>)
    requires
        runnable(*engine_config, *config),
    ensures
        r is Ok <==> case_succeeds(*engine_config, *config),
        r is Err ==> case_fails(*engine_config, *config, r->Err_0),
        r is Ok ==> is_sample(
            *config,
            first_session(*engine_config, counting(config.prompt_len)),
            warm_tokens(*config),
            r->Ok_0,
        ) && r->Ok_0.energy_uj is None,
{
    let mut monitor = NoopEnergyMonitor;
    run_monitored_case(engine_config, config, &mut monitor)
}

/// Runs a case as often as the configuration says, after runs that do not count.
/// The first failure ends it.
pub fn run_samples<M: EnergyMonitor>(
    engine_config: &EngineConfig,
    config: &BenchmarkConfig,
    monitor: &mut M,
) -> (r: Result<Vec<BenchmarkSample>, EngineError>)
    requires
        runnable(*engine_config, *config),
    ensures
        r is Ok ==> r->Ok_0@.len() == config.repetitions,
        r is Ok ==> forall|i: int|
            0 <= i < r->Ok_0@.len() ==> is_sample(
                *config,
                first_session(*engine_config, counting(config.prompt_len)),
                warm_tokens(*config),
                #[trigger] r->Ok_0@[i],
            ) && M::measures(r->Ok_0@[i].energy_uj),
        r is Ok <==> config.warmups + config.repetitions == 0 || case_succeeds(
            *engine_config,
            *config,
        ),
        r is Err ==> case_fails(*engine_config, *config, r->Err_0),
{
    let mut done: usize = 0;
    while done < config.warmups
        invariant
            done <= config.warmups,
            runnable(*engine_config, *config),
            done > 0 ==> case_succeeds(*engine_config, *config),
        decreases config.warmups - done,
    {
        match run_monitored_case(engine_config, config, monitor) {
            Ok(_) => {},
            Err(e) => {
                return Err(e);
            },
        }
        done = done + 1;
    }
    let mut samples: Vec<BenchmarkSample> = Vec::new();
    let mut k: usize = 0;
    while k < config.repetitions
        invariant
            k <= config.repetitions,
            samples@.len() == k,
            runnable(*engine_config, *config),
            config.warmups + k > 0 ==> case_succeeds(*engine_config, *config),
            forall|i: int|
                0 <= i < samples@.len() ==> is_sample(
                    *config,
                    first_session(*engine_config, counting(config.prompt_len)),
                    warm_tokens(*config),
                    #[trigger] samples@[i],
                ) && M::measures(samples@[i].energy_uj),
        decreases config.repetitions - k,
    {
        match run_monitored_case(engine_config, config, monitor) {
            Ok(sample) => {
                samples.push(sample);
            },
            Err(e) => {
                return Err(e);
            },
        }
        k = k + 1;
    }
    Ok(samples)
}

// ---------------------------------------------------------------------------
// Totals
// ---------------------------------------------------------------------------

/// What the averages of some samples are made of.
#[derive(Debug)]
pub struct SampleTotals {
    /// The time of every sample.
    pub elapsed_ns: Vec<u128>,
    /// The time to the first token of every sample that has one.
    pub ttft_ns: Vec<u128>,
    /// The tokens of all samples.
    pub tokens: usize,
    /// The energy of all samples that have one; `None` if no sample has.
    pub energy_uj: Option<u128>,
}

/// The times to the first token of the first `n` samples.
pub open spec fn first_token_times(samples: Seq<BenchmarkSample>, n: nat) -> Seq<u128>
    decreases n,
{
    if n == 0 {
        Seq::empty()
    } else {
        let rest = first_token_times(samples, (n - 1) as nat);
        match samples[n - 1].ttft_ns {
            Some(t) => rest.push(t),
            None => rest,
        }
    }
}

/// The tokens of the first `n` samples.
pub open spec fn all_tokens(samples: Seq<BenchmarkSample>, n: nat) -> nat
    decreases n,
{
    if n == 0 {
        0
    } else {
        all_tokens(samples, (n - 1) as nat) + samples[n - 1].tokens as nat
    }
}

/// The energy of the first `n` samples, as far as it was measured.
pub open spec fn all_energy(samples: Seq<BenchmarkSample>, n: nat) -> Option<nat>
    decreases n,
{
    if n == 0 {
        None
    } else {
        let rest = all_energy(samples, (n - 1) as nat);
        match samples[n - 1].energy_uj {
            None => rest,
            Some(e) => Some(
                e as nat + (match rest {
                    Some(r) => r,
                    None => 0,
                }),
            ),
        }
    }
}

proof fn lemma_totals_grow(samples: Seq<BenchmarkSample>, a: nat, b: nat)
    requires
        a <= b,
    ensures
        all_tokens(samples, a) <= all_tokens(samples, b),
        all_energy(samples, a) is Some ==> all_energy(samples, b) is Some && all_energy(
            samples,
            a,
        )->0 <= all_energy(samples, b)->0,
    decreases b,
{
    if a < b {
        lemma_totals_grow(samples, a, (b - 1) as nat);
    }
}

/// Adds samples up.
pub fn sample_totals(samples: &[BenchmarkSample]) -> (t: SampleTotals)
    requires
        all_tokens(samples@, samples@.len()) <= usize::MAX,
        all_energy(samples@, samples@.len()) is Some ==> all_energy(
            samples@,
            samples@.len(),
        )->0 <= u128::MAX,
    ensures
        t.elapsed_ns@ == samples@.map_values(|s: BenchmarkSample| s.elapsed_ns),
        t.ttft_ns@ == first_token_times(samples@, samples@.len()),
        t.tokens == all_tokens(samples@, samples@.len()),
        match all_energy(samples@, samples@.len()) {
            Some(e) => t.energy_uj is Some && t.energy_uj->0 == e,
            None => t.energy_uj is None,
        },
{
    let mut elapsed_ns: Vec<u128> = Vec::with_capacity(samples.len());
    let mut ttft_ns: Vec<u128> = Vec::new();
    let mut tokens: usize = 0;
    let mut energy_uj: Option<u128> = None;
    let mut i: usize = 0;
    while i < samples.len()
        invariant
            i <= samples@.len(),
            all_tokens(samples@, samples@.len()) <= usize::MAX,
            all_energy(samples@, samples@.len()) is Some ==> all_energy(
                samples@,
                samples@.len(),
            )->0 <= u128::MAX,
            elapsed_ns@ == samples@.take(i as int).map_values(|s: BenchmarkSample| s.elapsed_ns),
            ttft_ns@ == first_token_times(samples@, i as nat),
            tokens == all_tokens(samples@, i as nat),
            match all_energy(samples@, i as nat) {
                Some(e) => energy_uj is Some && energy_uj->0 == e,
                None => energy_uj is None,
            },
        decreases samples@.len() - i,
    {
        let sample: BenchmarkSample = samples[i];
        proof {
            lemma_totals_grow(samples@, (i + 1) as nat, samples@.len());
        }
        elapsed_ns.push(sample.elapsed_ns);
        match sample.ttft_ns {
            Some(t) => {
                ttft_ns.push(t);
            },
            None => {},
        }
        tokens = tokens + sample.tokens;
        match sample.energy_uj {
            Some(e) => {
                energy_uj = match energy_uj {
                    Some(sum) => Some(sum + e),
                    None => Some(e),
                };
            },
            None => {},
        }
        i = i + 1;
        assert(elapsed_ns@ =~= samples@.take(i as int).map_values(
            |s: BenchmarkSample| s.elapsed_ns,
        ));
    }
    assert(samples@.take(i as int) =~= samples@);
    SampleTotals { elapsed_ns, ttft_ns, tokens, energy_uj }
}

// ---------------------------------------------------------------------------
// Reports of llama-bench
// ---------------------------------------------------------------------------

#[derive(Debug, Clone, PartialEq)]
pub struct LlamaBenchRow {
    pub model_filename: String,
    pub backend: String,
    pub test: String,
    pub n_prompt: usize,
    pub n_gen: usize,
    pub n_depth: usize,
    pub avg_ns: u128,
    pub stddev_ns: u128,
    pub avg_ts: F64,
    pub stddev_ts: F64,
}

/// The fields of a comma separated line from `at` on, the first of which began
/// with `current`. Between quotes commas do not count, and a quote is doubled.
pub open spec fn csv_fields(s: Seq<char>, at: int, quoted: bool, current: Seq<char>) -> Seq<Seq<char>>
    decreases s.len() - at,
{
    if at >= s.len() || at < 0 {
        seq![current]
    } else if s[at] == '"' {
        if quoted && at + 1 < s.len() && s[at + 1] == '"' {
            csv_fields(s, at + 2, quoted, current.push('"'))
        } else {
            csv_fields(s, at + 1, !quoted, current)
        }
    } else if s[at] == ',' && !quoted {
        seq![current] + csv_fields(s, at + 1, quoted, Seq::empty())
    } else {
        csv_fields(s, at + 1, quoted, current.push(s[at]))
    }
}

/// The fields of a comma separated line.
pub fn parse_csv_line(line: &str) -> (fields: Vec<String>)
    ensures
        text::texts(fields@) == csv_fields(line@, 0, false, Seq::empty()),
{
    let all: Vec<char> = characters(line);
    let ghost whole = csv_fields(line@, 0, false, Seq::empty());
    let mut fields: Vec<String> = Vec::new();
    let mut current: String = String::new();
    let mut quoted: bool = false;
    let mut at: usize = 0;
    let len: usize = all.len();
    assert(current@ =~= Seq::empty());
    assert(text::texts(fields@) + whole =~= whole);
    while at < len
        invariant
            at <= len == all@.len(),
            all@ == line@,
            whole == csv_fields(line@, 0, false, Seq::empty()),
            text::texts(fields@) + csv_fields(line@, at as int, quoted, current@) == whole,
        decreases len - at,
    {
        let c: char = all[at];
        let ghost before = text::texts(fields@);
        let ghost piece = current@;
        if c == '"' {
            if quoted && at < len - 1 && all[at + 1] == '"' {
                current.push('"');
                at = at + 2;
            } else {
                quoted = !quoted;
                at = at + 1;
            }
        } else if c == ',' && !quoted {
            fields.push(current);
            current = String::new();
            proof {
                assert(current@ =~= Seq::empty());
                assert(text::texts(fields@) =~= before + seq![piece]);
                let rest = csv_fields(line@, at + 1, quoted, Seq::empty());
                assert(text::texts(fields@) + rest =~= before + (seq![piece] + rest));
            }
            at = at + 1;
        } else {
            current.push(c);
            at = at + 1;
        }
    }
    let ghost before = text::texts(fields@);
    let ghost piece = current@;
    fields.push(current);
    assert(text::texts(fields@) =~= before + seq![piece]);
    fields
}

/// Those of the first `n` lines that hold more than white space.
pub open spec fn filled_lines(lines: Seq<Seq<char>>, n: nat) -> Seq<Seq<char>>
    decreases n,
{
    if n == 0 {
        Seq::empty()
    } else {
        let rest = filled_lines(lines, (n - 1) as nat);
        if text::blank(lines[n - 1]) {
            rest
        } else {
            rest.push(lines[n - 1])
        }
    }
}

/// The field under a header among the first `n` ones. The last one counts.
pub open spec fn cell(
    headers: Seq<Seq<char>>,
    fields: Seq<Seq<char>>,
    name: Seq<char>,
    n: nat,
) -> Option<Seq<char>>
    decreases n,
{
    if n == 0 {
        None
    } else if headers[n - 1] == name {
        Some(fields[n - 1])
    } else {
        cell(headers, fields, name, (n - 1) as nat)
    }
}

/// The field under a header.
pub open spec fn field_of(
    headers: Seq<Seq<char>>,
    fields: Seq<Seq<char>>,
    name: Seq<char>,
) -> Option<Seq<char>> {
    cell(headers, fields, name, speculative::paired(headers.len(), fields.len()))
}

fn find_field(headers: &Vec<String>, fields: &Vec<String>, name: &str) -> (f: Option<String>)
    ensures
        match field_of(text::texts(headers@), text::texts(fields@), name@) {
            Some(s) => f is Some && f->0@ == s,
            None => f is None,
        },
{
    let mut n: usize = if headers.len() < fields.len() {
        headers.len()
    } else {
        fields.len()
    };
    let ghost h = text::texts(headers@);
    let ghost v = text::texts(fields@);
    while n > 0
        invariant
            n <= headers@.len(),
            n <= fields@.len(),
            h == text::texts(headers@),
            v == text::texts(fields@),
            cell(h, v, name@, n as nat) == field_of(h, v, name@),
        decreases n,
    {
        assert(h[n - 1] == headers@[n - 1]@);
        assert(v[n - 1] == fields@[n - 1]@);
        if same_text(headers[n - 1].as_str(), name) {
            return Some(String::from_str(fields[n - 1].as_str()));
        }
        n = n - 1;
    }
    None
}

/// What is said of a field that is not there.
pub open spec fn missing_text(field: Seq<char>) -> Seq<char> {
    "missing "@ + field
}

/// What is said of a field that cannot be read.
pub open spec fn unreadable_text(field: Seq<char>, complaint: Seq<char>) -> Seq<char> {
    "failed to parse "@ + field + ": "@ + complaint
}

fn unreadable(field: &str, complaint: &str) -> (s: String)
    ensures
        s@ == unreadable_text(field@, complaint@),
{
    let mut s: String = joined("failed to parse ", field);
    s.append(": ");
    s.append(complaint);
    s
}

/// A field as a number.
pub open spec fn usize_field(value: Option<Seq<char>>, field: Seq<char>) -> Result<usize, Seq<char>> {
    match value {
        None => Err(missing_text(field)),
        Some(s) => if text::reads_as(s, usize::MAX as nat) {
            Ok(text::numeral(s)->0 as usize)
        } else {
            Err(unreadable_text(field, text::usize_complaint(s, usize::MAX as nat)))
        },
    }
}

/// A field as a long number.
pub open spec fn u128_field(value: Option<Seq<char>>, field: Seq<char>) -> Result<u128, Seq<char>> {
    match value {
        None => Err(missing_text(field)),
        Some(s) => if text::reads_as(s, u128::MAX as nat) {
            Ok(text::numeral(s)->0 as u128)
        } else {
            Err(unreadable_text(field, text::u128_complaint(s)))
        },
    }
}

/// Whether an outcome is the expected one.
pub open spec fn same_outcome<T>(r: Result<T, String>, expected: Result<T, Seq<char>>) -> bool {
    match expected {
        Ok(v) => r is Ok && r->Ok_0 == v,
        Err(e) => r is Err && r->Err_0@ == e,
    }
}

/// Reads a field as a number.
pub fn parse_usize(value: Option<&str>, field: &str) -> (r: Result<usize, String>)
    ensures
        same_outcome(
            r,
            usize_field(
                match value {
                    Some(s) => Some(s@),
                    None => None,
                },
                field@,
            ),
        ),
{
    match value {
        None => Err(joined("missing ", field)),
        Some(s) => match read_usize(s) {
            Ok(n) => Ok(n),
            Err(e) => Err(unreadable(field, e.as_str())),
        },
    }
}

/// Reads a field as a long number.
pub fn parse_u128(value: Option<&str>, field: &str) -> (r: Result<u128, String>)
    ensures
        same_outcome(
            r,
            u128_field(
                match value {
                    Some(s) => Some(s@),
                    None => None,
                },
                field@,
            ),
        ),
{
    match value {
        None => Err(joined("missing ", field)),
        Some(s) => match read_u128(s) {
            Ok(n) => Ok(n),
            Err(e) => Err(unreadable(field, e.as_str())),
        },
    }
}

fn usize_under(headers: &Vec<String>, fields: &Vec<String>, name: &str) -> (r: Result<
    usize,
    String,
>)
    ensures
        same_outcome(
            r,
            usize_field(field_of(text::texts(headers@), text::texts(fields@), name@), name@),
        ),
{
    match find_field(headers, fields, name) {
        Some(s) => parse_usize(Some(s.as_str()), name),
        None => parse_usize(None, name),
    }
}

fn u128_under(headers: &Vec<String>, fields: &Vec<String>, name: &str) -> (r: Result<u128, String>)
    ensures
        same_outcome(
            r,
            u128_field(field_of(text::texts(headers@), text::texts(fields@), name@), name@),
        ),
{
    match find_field(headers, fields, name) {
        Some(s) => parse_u128(Some(s.as_str()), name),
        None => parse_u128(None, name),
    }
}

/// A row of a report whose rates are still text.
#[derive(Debug)]
pub struct LlamaFields {
    pub model_filename: String,
    pub backend: String,
    pub test: String,
    pub n_prompt: usize,
    pub n_gen: usize,
    pub n_depth: usize,
    pub avg_ns: u128,
    pub stddev_ns: u128,
    pub avg_ts: Option<String>,
    pub stddev_ts: Option<String>,
}

/// Such a row as seen from outside.
pub struct FieldsModel {
    pub model_filename: Seq<char>,
    pub backend: Seq<char>,
    pub test: Seq<char>,
    pub n_prompt: usize,
    pub n_gen: usize,
    pub n_depth: usize,
    pub avg_ns: u128,
    pub stddev_ns: u128,
    pub avg_ts: Option<Seq<char>>,
    pub stddev_ts: Option<Seq<char>>,
}

/// An optional text, or the empty one.
pub open spec fn text_or_empty(s: Option<Seq<char>>) -> Seq<char> {
    match s {
        Some(t) => t,
        None => Seq::empty(),
    }
}

fn or_empty(s: Option<String>) -> (t: String)
    ensures
        t@ == text_or_empty(text::optional(s)),
{
    match s {
        Some(t) => t,
        None => {
            let t: String = String::new();
            assert(t@ =~= Seq::empty());
            t
        },
    }
}

impl View for LlamaFields {
    type V = FieldsModel;

    open spec fn view(&self) -> FieldsModel {
        FieldsModel {
            model_filename: self.model_filename@,
            backend: self.backend@,
            test: self.test@,
            n_prompt: self.n_prompt,
            n_gen: self.n_gen,
            n_depth: self.n_depth,
            avg_ns: self.avg_ns,
            stddev_ns: self.stddev_ns,
            avg_ts: text::optional(self.avg_ts),
            stddev_ts: text::optional(self.stddev_ts),
        }
    }
}

/// The first of two errors, if there is one.
pub open spec fn first_error(a: Option<Seq<char>>, b: Option<Seq<char>>) -> Option<Seq<char>> {
    if a is Some {
        a
    } else {
        b
    }
}

/// The error of an outcome, if it is one.
pub open spec fn error_of<T>(r: Result<T, Seq<char>>) -> Option<Seq<char>> {
    match r {
        Ok(_) => None,
        Err(e) => Some(e),
    }
}

/// A line of a report. Its numbers are read in order, and the first that cannot
/// be read counts.
pub open spec fn row_of(headers: Seq<Seq<char>>, line: Seq<char>) -> Result<FieldsModel, Seq<char>> {
    let f = csv_fields(line, 0, false, Seq::empty());
    let n_prompt = usize_field(field_of(headers, f, "n_prompt"@), "n_prompt"@);
    let n_gen = usize_field(field_of(headers, f, "n_gen"@), "n_gen"@);
    let n_depth = usize_field(field_of(headers, f, "n_depth"@), "n_depth"@);
    let avg_ns = u128_field(field_of(headers, f, "avg_ns"@), "avg_ns"@);
    let stddev_ns = u128_field(field_of(headers, f, "stddev_ns"@), "stddev_ns"@);
    let error = first_error(
        first_error(
            first_error(first_error(error_of(n_prompt), error_of(n_gen)), error_of(n_depth)),
            error_of(avg_ns),
        ),
        error_of(stddev_ns),
    );
    match error {
        Some(e) => Err(e),
        None => Ok(
            FieldsModel {
                model_filename: text_or_empty(field_of(headers, f, "model_filename"@)),
                backend: text_or_empty(field_of(headers, f, "backends"@)),
                test: llama_test_text(n_prompt->Ok_0, n_gen->Ok_0, n_depth->Ok_0),
                n_prompt: n_prompt->Ok_0,
                n_gen: n_gen->Ok_0,
                n_depth: n_depth->Ok_0,
                avg_ns: avg_ns->Ok_0,
                stddev_ns: stddev_ns->Ok_0,
                avg_ts: field_of(headers, f, "avg_ts"@),
                stddev_ts: field_of(headers, f, "stddev_ts"@),
            },
        ),
    }
}

fn parse_llama_row(headers: &Vec<String>, line: &str) -> (r: Result<LlamaFields, String>)
    ensures
        match row_of(text::texts(headers@), line@) {
            Ok(m) => r is Ok && r->Ok_0@ == m,
            Err(e) => r is Err && r->Err_0@ == e,
        },
{
    let fields: Vec<String> = parse_csv_line(line);
    let n_prompt: usize = match usize_under(headers, &fields, "n_prompt") {
        Ok(n) => n,
        Err(e) => {
            return Err(e);
        },
    };
    let n_gen: usize = match usize_under(headers, &fields, "n_gen") {
        Ok(n) => n,
        Err(e) => {
            return Err(e);
        },
    };
    let n_depth: usize = match usize_under(headers, &fields, "n_depth") {
        Ok(n) => n,
        Err(e) => {
            return Err(e);
        },
    };
    let avg_ns: u128 = match u128_under(headers, &fields, "avg_ns") {
        Ok(n) => n,
        Err(e) => {
            return Err(e);
        },
    };
    let stddev_ns: u128 = match u128_under(headers, &fields, "stddev_ns") {
        Ok(n) => n,
        Err(e) => {
            return Err(e);
        },
    };
    Ok(
        LlamaFields {
            model_filename: or_empty(find_field(headers, &fields, "model_filename")),
            backend: or_empty(find_field(headers, &fields, "backends")),
            test: format_llama_test(n_prompt, n_gen, n_depth),
            n_prompt,
            n_gen,
            n_depth,
            avg_ns,
            stddev_ns,
            avg_ts: find_field(headers, &fields, "avg_ts"),
            stddev_ts: find_field(headers, &fields, "stddev_ts"),
        },
    )
}

/// The rows of a report up to the first line that cannot be read, and what is
/// wrong with that one.
#[derive(Debug)]
pub struct LlamaTable {
    pub rows: Vec<LlamaFields>,
    pub fault: Option<String>,
}

/// Such a table as seen from outside.
pub struct TableModel {
    pub rows: Seq<FieldsModel>,
    pub fault: Option<Seq<char>>,
}

impl View for LlamaTable {
    type V = TableModel;

    open spec fn view(&self) -> TableModel {
        TableModel {
            rows: self.rows@.map_values(|f: LlamaFields| f@),
            fault: text::optional(self.fault),
        }
    }
}

/// The rows in the first `n` lines.
pub open spec fn table_of(headers: Seq<Seq<char>>, lines: Seq<Seq<char>>, n: nat) -> TableModel
    decreases n,
{
    if n == 0 {
        TableModel { rows: Seq::empty(), fault: None }
    } else {
        let before = table_of(headers, lines, (n - 1) as nat);
        if before.fault is Some {
            before
        } else {
            match row_of(headers, lines[n - 1]) {
                Ok(m) => TableModel { rows: before.rows.push(m), fault: None },
                Err(e) => TableModel { rows: before.rows, fault: Some(e) },
            }
        }
    }
}

/// A report as a whole: lines of white space do not count, the first line holds
/// the headers, and without any line there are no rows.
pub open spec fn report_of(input: Seq<char>) -> TableModel {
    let all = text::lines_from(input, 0, 0);
    let filled = filled_lines(all, all.len());
    if filled.len() == 0 {
        TableModel { rows: Seq::empty(), fault: None }
    } else {
        table_of(
            csv_fields(filled[0], 0, false, Seq::empty()),
            filled.drop_first(),
            (filled.len() - 1) as nat,
        )
    }
}

proof fn lemma_fault_stays(headers: Seq<Seq<char>>, lines: Seq<Seq<char>>, a: nat, b: nat)
    requires
        a <= b,
        table_of(headers, lines, a).fault is Some,
    ensures
        table_of(headers, lines, b) == table_of(headers, lines, a),
    decreases b,
{
    if a < b {
        lemma_fault_stays(headers, lines, a, (b - 1) as nat);
    }
}

/// Reads a report of llama-bench, but for the rates in it.
pub fn parse_llama_csv(input: &str) -> (t: LlamaTable)
    ensures
        t@ == report_of(input@),
{
    let every: Vec<String> = lines(input);
    let ghost all = text::lines_from(input@, 0, 0);
    let mut filled: Vec<String> = Vec::new();
    let mut i: usize = 0;
    while i < every.len()
        invariant
            i <= every@.len(),
            text::texts(every@) == all,
            text::texts(filled@) == filled_lines(all, i as nat),
        decreases every@.len() - i,
    {
        let line: &String = &every[i];
        assert(all[i as int] == line@);
        let ghost before = filled@;
        if !is_blank(line.as_str()) {
            let copy: String = String::from_str(line.as_str());
            filled.push(copy);
            assert(text::texts(filled@) =~= text::texts(before).push(copy@));
        }
        i = i + 1;
    }
    let ghost kept = text::texts(filled@);
    assert(kept == filled_lines(all, all.len()));
    let mut rows: Vec<LlamaFields> = Vec::new();
    if filled.len() == 0 {
        let t = LlamaTable { rows, fault: None };
        assert(t@.rows =~= Seq::empty());
        return t;
    }
    assert(kept[0] == filled@[0]@);
    let headers: Vec<String> = parse_csv_line(filled[0].as_str());
    let ghost h = text::texts(headers@);
    let ghost rest = kept.drop_first();
    let len: usize = filled.len();
    let mut k: usize = 1;
    assert(rows@.map_values(|f: LlamaFields| f@) =~= Seq::empty());
    while k < len
        invariant
            1 <= k <= len,
            len == filled@.len(),
            kept == text::texts(filled@),
            rest == kept.drop_first(),
            h == text::texts(headers@),
            h == csv_fields(kept[0], 0, false, Seq::empty()),
            kept == filled_lines(all, all.len()),
            all == text::lines_from(input@, 0, 0),
            table_of(h, rest, (k - 1) as nat) == (TableModel {
                rows: rows@.map_values(|f: LlamaFields| f@),
                fault: None,
            }),
        decreases len - k,
    {
        assert(rest[k - 1] == filled@[k as int]@);
        match parse_llama_row(&headers, filled[k].as_str()) {
            Ok(row) => {
                let ghost before = rows@.map_values(|f: LlamaFields| f@);
                rows.push(row);
                assert(rows@.map_values(|f: LlamaFields| f@) =~= before.push(row@));
            },
            Err(e) => {
                proof {
                    lemma_fault_stays(h, rest, k as nat, (len - 1) as nat);
                }
                return LlamaTable { rows, fault: Some(e) };
            },
        }
        k = k + 1;
    }
    LlamaTable { rows, fault: None }
}

// ---------------------------------------------------------------------------
// Rates and comparison
// ---------------------------------------------------------------------------

/// What came of reading the rates of a row: the values, or the complaints.
#[derive(Debug)]
pub struct RowRates {
    pub avg_ts: Result<F64, String>,
    pub stddev_ts: Result<F64, String>,
}

/// A rate: the field must be there and must have been readable.
pub open spec fn rate_field(
    value: Option<Seq<char>>,
    read: Result<F64, String>,
    field: Seq<char>,
) -> Result<F64, Seq<char>> {
    match value {
        None => Err(missing_text(field)),
        Some(_) => match read {
            Ok(v) => Ok(v),
            Err(e) => Err(unreadable_text(field, e@)),
        },
    }
}

fn settle_rate(value: &Option<String>, read: Result<F64, String>, field: &str) -> (r: Result<
    F64,
    String,
>)
    ensures
        same_outcome(r, rate_field(text::optional(*value), read, field@)),
{
    match value {
        None => Err(joined("missing ", field)),
        Some(_) => match read {
            Ok(v) => Ok(v),
            Err(e) => Err(unreadable(field, e.as_str())),
        },
    }
}

/// Whether a row is what some fields and rates make.
pub open spec fn is_row(m: FieldsModel, avg_ts: F64, stddev_ts: F64, row: LlamaBenchRow) -> bool {
    &&& row.model_filename@ == m.model_filename
    &&& row.backend@ == m.backend
    &&& row.test@ == m.test
    &&& row.n_prompt == m.n_prompt
    &&& row.n_gen == m.n_gen
    &&& row.n_depth == m.n_depth
    &&& row.avg_ns == m.avg_ns
    &&& row.stddev_ns == m.stddev_ns
    &&& row.avg_ts == avg_ts
    &&& row.stddev_ts == stddev_ts
}

/// Puts the rates into a row.
pub fn finish_row(fields: LlamaFields, rates: RowRates) -> (r: Result<LlamaBenchRow, String>)
    ensures
        ({
            let avg = rate_field(fields@.avg_ts, rates.avg_ts, "avg_ts"@);
            let stddev = rate_field(fields@.stddev_ts, rates.stddev_ts, "stddev_ts"@);
            match first_error(error_of(avg), error_of(stddev)) {
                Some(e) => r is Err && r->Err_0@ == e,
                None => r is Ok && is_row(fields@, avg->Ok_0, stddev->Ok_0, r->Ok_0),
            }
        }),
{
    let avg_ts: F64 = match settle_rate(&fields.avg_ts, rates.avg_ts, "avg_ts") {
        Ok(v) => v,
        Err(e) => {
            return Err(e);
        },
    };
    let stddev_ts: F64 = match settle_rate(&fields.stddev_ts, rates.stddev_ts, "stddev_ts") {
        Ok(v) => v,
        Err(e) => {
            return Err(e);
        },
    };
    Ok(
        LlamaBenchRow {
            model_filename: fields.model_filename,
            backend: fields.backend,
            test: fields.test,
            n_prompt: fields.n_prompt,
            n_gen: fields.n_gen,
            n_depth: fields.n_depth,
            avg_ns: fields.avg_ns,
            stddev_ns: fields.stddev_ns,
            avg_ts,
            stddev_ts,
        },
    )
}

/// Whether entry `i` is the last row of a test.
pub open spec fn last_of_test(rows: Seq<LlamaBenchRow>, test: Seq<char>, i: int) -> bool {
    &&& 0 <= i < rows.len()
    &&& rows[i].test@ == test
    &&& forall|k: int| i < k < rows.len() ==> (#[trigger] rows[k]).test@ != test
}

/// The row to compare a test with: the last one of the same name.
pub fn baseline_for(rows: &[LlamaBenchRow], test: &str) -> (i: Option<usize>)
    ensures
        match i {
            Some(i) => last_of_test(rows@, test@, i as int),
            None => forall|k: int| 0 <= k < rows@.len() ==> (#[trigger] rows@[k]).test@ != test@,
        },
{
    let mut n: usize = rows.len();
    while n > 0
        invariant
            n <= rows@.len(),
            forall|k: int| n <= k < rows@.len() ==> (#[trigger] rows@[k]).test@ != test@,
        decreases n,
    {
        if same_text(rows[n - 1].test.as_str(), test) {
            return Some(n - 1);
        }
        n = n - 1;
    }
    None
}

/// A test is compared with a row of its own name only: the names of this
/// benchmark and of llama-bench agree for the same lengths and depth.
pub proof fn tests_are_named_alike(prompt_len: usize, gen_len: usize, depth: usize)
    ensures
        prompt_len > 0 ==> mode_text(BenchmarkMode::PromptProcessing, prompt_len, 0, depth)
            == llama_test_text(prompt_len, 0, depth),
        gen_len > 0 ==> mode_text(BenchmarkMode::Generation, 0, gen_len, depth)
            == llama_test_text(0, gen_len, depth),
        prompt_len > 0 && gen_len > 0 ==> mode_text(
            BenchmarkMode::PromptPlusGeneration,
            prompt_len,
            gen_len,
            depth,
        ) == llama_test_text(prompt_len, gen_len, depth),
{
}

/// A field as it is written between quotes: every quote in it is doubled.
pub open spec fn quoted_field(f: Seq<char>) -> Seq<char>
    decreases f.len(),
{
    if f.len() == 0 {
        Seq::empty()
    } else if f.last() == '"' {
        quoted_field(f.drop_last()).push('"').push('"')
    } else {
        quoted_field(f.drop_last()).push(f.last())
    }
}

/// Reading through a quoted field gathers it.
proof fn lemma_csv_walk(pre: Seq<char>, f: Seq<char>, post: Seq<char>, current: Seq<char>)
    ensures
        csv_fields(pre + quoted_field(f) + post, pre.len() as int, true, current) == csv_fields(
            pre + quoted_field(f) + post,
            (pre.len() + quoted_field(f).len()) as int,
            true,
            current + f,
        ),
    decreases f.len(),
{
    let s = pre + quoted_field(f) + post;
    if f.len() == 0 {
        assert(current + f =~= current);
    } else {
        let g = f.drop_last();
        let c = f.last();
        let q = quoted_field(g);
        let at = (pre.len() + q.len()) as int;
        let tail = if c == '"' {
            seq!['"', '"'] + post
        } else {
            seq![c] + post
        };
        assert(s =~= pre + q + tail);
        lemma_csv_walk(pre, g, tail, current);
        assert(s[at] == c);
        assert((current + g).push(c) =~= current + f);
        if c == '"' {
            assert(s[at + 1] == '"');
        }
    }
}

/// What is written between quotes, with every quote doubled, is read back as
/// one field, whatever it holds.
pub proof fn quoted_fields_are_read_back(f: Seq<char>)
    ensures
        csv_fields(seq!['"'] + quoted_field(f) + seq!['"'], 0, false, Seq::empty()) == seq![f],
{
    let pre = seq!['"'];
    let post = seq!['"'];
    let s = pre + quoted_field(f) + post;
    let end = (1 + quoted_field(f).len()) as int;
    assert(s[0] == '"');
    assert(csv_fields(s, 0, false, Seq::empty()) == csv_fields(s, 1, true, Seq::empty()));
    lemma_csv_walk(pre, f, post, Seq::empty());
    assert(Seq::<char>::empty() + f =~= f);
    assert(s[end] == '"');
    assert(csv_fields(s, end, true, f) == csv_fields(s, end + 1, false, f));
}

proof fn lemma_plain_fields(s: Seq<char>, at: int, current: Seq<char>)
    requires
        0 <= at <= s.len(),
        !s.contains('"'),
    ensures
        csv_fields(s, at, false, current) == text::pieces_from(s, ',', at, current),
    decreases s.len() - at,
{
    if at < s.len() {
        assert(s.contains(s[at]));
        if s[at] == ',' {
            lemma_plain_fields(s, at + 1, Seq::empty());
        } else {
            lemma_plain_fields(s, at + 1, current.push(s[at]));
        }
    }
}

/// A line without quotes is split at its commas: with commas between them the fields
/// give the line back, and none of them holds a comma.
pub proof fn plain_lines_are_split_at_commas(s: Seq<char>)
    requires
        !s.contains('"'),
    ensures
        ({
            let f = csv_fields(s, 0, false, Seq::empty());
            &&& f.len() > 0
            &&& text::separated(f, seq![','], f.len()) == s
            &&& forall|i: int| 0 <= i < f.len() ==> !(#[trigger] f[i]).contains(',')
        }),
{
    lemma_plain_fields(s, 0, Seq::empty());
    text::pieces_make_the_text(s, ',');
}

/// The lines that count are those that hold more than white space, and no others.
pub proof fn blank_lines_are_left_out(lines: Seq<Seq<char>>, n: nat, i: int)
    requires
        n <= lines.len(),
    ensures
        filled_lines(lines, n).len() <= n,
        forall|k: int|
            0 <= k < filled_lines(lines, n).len() ==> !text::blank(
                #[trigger] filled_lines(lines, n)[k],
            ),
        0 <= i < n && !text::blank(lines[i]) ==> filled_lines(lines, n).contains(lines[i]),
    decreases n,
{
    if n > 0 {
        blank_lines_are_left_out(lines, (n - 1) as nat, i);
        let rest = filled_lines(lines, (n - 1) as nat);
        let all = filled_lines(lines, n);
        if !text::blank(lines[n - 1]) {
            assert(all[rest.len() as int] == lines[n - 1]);
        }
        if 0 <= i < n - 1 && !text::blank(lines[i]) {
            let k = choose|k: int| 0 <= k < rest.len() && rest[k] == lines[i];
            assert(all[k] == lines[i]);
        }
    }
}

/// A field stands under its header: where a header occurs more than once, under the
/// last one.
pub proof fn fields_stand_under_their_headers(
    headers: Seq<Seq<char>>,
    fields: Seq<Seq<char>>,
    name: Seq<char>,
    n: nat,
    k: int,
)
    requires
        n <= headers.len(),
    ensures
        0 <= k < n && headers[k] == name && (forall|j: int|
            k < j < n ==> #[trigger] headers[j] != name) ==> cell(headers, fields, name, n) == Some(
            fields[k],
        ),
        (forall|j: int| 0 <= j < n ==> #[trigger] headers[j] != name) ==> cell(
            headers,
            fields,
            name,
            n,
        ) is None,
    decreases n,
{
    if n > 0 {
        fields_stand_under_their_headers(headers, fields, name, (n - 1) as nat, k);
        if headers[n - 1] == name && k < n - 1 {
            assert(headers[n - 1] == name);
        }
    }
}

/// A row holds the numbers under its headers, each under its own name, and the name
/// that a test of these lengths has.
pub proof fn rows_hold_the_numbers_of_their_fields(
    headers: Seq<Seq<char>>,
    line: Seq<char>,
    field: Seq<char>,
)
    requires
        row_of(headers, line) is Ok,
    ensures
        ({
            let m = row_of(headers, line)->Ok_0;
            let f = csv_fields(line, 0, false, Seq::empty());
            let under = |name: Seq<char>| field_of(headers, f, name) == Some(field);
            &&& under("n_prompt"@) ==> text::numeral(field) == Some(m.n_prompt as nat)
            &&& under("n_gen"@) ==> text::numeral(field) == Some(m.n_gen as nat)
            &&& under("n_depth"@) ==> text::numeral(field) == Some(m.n_depth as nat)
            &&& under("avg_ns"@) ==> text::numeral(field) == Some(m.avg_ns as nat)
            &&& under("stddev_ns"@) ==> text::numeral(field) == Some(m.stddev_ns as nat)
            &&& under("avg_ts"@) ==> m.avg_ts == Some(field)
            &&& under("stddev_ts"@) ==> m.stddev_ts == Some(field)
            &&& under("model_filename"@) ==> m.model_filename == field
            &&& under("backends"@) ==> m.backend == field
            &&& m.n_prompt > 0 && m.n_gen == 0 ==> m.test == mode_text(
                BenchmarkMode::PromptProcessing,
                m.n_prompt,
                0,
                m.n_depth,
            )
            &&& m.n_prompt == 0 && m.n_gen > 0 ==> m.test == mode_text(
                BenchmarkMode::Generation,
                0,
                m.n_gen,
                m.n_depth,
            )
            &&& m.n_prompt > 0 && m.n_gen > 0 ==> m.test == mode_text(
                BenchmarkMode::PromptPlusGeneration,
                m.n_prompt,
                m.n_gen,
                m.n_depth,
            )
        }),
{
}

/// A prompt and a generation together are as many tokens as each of them alone.
pub proof fn modes_add_up(prompt_len: usize, gen_len: usize)
    ensures
        tokens_of_mode(BenchmarkMode::PromptPlusGeneration, prompt_len, gen_len)
            == tokens_of_mode(BenchmarkMode::PromptProcessing, prompt_len, gen_len)
            + tokens_of_mode(BenchmarkMode::Generation, prompt_len, gen_len),
        tokens_of_mode(BenchmarkMode::PromptProcessing, prompt_len, gen_len) == prompt_len,
        tokens_of_mode(BenchmarkMode::Generation, prompt_len, gen_len) == gen_len,
{
}

/// What is cached before a measurement is as much as was asked for, but no more than
/// the prompt has.
pub proof fn warm_starts_are_part_of_the_prompt(config: BenchmarkConfig)
    requires
        config.prompt_len <= u32::MAX,
    ensures
        warm_tokens(config) <= config.prompt_len,
        warm_tokens(config) <= config.cached_depth,
        warm_tokens(config) == config.prompt_len || warm_tokens(config) == config.cached_depth,
{
}

/// There are times to the first token exactly where a sample has one.
pub proof fn first_token_times_are_those_of_the_samples(
    samples: Seq<BenchmarkSample>,
    n: nat,
    i: int,
)
    requires
        n <= samples.len(),
    ensures
        first_token_times(samples, n).len() <= n,
        0 <= i < n && samples[i].ttft_ns is Some ==> first_token_times(samples, n).contains(
            samples[i].ttft_ns->0,
        ),
        (forall|k: int| 0 <= k < n ==> (#[trigger] samples[k]).ttft_ns is None)
            ==> first_token_times(samples, n).len() == 0,
    decreases n,
{
    if n > 0 {
        first_token_times_are_those_of_the_samples(samples, (n - 1) as nat, i);
        let rest = first_token_times(samples, (n - 1) as nat);
        let all = first_token_times(samples, n);
        if 0 <= i < n - 1 && samples[i].ttft_ns is Some {
            let t = samples[i].ttft_ns->0;
            let k = choose|k: int| 0 <= k < rest.len() && rest[k] == t;
            assert(all[k] == t);
        } else if i == n - 1 && samples[i].ttft_ns is Some {
            assert(all[rest.len() as int] == samples[i].ttft_ns->0);
        }
    }
}

/// Energy counts exactly where a sample measured it, and is the sum of what they
/// measured.
pub proof fn energy_counts_where_it_was_measured(samples: Seq<BenchmarkSample>, n: nat)
    requires
        n < samples.len(),
    ensures
        all_energy(samples, 0) is None,
        samples[n as int].energy_uj is None ==> all_energy(samples, n + 1) == all_energy(
            samples,
            n,
        ),
        samples[n as int].energy_uj is Some && all_energy(samples, n) is None ==> all_energy(
            samples,
            n + 1,
        ) == Some(samples[n as int].energy_uj->0 as nat),
        samples[n as int].energy_uj is Some && all_energy(samples, n) is Some ==> all_energy(
            samples,
            n + 1,
        ) == Some(all_energy(samples, n)->0 + samples[n as int].energy_uj->0 as nat),
        all_tokens(samples, n + 1) == all_tokens(samples, n) + samples[n as int].tokens,
        all_tokens(samples, 0) == 0,
{
}


/// Whether a brand holds one of the names and none of the others.
pub open spec fn only_names(brand: Seq<char>, name: Seq<char>) -> bool {
    let names = seq![
        "m1 ultra"@,
        "m1 max"@,
        "m1 pro"@,
        "m2 ultra"@,
        "m2 max"@,
        "m2 pro"@,
        "m3 max"@,
        "m3 pro"@,
    ];
    forall|i: int|
        0 <= i < names.len() ==> (text::holds(brand, #[trigger] names[i]) <==> names[i] == name)
}

/// A larger chip of a generation has twice the bandwidth of the next smaller one, and
/// computes at least twice as fast; one of a later generation computes faster than one of
/// the same size before it; and one without a name is taken for a smaller one than all.
pub proof fn larger_chips_have_more(brand: spec_fn(Seq<char>) -> Seq<char>, unknown: Seq<char>)
    requires
        only_names(brand("m1 ultra"@), "m1 ultra"@),
        only_names(brand("m1 max"@), "m1 max"@),
        only_names(brand("m1 pro"@), "m1 pro"@),
        only_names(brand("m2 ultra"@), "m2 ultra"@),
        only_names(brand("m2 max"@), "m2 max"@),
        only_names(brand("m2 pro"@), "m2 pro"@),
        only_names(brand("m3 max"@), "m3 max"@),
        only_names(brand("m3 pro"@), "m3 pro"@),
        only_names(unknown, Seq::empty()),
    ensures
        ({
            let of = |name: Seq<char>| peaks_of(brand(name));
            &&& of("m1 ultra"@).bw_gb_s == 2 * of("m1 max"@).bw_gb_s
            &&& of("m1 max"@).bw_gb_s == 2 * of("m1 pro"@).bw_gb_s
            &&& of("m2 ultra"@).bw_gb_s == 2 * of("m2 max"@).bw_gb_s
            &&& of("m2 max"@).bw_gb_s == 2 * of("m2 pro"@).bw_gb_s
            &&& of("m2 max"@).bw_gb_s == of("m3 max"@).bw_gb_s
            &&& of("m3 pro"@).bw_gb_s < of("m2 pro"@).bw_gb_s
            &&& of("m1 ultra"@).tflops_tenths >= 2 * of("m1 max"@).tflops_tenths
            &&& of("m1 max"@).tflops_tenths == 2 * of("m1 pro"@).tflops_tenths
            &&& of("m2 ultra"@).tflops_tenths == 2 * of("m2 max"@).tflops_tenths
            &&& of("m2 max"@).tflops_tenths == 2 * of("m2 pro"@).tflops_tenths
            &&& of("m3 max"@).tflops_tenths == 2 * of("m3 pro"@).tflops_tenths
            &&& of("m1 max"@).tflops_tenths < of("m2 max"@).tflops_tenths
                < of("m3 max"@).tflops_tenths
            &&& peaks_of(unknown).bw_gb_s < of("m3 pro"@).bw_gb_s
            &&& peaks_of(unknown).tflops_tenths < of("m1 pro"@).tflops_tenths
        }),
{
    reveal_strlit("m1 ultra");
    reveal_strlit("m1 max");
    reveal_strlit("m1 pro");
    reveal_strlit("m2 ultra");
    reveal_strlit("m2 max");
    reveal_strlit("m2 pro");
    reveal_strlit("m3 max");
    reveal_strlit("m3 pro");
    let names = seq![
        "m1 ultra"@,
        "m1 max"@,
        "m1 pro"@,
        "m2 ultra"@,
        "m2 max"@,
        "m2 pro"@,
        "m3 max"@,
        "m3 pro"@,
    ];
    assert(names[0][1] == '1' && names[1][1] == '1' && names[2][1] == '1');
    assert(names[3][1] == '2' && names[4][1] == '2' && names[5][1] == '2');
    assert(names[6][1] == '3' && names[7][1] == '3');
    assert(names[0][3] == 'u' && names[3][3] == 'u');
    assert(names[1][3] == 'm' && names[4][3] == 'm' && names[6][3] == 'm');
    assert(names[2][3] == 'p' && names[5][3] == 'p' && names[7][3] == 'p');
    assert(names[0].len() > 0 && names[1].len() > 0 && names[2].len() > 0 && names[3].len() > 0);
    assert(names[4].len() > 0 && names[5].len() > 0 && names[6].len() > 0 && names[7].len() > 0);
}
} // verus!
