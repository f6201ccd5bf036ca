//! The chat server's own rules.

use vstd::prelude::*;
use vstd::string::*;
use crate::chat_template;
use crate::engine::EngineConfig;
use crate::metal::config::{MetalBackendConfig, MetalRuntimeConfig};
use crate::model_loader;
use crate::model_loader::ModelMeta;
use crate::paged_attention::KvCacheType;
use crate::radix_cache::TokenId;
use crate::runtime::MemoryRuntimeConfig;
use crate::scalar::F64;
use crate::scheduler::SchedulerMetrics;
use crate::text;
use crate::text::push_decimal;
use crate::tokenizer;
use crate::tokenizer::Tokenizer;

verus! {

/// How many tokens a request gets that does not ask for a number.
pub fn default_max_tokens() -> (n: usize)
    ensures
        n == 128,
{
    128
}

/// The prompt tokens of a conversation: what the chat template makes of it,
/// encoded.
pub fn chat_tokens(tokenizer: &Tokenizer, messages: &[serde_json::Value]) -> (r: Result<
    Vec<TokenId>,
    String,
>)
    ensures
        match tokenizer::chat_prompt(
            model_loader::or_else(tokenizer@.chat_template, chat_template::default_template()),
            messages@,
            true,
        ) {
            Ok(s) => r is Ok && r->Ok_0@ == tokenizer::encoded(tokenizer@.ids, s),
            Err(e) => r is Err && r->Err_0@ == e,
        },
{
    match tokenizer.apply_chat_template(messages, true) {
        Ok(prompt) => Ok(tokenizer.encode(prompt.as_str())),
        Err(e) => Err(e),
    }
}

// ---------------------------------------------------------------------------
// Settings
// ---------------------------------------------------------------------------

/// How the server sets its engine, its memory and its model up.
#[derive(Debug, Clone)]
pub struct ServeSettings {
    pub engine: EngineConfig,
    pub runtime: MetalRuntimeConfig,
    pub backend: MetalBackendConfig,
}

/// The memory of a server: 1024 pages of 16 tokens, with four bytes per token.
pub open spec fn serve_memory(n_layer: usize, slots: usize) -> MemoryRuntimeConfig {
    MemoryRuntimeConfig {
        bytes_per_token: 4,
        paged_block_size: 16,
        paged_total_pages: 1024,
        n_layer,
        unified_memory: true,
        max_slots: slots,
    }
}

/// The settings for a model and a number of requests that are served at once.
pub fn serve_settings(meta: &ModelMeta, slots: usize) -> (s: ServeSettings)
    ensures
        s.engine == (EngineConfig {
            draft_window: 4,
            memory: serve_memory(meta.n_layer, slots),
            kv_type: KvCacheType::Fp32,
        }),
        s.runtime.model_name@ == "velo-llama"@,
        s.runtime.memory == serve_memory(meta.n_layer, slots),
        s.runtime.quantization == meta.quantization,
        s.backend.model_name@ == "llama-metal"@,
        s.backend.max_context_tokens == meta.n_ctx,
        s.backend.kv_bytes_per_token == 4,
        s.backend.paged_block_size == 16,
        s.backend.quantization == meta.quantization,
        s.backend.kv_type == KvCacheType::Fp32,
{
    let memory: MemoryRuntimeConfig = MemoryRuntimeConfig {
        bytes_per_token: 4,
        paged_block_size: 16,
        paged_total_pages: 1024,
        n_layer: meta.n_layer,
        unified_memory: true,
        max_slots: slots,
    };
    let mut backend: MetalBackendConfig = MetalBackendConfig::default();
    backend.max_context_tokens = meta.n_ctx;
    backend.kv_bytes_per_token = 4;
    backend.paged_block_size = 16;
    backend.quantization = meta.quantization;
    ServeSettings {
        engine: EngineConfig { draft_window: 4, memory, kv_type: KvCacheType::Fp32 },
        runtime: MetalRuntimeConfig {
            model_name: String::from_str("velo-llama"),
            memory,
            quantization: meta.quantization,
        },
        backend,
    }
}

// ---------------------------------------------------------------------------
// Answers
// ---------------------------------------------------------------------------

/// What a request has used.
#[derive(Debug, Clone, Copy, PartialEq)]
pub struct ChatUsage {
    pub prompt_tokens: usize,
    pub completion_tokens: usize,
    pub total_tokens: usize,
    pub energy_uj: Option<u128>,
    pub hardware_utilization: Option<F64>,
}

#[derive(Debug, Clone, PartialEq)]
pub struct ChatDelta {
    pub content: Option<String>,
}

#[derive(Debug, Clone, PartialEq)]
pub struct ChatStreamChoice {
    pub index: usize,
    pub delta: ChatDelta,
    pub finish_reason: Option<String>,
}

/// One piece of a streamed answer.
#[derive(Debug, Clone, PartialEq)]
pub struct ChatStreamResponse {
    pub id: String,
    pub object: String,
    pub created: u64,
    pub model: String,
    pub choices: Vec<ChatStreamChoice>,
    pub usage: Option<ChatUsage>,
}

/// Whether `r` is a piece of an answer with one choice.
pub open spec fn is_piece(
    r: ChatStreamResponse,
    content: Option<Seq<char>>,
    finish: Option<Seq<char>>,
    usage: Option<ChatUsage>,
) -> bool {
    &&& r.id@ == "velo-123"@
    &&& r.object@ == "chat.completion.chunk"@
    &&& r.created == 123456789
    &&& r.model@ == "velo-llama"@
    &&& r.choices@.len() == 1
    &&& r.choices@[0].index == 0
    &&& text::optional(r.choices@[0].delta.content) == content
    &&& text::optional(r.choices@[0].finish_reason) == finish
    &&& r.usage == usage
}

fn piece(content: Option<String>, finish: Option<String>, usage: Option<ChatUsage>) -> (r:
    ChatStreamResponse)
    ensures
        is_piece(r, text::optional(content), text::optional(finish), usage),
{
    let mut choices: Vec<ChatStreamChoice> = Vec::new();
    choices.push(
        ChatStreamChoice { index: 0, delta: ChatDelta { content }, finish_reason: finish },
    );
    ChatStreamResponse {
        id: String::from_str("velo-123"),
        object: String::from_str("chat.completion.chunk"),
        created: 123456789,
        model: String::from_str("velo-llama"),
        choices,
        usage,
    }
}

/// The piece of an answer for one token.
pub fn token_piece(content: String) -> (r: ChatStreamResponse)
    ensures
        is_piece(r, Some(content@), None, None),
{
    piece(Some(content), None, None)
}

/// The end of an answer: what the request has used. The utilization counts only
/// if time has passed.
pub fn final_piece(
    prompt_tokens: usize,
    completion_tokens: usize,
    elapsed_ns: u128,
    utilization: F64,
) -> (r: ChatStreamResponse)
    requires
        prompt_tokens + completion_tokens <= usize::MAX,
    ensures
        is_piece(
            r,
            None,
            Some("stop"@),
            Some(
                ChatUsage {
                    prompt_tokens,
                    completion_tokens,
                    total_tokens: (prompt_tokens + completion_tokens) as usize,
                    energy_uj: None,
                    hardware_utilization: if elapsed_ns > 0 {
                        Some(utilization)
                    } else {
                        None
                    },
                },
            ),
        ),
{
    let hardware_utilization: Option<F64> = if elapsed_ns > 0 {
        Some(utilization)
    } else {
        None
    };
    piece(
        None,
        Some(String::from_str("stop")),
        Some(
            ChatUsage {
                prompt_tokens,
                completion_tokens,
                total_tokens: prompt_tokens + completion_tokens,
                energy_uj: None,
                hardware_utilization,
            },
        ),
    )
}

// ---------------------------------------------------------------------------
// Metrics
// ---------------------------------------------------------------------------

/// A metric: its meaning, its kind and its value.
pub open spec fn metric(
    name: Seq<char>,
    help: Seq<char>,
    kind: Seq<char>,
    value: Seq<char>,
) -> Seq<char> {
    "# HELP "@ + name + " "@ + help + "\n# TYPE "@ + name + " "@ + kind + "\n"@ + name + " "@
        + value + "\n"@
}

/// An average, or zero where nothing was counted.
pub open spec fn average(count: nat, notation: Seq<char>) -> Seq<char> {
    if count > 0 {
        notation
    } else {
        "0.00"@
    }
}

/// The metrics of a scheduler, `uptime` seconds after its start. `avg_ttft` and
/// `rate` are the time to the first token per request, and the tokens per
/// second, in decimal notation.
pub open spec fn metrics_shown(
    m: SchedulerMetrics,
    avg_ttft: Seq<char>,
    rate: Seq<char>,
    uptime: u64,
) -> Seq<char> {
    metric(
        "velo_tokens_total"@,
        "Total tokens generated"@,
        "counter"@,
        text::decimal(m.total_tokens_generated as nat),
    ) + "\n"@ + metric(
        "velo_requests_total"@,
        "Total requests completed"@,
        "counter"@,
        text::decimal(m.total_requests_completed as nat),
    ) + "\n"@ + metric(
        "velo_active_slots"@,
        "Current active slots"@,
        "gauge"@,
        text::decimal(m.active_slots as nat),
    ) + "\n"@ + metric(
        "velo_ttft_ms_avg"@,
        "Average Time To First Token in ms"@,
        "gauge"@,
        average(m.requests_with_ttft as nat, avg_ttft),
    ) + "\n"@ + metric(
        "velo_tokens_per_second"@,
        "Average tokens per second since start"@,
        "gauge"@,
        average(uptime as nat, rate),
    ) + "\n"@ + metric(
        "velo_uptime_seconds"@,
        "Seconds since scheduler start"@,
        "counter"@,
        text::decimal(uptime as nat),
    )
}

fn push_metric(out: &mut String, name: &str, help: &str, kind: &str, value: &str)
    ensures
        final(out)@ == old(out)@ + metric(name@, help@, kind@, value@),
{
    let ghost before = out@;
    out.append("# HELP ");
    out.append(name);
    out.append(" ");
    out.append(help);
    out.append("\n# TYPE ");
    out.append(name);
    out.append(" ");
    out.append(kind);
    out.append("\n");
    out.append(name);
    out.append(" ");
    out.append(value);
    out.append("\n");
    assert(out@ =~= before + metric(name@, help@, kind@, value@));
}

fn decimal_text(n: u64) -> (s: String)
    ensures
        s@ == text::decimal(n as nat),
{
    let mut s: String = String::new();
    push_decimal(&mut s, n);
    assert(s@ =~= text::decimal(n as nat));
    s
}

/// Writes the metrics of a scheduler.
pub fn metrics_text(m: &SchedulerMetrics, avg_ttft: &str, rate: &str, uptime: u64) -> (s: String)
    ensures
        s@ == metrics_shown(*m, avg_ttft@, rate@, uptime),
{
    let tokens: String = decimal_text(m.total_tokens_generated);
    let requests: String = decimal_text(m.total_requests_completed);
    let slots: String = decimal_text(m.active_slots as u64);
    let seconds: String = decimal_text(uptime);
    let first: &str = if m.requests_with_ttft > 0 {
        avg_ttft
    } else {
        "0.00"
    };
    let speed: &str = if uptime > 0 {
        rate
    } else {
        "0.00"
    };
    let mut s: String = String::new();
    push_metric(
        &mut s,
        "velo_tokens_total",
        "Total tokens generated",
        "counter",
        tokens.as_str(),
    );
    s.append("\n");
    push_metric(
        &mut s,
        "velo_requests_total",
        "Total requests completed",
        "counter",
        requests.as_str(),
    );
    s.append("\n");
    push_metric(&mut s, "velo_active_slots", "Current active slots", "gauge", slots.as_str());
    s.append("\n");
    push_metric(&mut s, "velo_ttft_ms_avg", "Average Time To First Token in ms", "gauge", first);
    s.append("\n");
    push_metric(
        &mut s,
        "velo_tokens_per_second",
        "Average tokens per second since start",
        "gauge",
        speed,
    );
    s.append("\n");
    push_metric(
        &mut s,
        "velo_uptime_seconds",
        "Seconds since scheduler start",
        "counter",
        seconds.as_str(),
    );
    assert(s@ =~= metrics_shown(*m, avg_ttft@, rate@, uptime));
    s
}


/// The line of a metric that gives its value.
pub open spec fn value_line(name: Seq<char>, value: Seq<char>) -> Seq<char> {
    "\n"@ + name + " "@ + value + "\n"@
}

proof fn lemma_value_line(name: Seq<char>, help: Seq<char>, kind: Seq<char>, value: Seq<char>)
    ensures
        text::holds(metric(name, help, kind, value), value_line(name, value)),
{
    let before = "# HELP "@ + name + " "@ + help + "\n# TYPE "@ + name + " "@ + kind;
    let none = Seq::<char>::empty();
    assert(metric(name, help, kind, value) =~= before + value_line(name, value) + none);
    text::held_texts_stand_between_others(before, value_line(name, value), none);
}

proof fn lemma_one_of_six(
    parts: Seq<Seq<char>>,
    line: Seq<char>,
    k: int,
    sep: Seq<char>,
)
    requires
        parts.len() == 6,
        0 <= k < 6,
        text::holds(parts[k], line),
    ensures
        text::holds(
            parts[0] + sep + parts[1] + sep + parts[2] + sep + parts[3] + sep + parts[4] + sep
                + parts[5],
            line,
        ),
{
    let none = Seq::<char>::empty();
    let a = parts[0];
    let b = a + sep + parts[1];
    let c = b + sep + parts[2];
    let d = c + sep + parts[3];
    let e = d + sep + parts[4];
    if k == 0 {
        text::longer_texts_hold_their_parts(none, a, sep + parts[1], line);
        assert(none + a + (sep + parts[1]) =~= b);
    }
    if k == 1 {
        text::longer_texts_hold_their_parts(a + sep, parts[1], none, line);
        assert(a + sep + parts[1] + none =~= b);
    }
    if k <= 1 {
        text::longer_texts_hold_their_parts(none, b, sep + parts[2], line);
        assert(none + b + (sep + parts[2]) =~= c);
    }
    if k == 2 {
        text::longer_texts_hold_their_parts(b + sep, parts[2], none, line);
        assert(b + sep + parts[2] + none =~= c);
    }
    if k <= 2 {
        text::longer_texts_hold_their_parts(none, c, sep + parts[3], line);
        assert(none + c + (sep + parts[3]) =~= d);
    }
    if k == 3 {
        text::longer_texts_hold_their_parts(c + sep, parts[3], none, line);
        assert(c + sep + parts[3] + none =~= d);
    }
    if k <= 3 {
        text::longer_texts_hold_their_parts(none, d, sep + parts[4], line);
        assert(none + d + (sep + parts[4]) =~= e);
    }
    if k == 4 {
        text::longer_texts_hold_their_parts(d + sep, parts[4], none, line);
        assert(d + sep + parts[4] + none =~= e);
    }
    if k <= 4 {
        text::longer_texts_hold_their_parts(none, e, sep + parts[5], line);
        assert(none + e + (sep + parts[5]) =~= e + sep + parts[5]);
    } else {
        text::longer_texts_hold_their_parts(e + sep, parts[5], none, line);
        assert(e + sep + parts[5] + none =~= e + sep + parts[5]);
    }
}

/// The metrics hold a line with each number under its own name, and no average where
/// there is nothing to take it over.
pub proof fn metrics_tell_the_numbers(
    m: SchedulerMetrics,
    avg_ttft: Seq<char>,
    rate: Seq<char>,
    uptime: u64,
)
    ensures
        ({
            let shown = metrics_shown(m, avg_ttft, rate, uptime);
            let tells = |name: Seq<char>, value: Seq<char>|
                text::holds(shown, value_line(name, value));
            &&& tells("velo_tokens_total"@, text::decimal(m.total_tokens_generated as nat))
            &&& tells("velo_requests_total"@, text::decimal(m.total_requests_completed as nat))
            &&& tells("velo_active_slots"@, text::decimal(m.active_slots as nat))
            &&& tells("velo_uptime_seconds"@, text::decimal(uptime as nat))
            &&& m.requests_with_ttft > 0 ==> tells("velo_ttft_ms_avg"@, avg_ttft)
            &&& m.requests_with_ttft == 0 ==> tells("velo_ttft_ms_avg"@, "0.00"@)
            &&& uptime > 0 ==> tells("velo_tokens_per_second"@, rate)
            &&& uptime == 0 ==> tells("velo_tokens_per_second"@, "0.00"@)
        }),
{
    let names = seq![
        "velo_tokens_total"@,
        "velo_requests_total"@,
        "velo_active_slots"@,
        "velo_ttft_ms_avg"@,
        "velo_tokens_per_second"@,
        "velo_uptime_seconds"@,
    ];
    let help = seq![
        "Total tokens generated"@,
        "Total requests completed"@,
        "Current active slots"@,
        "Average Time To First Token in ms"@,
        "Average tokens per second since start"@,
        "Seconds since scheduler start"@,
    ];
    let kinds = seq!["counter"@, "counter"@, "gauge"@, "gauge"@, "gauge"@, "counter"@];
    let values = seq![
        text::decimal(m.total_tokens_generated as nat),
        text::decimal(m.total_requests_completed as nat),
        text::decimal(m.active_slots as nat),
        average(m.requests_with_ttft as nat, avg_ttft),
        average(uptime as nat, rate),
        text::decimal(uptime as nat),
    ];
    let parts = Seq::new(6, |k: int| metric(names[k], help[k], kinds[k], values[k]));
    let shown = metrics_shown(m, avg_ttft, rate, uptime);
    assert(shown == parts[0] + "\n"@ + parts[1] + "\n"@ + parts[2] + "\n"@ + parts[3] + "\n"@
        + parts[4] + "\n"@ + parts[5]);
    assert forall|k: int| 0 <= k < 6 implies text::holds(
        shown,
        #[trigger] value_line(names[k], values[k]),
    ) by {
        lemma_value_line(names[k], help[k], kinds[k], values[k]);
        lemma_one_of_six(parts, value_line(names[k], values[k]), k, "\n"@);
    }
    assert(text::holds(shown, value_line(names[0], values[0])));
    assert(text::holds(shown, value_line(names[1], values[1])));
    assert(text::holds(shown, value_line(names[2], values[2])));
    assert(text::holds(shown, value_line(names[3], values[3])));
    assert(text::holds(shown, value_line(names[4], values[4])));
    assert(text::holds(shown, value_line(names[5], values[5])));
}
} // verus!
