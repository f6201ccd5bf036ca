//! `velo-spec`: speculative decoding with a draft and a target model.

use vstd::prelude::*;
use vstd::string::*;
use crate::backend;
use crate::backend::{GreedyDraftModel, GreedyTargetModel};
use crate::cli;
use crate::cli::{argument_at, bytes_as_tokens};
use crate::engine;
use crate::engine::{BatchRequest, EngineConfig, EngineError, EngineOutput, VeloEngine};
use crate::metal::config::{MetalBackendConfig, MetalRuntimeConfig};
use crate::metal::types::Quantization;
use crate::mock_backend;
use crate::mock_backend::MockBackend;
use crate::model_loader::ModelMeta;
use crate::paged_attention::KvCacheType;
use crate::radix_cache;
use crate::radix_cache::TokenId;
use crate::runtime::{
    CpuMemoryRuntime, KvBlockStore, MemoryRuntime, MemoryRuntimeConfig, PagedBlockAllocator,
};
use crate::speculative::{SpeculativeDecoder, SpeculativeError};
use crate::text;
use crate::text::{joined, read_usize, same_text};

verus! {

pub const USAGE: &'static str = "Usage: velo-spec [--target <path> --draft <path> | --mock] --prompt <text> [--max-new <n>] [--window <w>]
";

#[derive(Debug, Clone)]
pub struct SpecConfig {
    pub target: Option<String>,
    pub draft: Option<String>,
    pub token_ids: Vec<TokenId>,
    pub max_new_tokens: usize,
    pub draft_window: usize,
    pub max_context: usize,
    pub mock: bool,
}

/// A configuration as seen from outside.
pub struct SpecModel {
    pub target: Option<Seq<char>>,
    pub draft: Option<Seq<char>>,
    pub token_ids: Seq<TokenId>,
    pub max_new_tokens: usize,
    pub draft_window: usize,
    pub max_context: usize,
    pub mock: bool,
}

/// What an optional text holds.
pub open spec fn held(s: Option<String>) -> Option<Seq<char>> {
    match s {
        Some(t) => Some(t@),
        None => None,
    }
}

impl View for SpecConfig {
    type V = SpecModel;

    open spec fn view(&self) -> SpecModel {
        SpecModel {
            target: held(self.target),
            draft: held(self.draft),
            token_ids: self.token_ids@,
            max_new_tokens: self.max_new_tokens,
            draft_window: self.draft_window,
            max_context: self.max_context,
            mock: self.mock,
        }
    }
}

/// What holds unless the command line says otherwise.
pub open spec fn defaults() -> SpecModel {
    SpecModel {
        target: None,
        draft: None,
        token_ids: Seq::empty(),
        max_new_tokens: 32,
        draft_window: 4,
        max_context: 4096,
        mock: false,
    }
}

/// The arguments from `i` on, after `s` was read.
pub open spec fn read_args(args: Seq<Seq<char>>, i: int, s: SpecModel) -> Result<
    SpecModel,
    Seq<char>,
>
    decreases args.len() - i,
{
    if i >= args.len() || i < 0 {
        Ok(s)
    } else {
        let value = cli::argument(args, i + 1);
        if args[i] == "--target"@ {
            match value {
                None => Err("--target requires a path"@),
                Some(v) => read_args(args, i + 2, SpecModel { target: Some(v), ..s }),
            }
        } else if args[i] == "--draft"@ {
            match value {
                None => Err("--draft requires a path"@),
                Some(v) => read_args(args, i + 2, SpecModel { draft: Some(v), ..s }),
            }
        } else if args[i] == "--prompt"@ {
            match value {
                None => Err("--prompt requires a value"@),
                Some(v) => read_args(
                    args,
                    i + 2,
                    SpecModel { token_ids: cli::byte_tokens(v), ..s },
                ),
            }
        } else if args[i] == "--max-new"@ {
            match value {
                None => Err("--max-new requires a value"@),
                Some(v) => if text::reads_as(v, usize::MAX as nat) {
                    read_args(
                        args,
                        i + 2,
                        SpecModel { max_new_tokens: text::numeral(v)->0 as usize, ..s },
                    )
                } else {
                    Err("invalid max-new: "@ + text::usize_complaint(v, usize::MAX as nat))
                },
            }
        } else if args[i] == "--window"@ {
            match value {
                None => Err("--window requires a value"@),
                Some(v) => if text::reads_as(v, usize::MAX as nat) {
                    read_args(
                        args,
                        i + 2,
                        SpecModel { draft_window: text::numeral(v)->0 as usize, ..s },
                    )
                } else {
                    Err("invalid window: "@ + text::usize_complaint(v, usize::MAX as nat))
                },
            }
        } else if args[i] == "--mock"@ {
            read_args(args, i + 1, SpecModel { mock: true, ..s })
        } else {
            Err("unknown arg: "@ + args[i])
        }
    }
}

/// Reads the command line. The first argument is the program's name.
pub fn parse_args(args: &[String]) -> (r: Result<SpecConfig, String>)
    ensures
        match read_args(text::texts(args@), 1, defaults()) {
            Ok(s) => r is Ok && r->Ok_0@ == s,
            Err(e) => r is Err && r->Err_0@ == e,
        },
{
    let ghost all = text::texts(args@);
    let ghost whole = read_args(all, 1, defaults());
    let mut config = SpecConfig {
        target: None,
        draft: None,
        token_ids: Vec::new(),
        max_new_tokens: 32,
        draft_window: 4,
        max_context: 4096,
        mock: false,
    };
    let mut i: usize = 1;
    let len: usize = args.len();
    assert(config@.token_ids =~= defaults().token_ids);
    while i < len
        invariant
            len == args@.len(),
            all == text::texts(args@),
            i >= 1,
            whole == read_args(all, 1, defaults()),
            read_args(all, i as int, config@) == whole,
        decreases len - i,
    {
        assert(all[i as int] == args@[i as int]@);
        let arg: &str = args[i].as_str();
        if same_text(arg, "--mock") {
            proof {
                reveal_strlit("--mock");
                reveal_strlit("--target");
                reveal_strlit("--draft");
                reveal_strlit("--prompt");
                reveal_strlit("--max-new");
                reveal_strlit("--window");
                assert("--mock"@.len() == 6);
                assert("--prompt"@.len() == 8);
            }
            config.mock = true;
            i = i + 1;
        } else {
            let value: Option<String> = if i < len - 1 {
                argument_at(args, i + 1)
            } else {
                None
            };
            if same_text(arg, "--target") {
                match value {
                    None => {
                        return Err(String::from_str("--target requires a path"));
                    },
                    Some(v) => {
                        config.target = Some(v);
                    },
                }
            } else if same_text(arg, "--draft") {
                match value {
                    None => {
                        return Err(String::from_str("--draft requires a path"));
                    },
                    Some(v) => {
                        config.draft = Some(v);
                    },
                }
            } else if same_text(arg, "--prompt") {
                match value {
                    None => {
                        return Err(String::from_str("--prompt requires a value"));
                    },
                    Some(v) => {
                        config.token_ids = bytes_as_tokens(v.as_str());
                    },
                }
            } else if same_text(arg, "--max-new") {
                match value {
                    None => {
                        return Err(String::from_str("--max-new requires a value"));
                    },
                    Some(v) => match read_usize(v.as_str()) {
                        Ok(n) => {
                            config.max_new_tokens = n;
                        },
                        Err(e) => {
                            return Err(joined("invalid max-new: ", e.as_str()));
                        },
                    },
                }
            } else if same_text(arg, "--window") {
                match value {
                    None => {
                        return Err(String::from_str("--window requires a value"));
                    },
                    Some(v) => match read_usize(v.as_str()) {
                        Ok(n) => {
                            config.draft_window = n;
                        },
                        Err(e) => {
                            return Err(joined("invalid window: ", e.as_str()));
                        },
                    },
                }
            } else {
                return Err(joined("unknown arg: ", arg));
            }
            if i < len - 1 {
                i = i + 2;
            } else {
                i = len;
            }
        }
    }
    Ok(config)
}

/// What there is to run.
#[derive(Debug)]
pub enum SpecRun {
    Mock,
    Models { target: String, draft: String },
}

/// Decides what to run: a mock where that is asked for, else two models, which
/// must both be given.
pub fn choose_run(config: &SpecConfig) -> (r: Result<SpecRun, String>)
    ensures
        config.mock ==> r is Ok && r->Ok_0 is Mock,
        !config.mock && config.target is None ==> r is Err && r->Err_0@
            == "--target missing and --mock not specified"@,
        !config.mock && config.target is Some && config.draft is None ==> r is Err && r->Err_0@
            == "--draft missing and --mock not specified"@,
        !config.mock && config.target is Some && config.draft is Some ==> r is Ok
            && r->Ok_0 is Models && r->Ok_0->target@ == config.target->0@ && r->Ok_0->draft@
            == config.draft->0@,
{
    if config.mock {
        return Ok(SpecRun::Mock);
    }
    match &config.target {
        None => Err(String::from_str("--target missing and --mock not specified")),
        Some(target) => match &config.draft {
            None => Err(String::from_str("--draft missing and --mock not specified")),
            Some(draft) => Ok(
                SpecRun::Models {
                    target: String::from_str(target.as_str()),
                    draft: String::from_str(draft.as_str()),
                },
            ),
        },
    }
}

/// The bytes that the keys of one token take in one layer, in single precision.
pub fn layer_kv_bytes(meta: &ModelMeta) -> (n: usize)
    requires
        meta.n_head_kv * meta.head_dim * 4 <= usize::MAX,
    ensures
        n == meta.n_head_kv * meta.head_dim * 4,
{
    assert(meta.n_head_kv * meta.head_dim <= meta.n_head_kv * meta.head_dim * 4)
        by (nonlinear_arith);
    meta.n_head_kv * meta.head_dim * 4
}

/// How the engine, the memory and the two models of a run are set up.
#[derive(Debug, Clone)]
pub struct SpecSettings {
    pub engine: EngineConfig,
    pub runtime: MetalRuntimeConfig,
    pub target: MetalBackendConfig,
    pub draft: MetalBackendConfig,
}

/// The memory of a run: 256 pages of 16 tokens, sized for the target model.
pub open spec fn spec_memory(meta: ModelMeta) -> MemoryRuntimeConfig {
    MemoryRuntimeConfig {
        bytes_per_token: (meta.n_head_kv * meta.head_dim * 4) as usize,
        paged_block_size: 16,
        paged_total_pages: 256,
        n_layer: meta.n_layer,
        unified_memory: false,
        max_slots: 32,
    }
}

/// Whether `b` is the configuration of a model of a run.
pub open spec fn is_backend(
    b: MetalBackendConfig,
    name: Seq<char>,
    max_context: usize,
    target_meta: ModelMeta,
    quantization: Quantization,
) -> bool {
    &&& b.model_name@ == name
    &&& b.max_context_tokens == max_context
    &&& b.kv_bytes_per_token == target_meta.n_head_kv * target_meta.head_dim * 4
    &&& b.paged_block_size == 16
    &&& b.quantization == quantization
    &&& b.kv_type == KvCacheType::Fp32
}

fn backend_settings(
    name: &str,
    max_context: usize,
    kv_bytes: usize,
    quantization: Quantization,
) -> (b: MetalBackendConfig)
    ensures
        b.model_name@ == name@,
        b.max_context_tokens == max_context,
        b.kv_bytes_per_token == kv_bytes,
        b.paged_block_size == 16,
        b.quantization == quantization,
        b.kv_type == KvCacheType::Fp32,
{
    MetalBackendConfig {
        model_name: String::from_str(name),
        max_context_tokens: max_context,
        kv_bytes_per_token: kv_bytes,
        paged_block_size: 16,
        quantization,
        kv_type: KvCacheType::Fp32,
    }
}

/// The settings of a run with two models. Both work on the memory of the target
/// model.
pub fn spec_settings(config: &SpecConfig, target_meta: &ModelMeta, draft: Quantization) -> (s:
    SpecSettings)
    requires
        target_meta.n_head_kv * target_meta.head_dim * 4 <= usize::MAX,
    ensures
        s.engine == (EngineConfig {
            draft_window: config.draft_window,
            memory: spec_memory(*target_meta),
            kv_type: KvCacheType::Fp32,
        }),
        s.runtime.model_name@ == "target"@,
        s.runtime.memory == spec_memory(*target_meta),
        s.runtime.quantization == target_meta.quantization,
        is_backend(
            s.target,
            "target"@,
            config.max_context,
            *target_meta,
            target_meta.quantization,
        ),
        is_backend(s.draft, "draft"@, config.max_context, *target_meta, draft),
{
    let kv_bytes: usize = layer_kv_bytes(target_meta);
    let memory: MemoryRuntimeConfig = MemoryRuntimeConfig::cpu(
        kv_bytes,
        16,
        256,
        target_meta.n_layer,
        32,
    );
    SpecSettings {
        engine: EngineConfig {
            draft_window: config.draft_window,
            memory,
            kv_type: KvCacheType::Fp32,
        },
        runtime: MetalRuntimeConfig {
            model_name: String::from_str("target"),
            memory,
            quantization: target_meta.quantization,
        },
        target: backend_settings("target", config.max_context, kv_bytes, target_meta.quantization),
        draft: backend_settings("draft", config.max_context, kv_bytes, draft),
    }
}

/// How many tokens the script of the mock models has.
pub const MOCK_TOKENS: u32 = 2048;

/// The script of the mock models: the tokens from 0 on.
fn mock_script() -> (v: Vec<TokenId>)
    ensures
        v@ == Seq::new(MOCK_TOKENS as nat, |i: int| i as u32),
{
    let mut v: Vec<TokenId> = Vec::new();
    let mut i: u32 = 0;
    while i < MOCK_TOKENS
        invariant
            i <= MOCK_TOKENS,
            v@ == Seq::new(i as nat, |i: int| i as u32),
        decreases MOCK_TOKENS - i,
    {
        v.push(i);
        i = i + 1;
        assert(v@ =~= Seq::new(i as nat, |i: int| i as u32));
    }
    v
}

/// Whether `out` is what a decoder with some draft window delivers for a prompt.
pub open spec fn mock_outcome(
    window: usize,
    prompt: Seq<TokenId>,
    max_new_tokens: usize,
    out: EngineOutput,
    decoder: SpeculativeDecoder,
    req: BatchRequest,
) -> bool {
    &&& decoder.window() == window
    &&& decoder.limit() == window * 2
    &&& engine::asks_for(req, prompt, max_new_tokens)
    &&& engine::delivered(decoder, req, out)
}

/// Half of the tokens that the pages of a mock run hold.
pub const MOCK_ROOM: usize = 32768;

/// Whether the script and the pages of a mock run suffice for a prompt and what
/// is to follow it.
pub open spec fn mock_suffices(prompt: Seq<TokenId>, max_new_tokens: usize) -> bool {
    &&& 0 < prompt.len()
    &&& prompt.len() + max_new_tokens <= MOCK_ROOM
    &&& max_new_tokens > 0 ==> prompt.len() + max_new_tokens <= MOCK_TOKENS
}

/// A fresh engine of a mock run has memory for a prompt and for what follows it.
proof fn lemma_mock_is_provided(engine: VeloEngine, req: BatchRequest)
    requires
        engine::engine_backed(engine),
        engine.slots()@.len() > 0,
        engine.memory().the_allocator()@.config.block_size == 16,
        engine.memory().the_allocator()@.free.len() == 4096,
        mock_suffices(req.prompt@, req.max_new_tokens),
    ensures
        engine::well_provided(engine, seq![req]),
{
    let all = seq![req];
    let longest = engine::longest_wanted(all);
    assert(all.drop_last() =~= Seq::empty());
    assert(engine::longest_wanted(all.drop_last()) == 0);
    assert(longest == req.prompt@.len() + req.max_new_tokens);
    assert(engine.memory().the_store().takes(2, longest));
    assert(engine.memory().the_allocator().maps(2, longest)) by {
        assert(crate::paged_attention::pages_needed(longest, 16) <= 2048);
    }
}

/// Runs the engine on the CPU with two models that follow the same script: what
/// is generated continues the count of the prompt's tokens.
pub fn run_mock(config: &SpecConfig) -> (r: Result<EngineOutput, EngineError>)
    requires
        config.draft_window * 2 <= usize::MAX,
        config.token_ids@.len() + config.max_new_tokens <= usize::MAX / 4096,
    ensures
        config.draft_window == 0 ==> r == Err::<EngineOutput, EngineError>(
            EngineError::Speculative(SpeculativeError::EmptyDraftWindow),
        ),
        config.draft_window > 0 && mock_suffices(config.token_ids@, config.max_new_tokens)
            ==> r is Ok,
        r is Ok ==> {
            &&& r->Ok_0.tokens@ == Seq::new(
                config.max_new_tokens as nat,
                |k: int| (config.token_ids@.len() + k) as u32,
            )
            &&& config.max_new_tokens > 0 ==> config.token_ids@.len() + config.max_new_tokens
                <= MOCK_TOKENS
            &&& exists|decoder: SpeculativeDecoder, req: BatchRequest| #[trigger]
                mock_outcome(
                    config.draft_window,
                    config.token_ids@,
                    config.max_new_tokens,
                    r->Ok_0,
                    decoder,
                    req,
                )
        },
{
    let mut engine: VeloEngine = match VeloEngine::new(
        EngineConfig {
            draft_window: config.draft_window,
            memory: MemoryRuntimeConfig::cpu(4096, 16, 4096, 32, 32),
            kv_type: KvCacheType::Fp32,
        },
    ) {
        Ok(e) => e,
        Err(e) => {
            return Err(e);
        },
    };
    let mut draft_model: GreedyDraftModel<MockBackend> = GreedyDraftModel::new(
        MockBackend::new(mock_script()),
    );
    let mut target_model: GreedyTargetModel<MockBackend> = GreedyTargetModel::new(
        MockBackend::new(mock_script()),
    );
    let ghost decoder = engine.decodes();
    let ghost engine0 = engine;
    let ghost draft0 = draft_model;
    let ghost target0 = target_model;
    proof {
        let none = radix_cache::empty_cache().entries;
        assert(none.drop_last() =~= Seq::empty());
        assert(radix_cache::tokens_resident(none) == 0) by {
            reveal_with_fuel(radix_cache::tokens_resident, 2);
        }
    }
    match engine.generate(
        &mut draft_model,
        &mut target_model,
        &config.token_ids,
        config.max_new_tokens,
    ) {
        Ok(out) => {
            proof {
                let req = choose|req: BatchRequest|
                    engine::asks_for(req, config.token_ids@, config.max_new_tokens)
                        && #[trigger] engine::delivered(decoder, req, out)
                        && engine::batch_delivered(
                        engine0,
                        engine,
                        seq![req],
                        draft0,
                        target0,
                        draft_model,
                        target_model,
                        seq![out],
                    );
                assert(mock_outcome(
                    config.draft_window,
                    config.token_ids@,
                    config.max_new_tokens,
                    out,
                    decoder,
                    req,
                ));
                backend::greedy_batches_are_complete(
                    engine0,
                    engine,
                    seq![req],
                    draft0,
                    target0,
                    draft_model,
                    target_model,
                    seq![out],
                    0,
                );
                mock_backend::scripted_targets_give_batches_their_script(
                    engine0,
                    engine,
                    seq![req],
                    draft0,
                    target0,
                    draft_model,
                    target_model,
                    seq![out],
                    0,
                );
                let tokens = seq![out][0].tokens@;
                let len = config.token_ids@.len();
                assert forall|k: int| 0 <= k < tokens.len() implies #[trigger] tokens[k] == (len
                    + k) as u32 && len + k < MOCK_TOKENS by {
                    assert(mock_backend::scripted(
                        target0.inner()@,
                        crate::speculative::plus(0, (len + k) as nat),
                    ) == Some(tokens[k]));
                }
                assert(out.tokens@ =~= Seq::new(
                    config.max_new_tokens as nat,
                    |k: int| (len + k) as u32,
                ));
                if config.max_new_tokens > 0 {
                    assert(tokens[config.max_new_tokens - 1] == (len + config.max_new_tokens
                        - 1) as u32);
                }
            }
            Ok(out)
        },
        Err(e) => {
            proof {
                if mock_suffices(config.token_ids@, config.max_new_tokens) {
                    let req = choose|req: BatchRequest| #[trigger]
                        engine::asks_for(req, config.token_ids@, config.max_new_tokens) && (
                        engine::well_provided(engine0, seq![req]) ==> engine::slot_refusal::<
                            CpuMemoryRuntime,
                        >(e) || engine::models_failed(
                            engine0,
                            engine,
                            seq![req],
                            draft0,
                            target0,
                            draft_model,
                            target_model,
                            e,
                        ));
                    lemma_mock_is_provided(engine0, req);
                    assert forall|p: int|
                        config.token_ids@.len() <= p < config.token_ids@.len()
                            + config.max_new_tokens implies (
                    #[trigger] mock_backend::scripted(target0.inner()@, p as usize)) is Some by {}
                    mock_backend::agreeing_mocks_fail_no_batch(
                        engine0,
                        engine,
                        seq![req],
                        draft0,
                        target0,
                        draft_model,
                        target_model,
                        e,
                    );
                }
            }
            Err(e)
        },
    }
}


proof fn lemma_read_on(args: Seq<Seq<char>>, more: Seq<Seq<char>>, i: int, s: SpecModel)
    requires
        0 <= i <= args.len(),
        read_args(args, i, s) is Ok,
    ensures
        read_args(args + more, i, s) == read_args(
            args + more,
            args.len() as int,
            read_args(args, i, s)->Ok_0,
        ),
    decreases args.len() - i,
{
    if i < args.len() {
        assert((args + more)[i] == args[i]);
        let value = cli::argument(args, i + 1);
        if i + 1 < args.len() {
            assert((args + more)[i + 1] == args[i + 1]);
        }
        let v = value->0;
        if args[i] == "--target"@ {
            lemma_read_on(args, more, i + 2, SpecModel { target: Some(v), ..s });
        } else if args[i] == "--draft"@ {
            lemma_read_on(args, more, i + 2, SpecModel { draft: Some(v), ..s });
        } else if args[i] == "--prompt"@ {
            lemma_read_on(args, more, i + 2, SpecModel { token_ids: cli::byte_tokens(v), ..s });
        } else if args[i] == "--max-new"@ {
            lemma_read_on(
                args,
                more,
                i + 2,
                SpecModel { max_new_tokens: text::numeral(v)->0 as usize, ..s },
            );
        } else if args[i] == "--window"@ {
            lemma_read_on(
                args,
                more,
                i + 2,
                SpecModel { draft_window: text::numeral(v)->0 as usize, ..s },
            );
        } else {
            lemma_read_on(args, more, i + 1, SpecModel { mock: true, ..s });
        }
    }
}

proof fn lemma_options_differ()
    ensures
        "--target"@.len() == 8,
        "--draft"@.len() == 7,
        "--prompt"@.len() == 8,
        "--max-new"@.len() == 9,
        "--window"@.len() == 8,
        "--mock"@.len() == 6,
        "--target"@[2] == 't',
        "--prompt"@[2] == 'p',
        "--window"@[2] == 'w',
{
    reveal_strlit("--target");
    reveal_strlit("--draft");
    reveal_strlit("--prompt");
    reveal_strlit("--max-new");
    reveal_strlit("--window");
    reveal_strlit("--mock");
}

/// An option at the end of a command line that is in order sets what it names, whatever
/// was said of it before, and nothing else.
pub proof fn options_set_what_they_name(
    args: Seq<Seq<char>>,
    given: Seq<char>,
    n: usize,
    s: SpecModel,
)
    requires
        args.len() > 0,
        read_args(args, 1, s) is Ok,
    ensures
        ({
            let t = read_args(args, 1, s)->Ok_0;
            let bytes = vstd::utf8::encode_utf8(given);
            let number = text::decimal(n as nat);
            &&& read_args(args + seq!["--target"@, given], 1, s) == Ok::<SpecModel, Seq<char>>(
                SpecModel { target: Some(given), ..t },
            )
            &&& read_args(args + seq!["--draft"@, given], 1, s) == Ok::<SpecModel, Seq<char>>(
                SpecModel { draft: Some(given), ..t },
            )
            &&& read_args(args + seq!["--prompt"@, given], 1, s) == Ok::<SpecModel, Seq<char>>(
                SpecModel { token_ids: bytes.map_values(|b: u8| b as u32), ..t },
            )
            &&& read_args(args + seq!["--max-new"@, number], 1, s) == Ok::<SpecModel, Seq<char>>(
                SpecModel { max_new_tokens: n, ..t },
            )
            &&& read_args(args + seq!["--window"@, number], 1, s) == Ok::<SpecModel, Seq<char>>(
                SpecModel { draft_window: n, ..t },
            )
            &&& read_args(args + seq!["--mock"@], 1, s) == Ok::<SpecModel, Seq<char>>(
                SpecModel { mock: true, ..t },
            )
        }),
{
    let number = text::decimal(n as nat);
    let m = args.len() as int;
    lemma_options_differ();
    text::written_numbers_are_read_back(n as nat);
    reveal_with_fuel(read_args, 2);
    let a = seq!["--target"@, given];
    lemma_read_on(args, a, 1, s);
    assert((args + a)[m] == a[0] && (args + a)[m + 1] == a[1]);
    let b = seq!["--draft"@, given];
    lemma_read_on(args, b, 1, s);
    assert((args + b)[m] == b[0] && (args + b)[m + 1] == b[1]);
    let c = seq!["--prompt"@, given];
    lemma_read_on(args, c, 1, s);
    assert((args + c)[m] == c[0] && (args + c)[m + 1] == c[1]);
    let d = seq!["--max-new"@, number];
    lemma_read_on(args, d, 1, s);
    assert((args + d)[m] == d[0] && (args + d)[m + 1] == d[1]);
    let e = seq!["--window"@, number];
    lemma_read_on(args, e, 1, s);
    assert((args + e)[m] == e[0] && (args + e)[m + 1] == e[1]);
    let f = seq!["--mock"@];
    lemma_read_on(args, f, 1, s);
    assert((args + f)[m] == f[0]);
}

/// A token of a run takes what the heads of the target model take for it at full
/// precision.
pub proof fn tokens_take_what_their_heads_take(meta: ModelMeta)
    requires
        meta.n_head_kv * meta.head_dim * 4 <= usize::MAX,
    ensures
        spec_memory(meta).bytes_per_token == meta.n_head_kv * meta.head_bytes(KvCacheType::Fp32),
        spec_memory(meta).n_layer == meta.n_layer,
{
    assert(meta.n_head_kv * (meta.head_dim * 4) == meta.n_head_kv * meta.head_dim * 4)
        by (nonlinear_arith);
}
} // verus!
