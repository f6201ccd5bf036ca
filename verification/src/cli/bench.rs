//! `velo-bench`: the benchmark's command line.

use vstd::prelude::*;
use vstd::string::*;
use crate::benchmark::{BenchmarkConfig, BenchmarkFormat, BenchmarkMode};
use crate::cli;
use crate::cli::argument_at;
use crate::engine::EngineConfig;
use crate::metal::types::Quantization;
use crate::paged_attention::KvCacheType;
use crate::runtime::MemoryRuntimeConfig;
use crate::scalar::F64;
use crate::text;
use crate::text::{joined, read_usize, same_text};

verus! {

pub const HELP: &'static str = "velo-bench

Usage:
  velo-bench [--mode prompt-processing|generation|prompt-plus-generation|all] [options]

Options:
  --prompt-len N
  --gen-len N
  --cached-depth N
  --repetitions N
  --warmups N
  --draft-window N
  --bytes-per-token N
  --page-tokens N
  --total-pages N
  --format md|csv|json
  --llama-csv PATH
  --model-name NAME
  --backend-name NAME
  --quantization fp16|int8|int4";

/// The numbers that can be set.
#[derive(Debug, Clone, Copy, PartialEq, Eq, Structural)]
pub struct BenchNumbers {
    pub prompt_len: usize,
    pub gen_len: usize,
    pub cached_depth: usize,
    pub repetitions: usize,
    pub warmups: usize,
    pub draft_window: usize,
    pub bytes_per_token: usize,
    pub page_tokens: usize,
    pub total_pages: usize,
}

#[derive(Debug, Clone)]
pub struct CliArgs {
    pub mode: String,
    pub numbers: BenchNumbers,
    pub model_name: String,
    pub backend_name: String,
    pub quantization: Quantization,
    pub format: BenchmarkFormat,
    pub llama_csv: Option<String>,
}

/// Arguments as seen from outside.
pub struct ArgsModel {
    pub mode: Seq<char>,
    pub numbers: BenchNumbers,
    pub model_name: Seq<char>,
    pub backend_name: Seq<char>,
    pub quantization: Quantization,
    pub format: BenchmarkFormat,
    pub llama_csv: Option<Seq<char>>,
}

impl View for CliArgs {
    type V = ArgsModel;

    open spec fn view(&self) -> ArgsModel {
        ArgsModel {
            mode: self.mode@,
            numbers: self.numbers,
            model_name: self.model_name@,
            backend_name: self.backend_name@,
            quantization: self.quantization,
            format: self.format,
            llama_csv: match self.llama_csv {
                Some(s) => Some(s@),
                None => None,
            },
        }
    }
}

/// What holds unless the command line says otherwise.
pub open spec fn defaults() -> ArgsModel {
    ArgsModel {
        mode: "prompt-plus-generation"@,
        numbers: BenchNumbers {
            prompt_len: 128,
            gen_len: 128,
            cached_depth: 0,
            repetitions: 5,
            warmups: 1,
            draft_window: 8,
            bytes_per_token: 128,
            page_tokens: 16,
            total_pages: 4096,
        },
        model_name: "velo-core/mock"@,
        backend_name: "cpu/mock"@,
        quantization: Quantization::Q4_0,
        format: BenchmarkFormat::Markdown,
        llama_csv: None,
    }
}

/// The numbers after the one that `flag` names was set; `None` if it names none.
pub open spec fn with_number(s: BenchNumbers, flag: Seq<char>, n: usize) -> Option<BenchNumbers> {
    if flag == "--prompt-len"@ {
        Some(BenchNumbers { prompt_len: n, ..s })
    } else if flag == "--gen-len"@ {
        Some(BenchNumbers { gen_len: n, ..s })
    } else if flag == "--cached-depth"@ {
        Some(BenchNumbers { cached_depth: n, ..s })
    } else if flag == "--repetitions"@ {
        Some(BenchNumbers { repetitions: n, ..s })
    } else if flag == "--warmups"@ {
        Some(BenchNumbers { warmups: n, ..s })
    } else if flag == "--draft-window"@ {
        Some(BenchNumbers { draft_window: n, ..s })
    } else if flag == "--bytes-per-token"@ {
        Some(BenchNumbers { bytes_per_token: n, ..s })
    } else if flag == "--page-tokens"@ {
        Some(BenchNumbers { page_tokens: n, ..s })
    } else if flag == "--total-pages"@ {
        Some(BenchNumbers { total_pages: n, ..s })
    } else {
        None
    }
}

fn set_number(s: BenchNumbers, flag: &str, n: usize) -> (r: Option<BenchNumbers>)
    ensures
        r == with_number(s, flag@, n),
{
    let mut t: BenchNumbers = s;
    if same_text(flag, "--prompt-len") {
        t.prompt_len = n;
    } else if same_text(flag, "--gen-len") {
        t.gen_len = n;
    } else if same_text(flag, "--cached-depth") {
        t.cached_depth = n;
    } else if same_text(flag, "--repetitions") {
        t.repetitions = n;
    } else if same_text(flag, "--warmups") {
        t.warmups = n;
    } else if same_text(flag, "--draft-window") {
        t.draft_window = n;
    } else if same_text(flag, "--bytes-per-token") {
        t.bytes_per_token = n;
    } else if same_text(flag, "--page-tokens") {
        t.page_tokens = n;
    } else if same_text(flag, "--total-pages") {
        t.total_pages = n;
    } else {
        return None;
    }
    Some(t)
}

/// The arguments after the text that `flag` names was set, or what is wrong with
/// the value; `None` if it names no text.
pub open spec fn with_text(s: ArgsModel, flag: Seq<char>, v: Seq<char>) -> Option<
    Result<ArgsModel, Seq<char>>,
> {
    if flag == "--mode"@ {
        Some(Ok(ArgsModel { mode: v, ..s }))
    } else if flag == "--model-name"@ {
        Some(Ok(ArgsModel { model_name: v, ..s }))
    } else if flag == "--backend-name"@ {
        Some(Ok(ArgsModel { backend_name: v, ..s }))
    } else if flag == "--llama-csv"@ {
        Some(Ok(ArgsModel { llama_csv: Some(v), ..s }))
    } else if flag == "--format"@ {
        Some(
            if v == "md"@ || v == "markdown"@ {
                Ok(ArgsModel { format: BenchmarkFormat::Markdown, ..s })
            } else if v == "csv"@ {
                Ok(ArgsModel { format: BenchmarkFormat::Csv, ..s })
            } else if v == "json"@ {
                Ok(ArgsModel { format: BenchmarkFormat::Json, ..s })
            } else {
                Err("unknown format: "@ + v)
            },
        )
    } else if flag == "--quantization"@ {
        Some(
            if v == "q4_0"@ || v == "q4"@ {
                Ok(ArgsModel { quantization: Quantization::Q4_0, ..s })
            } else if v == "q4k"@ || v == "q4_k"@ || v == "q4-k"@ {
                Ok(ArgsModel { quantization: Quantization::Q4K, ..s })
            } else {
                Err("unknown quantization: "@ + v)
            },
        )
    } else {
        None
    }
}

/// Sets the text that `flag` names. Says whether it names one.
fn set_text(s: &mut CliArgs, flag: &str, v: String) -> (r: Result<bool, String>)
    ensures
        match with_text(old(s)@, flag@, v@) {
            None => r == Ok::<bool, String>(false) && final(s)@ == old(s)@,
            Some(Ok(t)) => r == Ok::<bool, String>(true) && final(s)@ == t,
            Some(Err(e)) => r is Err && r->Err_0@ == e,
        },
{
    if same_text(flag, "--mode") {
        s.mode = v;
    } else if same_text(flag, "--model-name") {
        s.model_name = v;
    } else if same_text(flag, "--backend-name") {
        s.backend_name = v;
    } else if same_text(flag, "--llama-csv") {
        s.llama_csv = Some(v);
    } else if same_text(flag, "--format") {
        let value: &str = v.as_str();
        if same_text(value, "md") || same_text(value, "markdown") {
            s.format = BenchmarkFormat::Markdown;
        } else if same_text(value, "csv") {
            s.format = BenchmarkFormat::Csv;
        } else if same_text(value, "json") {
            s.format = BenchmarkFormat::Json;
        } else {
            return Err(joined("unknown format: ", value));
        }
    } else if same_text(flag, "--quantization") {
        let value: &str = v.as_str();
        if same_text(value, "q4_0") || same_text(value, "q4") {
            s.quantization = Quantization::Q4_0;
        } else if same_text(value, "q4k") || same_text(value, "q4_k") || same_text(value, "q4-k") {
            s.quantization = Quantization::Q4K;
        } else {
            return Err(joined("unknown quantization: ", value));
        }
    } else {
        return Ok(false);
    }
    Ok(true)
}

/// Whether an argument takes a value.
pub open spec fn takes_value(flag: Seq<char>) -> bool {
    with_number(defaults().numbers, flag, 0) is Some || with_text(
        defaults(),
        flag,
        Seq::empty(),
    ) is Some
}

/// The arguments from `i` on, after `s` was read.
pub open spec fn read_args(args: Seq<Seq<char>>, i: int, s: ArgsModel) -> Result<
    ArgsModel,
    Seq<char>,
>
    decreases args.len() - i,
{
    if i >= args.len() || i < 0 {
        Ok(s)
    } else {
        let flag = args[i];
        let value = cli::argument(args, i + 1);
        if !takes_value(flag) {
            if flag == "--help"@ || flag == "-h"@ {
                Err(HELP@)
            } else {
                Err("unrecognized argument: "@ + flag)
            }
        } else if value is None {
            Err(flag + " requires a value"@)
        } else if with_number(s.numbers, flag, 0) is Some {
            if text::reads_as(value->0, usize::MAX as nat) {
                read_args(
                    args,
                    i + 2,
                    ArgsModel {
                        numbers: with_number(
                            s.numbers,
                            flag,
                            text::numeral(value->0)->0 as usize,
                        )->0,
                        ..s
                    },
                )
            } else {
                Err(
                    "invalid value for "@ + flag + ": "@ + text::usize_complaint(
                        value->0,
                        usize::MAX as nat,
                    ),
                )
            }
        } else {
            match with_text(s, flag, value->0)->0 {
                Ok(t) => read_args(args, i + 2, t),
                Err(e) => Err(e),
            }
        }
    }
}

fn default_args() -> (s: CliArgs)
    ensures
        s@ == defaults(),
{
    CliArgs {
        mode: String::from_str("prompt-plus-generation"),
        numbers: BenchNumbers {
            prompt_len: 128,
            gen_len: 128,
            cached_depth: 0,
            repetitions: 5,
            warmups: 1,
            draft_window: 8,
            bytes_per_token: 128,
            page_tokens: 16,
            total_pages: 4096,
        },
        model_name: String::from_str("velo-core/mock"),
        backend_name: String::from_str("cpu/mock"),
        quantization: Quantization::Q4_0,
        format: BenchmarkFormat::Markdown,
        llama_csv: None,
    }
}

/// Whether an argument takes a number, a text, or no value.
fn flag_takes_value(flag: &str) -> (b: (bool, bool))
    ensures
        b.0 == (with_number(defaults().numbers, flag@, 0) is Some),
        b.1 == (with_text(defaults(), flag@, Seq::empty()) is Some),
{
    let mut scratch: CliArgs = default_args();
    let number: bool = set_number(scratch.numbers, flag, 0).is_some();
    let nothing: String = String::new();
    assert(nothing@ =~= Seq::empty());
    let words: bool = match set_text(&mut scratch, flag, nothing) {
        Ok(b) => b,
        Err(_) => true,
    };
    (number, words)
}

/// What is said of a number that cannot be read.
fn bad_number(flag: &str, complaint: &str) -> (s: String)
    ensures
        s@ == "invalid value for "@ + flag@ + ": "@ + complaint@,
{
    let mut s: String = joined("invalid value for ", flag);
    s.append(": ");
    s.append(complaint);
    s
}

impl CliArgs {
    /// Reads the arguments after the program's name.
    pub fn parse(args: &[String]) -> (r: Result<Self, String>)
        ensures
            match read_args(text::texts(args@), 0, defaults()) {
                Ok(s) => r is Ok && r->Ok_0@ == s,
                Err(e) => r is Err && r->Err_0@ == e,
            },
    {
        let ghost all = text::texts(args@);
        let ghost whole = read_args(all, 0, defaults());
        let mut s: CliArgs = default_args();
        let mut i: usize = 0;
        let len: usize = args.len();
        while i < len
            invariant
                len == args@.len(),
                all == text::texts(args@),
                whole == read_args(all, 0, defaults()),
                read_args(all, i as int, s@) == whole,
            decreases len - i,
        {
            assert(all[i as int] == args@[i as int]@);
            let flag: &str = args[i].as_str();
            let (number, words): (bool, bool) = flag_takes_value(flag);
            if !number && !words {
                if same_text(flag, "--help") || same_text(flag, "-h") {
                    return Err(String::from_str(HELP));
                }
                return Err(joined("unrecognized argument: ", flag));
            }
            let value: String = match if i < len - 1 {
                argument_at(args, i + 1)
            } else {
                None
            } {
                Some(v) => v,
                None => {
                    return Err(joined(flag, " requires a value"));
                },
            };
            if number {
                match read_usize(value.as_str()) {
                    Ok(n) => match set_number(s.numbers, flag, n) {
                        Some(t) => {
                            s.numbers = t;
                        },
                        None => {},
                    },
                    Err(e) => {
                        return Err(bad_number(flag, e.as_str()));
                    },
                }
            } else {
                match set_text(&mut s, flag, value) {
                    Ok(_) => {},
                    Err(e) => {
                        return Err(e);
                    },
                }
            }
            i = i + 2;
        }
        Ok(s)
    }

    /// The modes to run. An unknown name stands for the default mode.
    pub fn modes(&self) -> (v: Vec<BenchmarkMode>)
        ensures
            v@ == modes_named(self@.mode),
    {
        let mode: &str = self.mode.as_str();
        let mut v: Vec<BenchmarkMode> = Vec::new();
        if same_text(mode, "all") {
            v.push(BenchmarkMode::PromptProcessing);
            v.push(BenchmarkMode::Generation);
        } else if same_text(mode, "prompt-processing") || same_text(mode, "pp") {
            v.push(BenchmarkMode::PromptProcessing);
        } else if same_text(mode, "generation") || same_text(mode, "tg") {
            v.push(BenchmarkMode::Generation);
        } else {
            v.push(BenchmarkMode::PromptPlusGeneration);
        }
        assert(v@ =~= modes_named(self@.mode));
        v
    }

    /// Whether the name of the mode is known.
    pub fn mode_is_known(&self) -> (b: bool)
        ensures
            b == known_mode(self@.mode),
    {
        let mode: &str = self.mode.as_str();
        same_text(mode, "all") || same_text(mode, "prompt-processing") || same_text(mode, "pp")
            || same_text(mode, "generation") || same_text(mode, "tg") || same_text(
            mode,
            "prompt-plus-generation",
        ) || same_text(mode, "pg")
    }

    /// The configuration of a mode: lengths that it does not use are zero, and no
    /// more of the prompt is cached than there is.
    pub fn benchmark_config(&self, mode: BenchmarkMode) -> (c: BenchmarkConfig)
        ensures
            c.mode == mode,
            c.prompt_len == (if mode == BenchmarkMode::Generation {
                0
            } else {
                self.numbers.prompt_len
            }),
            c.gen_len == (if mode == BenchmarkMode::PromptProcessing {
                0
            } else {
                self.numbers.gen_len
            }),
            c.cached_depth == (if self.numbers.cached_depth < c.prompt_len {
                self.numbers.cached_depth
            } else {
                c.prompt_len
            }),
            c.repetitions == self.numbers.repetitions,
            c.warmups == self.numbers.warmups,
            c.draft_window == self.numbers.draft_window,
            c.bytes_per_token == self.numbers.bytes_per_token,
            c.page_tokens == self.numbers.page_tokens,
            c.total_pages == self.numbers.total_pages,
            c.quantization == self.quantization,
            c.model_name@ == self.model_name@,
            c.backend_name@ == self.backend_name@,
            !c.measure_power,
            c.model_params_billions == (F64 { bits: 0 }),
            !c.roofline,
    {
        let (prompt_len, gen_len): (usize, usize) = match mode {
            BenchmarkMode::PromptProcessing => (self.numbers.prompt_len, 0),
            BenchmarkMode::Generation => (0, self.numbers.gen_len),
            BenchmarkMode::PromptPlusGeneration => (self.numbers.prompt_len, self.numbers.gen_len),
        };
        BenchmarkConfig {
            mode,
            prompt_len,
            gen_len,
            cached_depth: if self.numbers.cached_depth < prompt_len {
                self.numbers.cached_depth
            } else {
                prompt_len
            },
            repetitions: self.numbers.repetitions,
            warmups: self.numbers.warmups,
            draft_window: self.numbers.draft_window,
            bytes_per_token: self.numbers.bytes_per_token,
            page_tokens: self.numbers.page_tokens,
            total_pages: self.numbers.total_pages,
            quantization: self.quantization,
            model_name: String::from_str(self.model_name.as_str()),
            backend_name: String::from_str(self.backend_name.as_str()),
            measure_power: false,
            model_params_billions: F64 { bits: 0 },
            roofline: false,
        }
    }

    /// The configuration of the engine.
    pub fn engine_config(&self) -> (c: EngineConfig)
        ensures
            c.draft_window == self.numbers.draft_window,
            c.memory == (MemoryRuntimeConfig {
                bytes_per_token: self.numbers.bytes_per_token,
                paged_block_size: self.numbers.page_tokens,
                paged_total_pages: self.numbers.total_pages,
                n_layer: 32,
                unified_memory: false,
                max_slots: 32,
            }),
            c.kv_type == KvCacheType::Fp32,
    {
        EngineConfig {
            draft_window: self.numbers.draft_window,
            memory: MemoryRuntimeConfig::cpu(
                self.numbers.bytes_per_token,
                self.numbers.page_tokens,
                self.numbers.total_pages,
                32,
                32,
            ),
            kv_type: KvCacheType::Fp32,
        }
    }
}

/// The modes that a name stands for.
pub open spec fn modes_named(mode: Seq<char>) -> Seq<BenchmarkMode> {
    if mode == "all"@ {
        seq![BenchmarkMode::PromptProcessing, BenchmarkMode::Generation]
    } else if mode == "prompt-processing"@ || mode == "pp"@ {
        seq![BenchmarkMode::PromptProcessing]
    } else if mode == "generation"@ || mode == "tg"@ {
        seq![BenchmarkMode::Generation]
    } else {
        seq![BenchmarkMode::PromptPlusGeneration]
    }
}

/// Whether a name stands for modes of its own.
pub open spec fn known_mode(mode: Seq<char>) -> bool {
    ||| mode == "all"@
    ||| mode == "prompt-processing"@
    ||| mode == "pp"@
    ||| mode == "generation"@
    ||| mode == "tg"@
    ||| mode == "prompt-plus-generation"@
    ||| mode == "pg"@
}

/// The names of the modes stand for the modes they name.
pub proof fn modes_are_named_by_their_text(mode: BenchmarkMode)
    ensures
        modes_named(mode.text()) == seq![mode],
        known_mode(mode.text()),
{
    reveal_strlit("prompt-processing");
    reveal_strlit("generation");
    reveal_strlit("prompt-plus-generation");
    reveal_strlit("all");
    reveal_strlit("pp");
    reveal_strlit("tg");
    assert("prompt-plus-generation"@.len() == 22);
    assert("prompt-processing"@.len() == 17);
    assert("generation"@.len() == 10);
    assert("all"@.len() == 3);
    assert("pp"@.len() == 2);
    assert("tg"@.len() == 2);
}


proof fn lemma_flags_differ()
    ensures
        "--prompt-len"@.len() == 12,
        "--gen-len"@.len() == 9,
        "--cached-depth"@.len() == 14,
        "--repetitions"@.len() == 13,
        "--warmups"@.len() == 9,
        "--draft-window"@.len() == 14,
        "--bytes-per-token"@.len() == 17,
        "--page-tokens"@.len() == 13,
        "--total-pages"@.len() == 13,
        "--mode"@.len() == 6,
        "--model-name"@.len() == 12,
        "--backend-name"@.len() == 14,
        "--llama-csv"@.len() == 11,
        "--gen-len"@[2] == 'g',
        "--warmups"@[2] == 'w',
        "--cached-depth"@[2] == 'c',
        "--draft-window"@[2] == 'd',
        "--backend-name"@[2] == 'b',
        "--repetitions"@[2] == 'r',
        "--page-tokens"@[2] == 'p',
        "--total-pages"@[2] == 't',
        "--prompt-len"@[2] == 'p',
        "--model-name"@[2] == 'm',
{
    reveal_strlit("--prompt-len");
    reveal_strlit("--gen-len");
    reveal_strlit("--cached-depth");
    reveal_strlit("--repetitions");
    reveal_strlit("--warmups");
    reveal_strlit("--draft-window");
    reveal_strlit("--bytes-per-token");
    reveal_strlit("--page-tokens");
    reveal_strlit("--total-pages");
    reveal_strlit("--mode");
    reveal_strlit("--model-name");
    reveal_strlit("--backend-name");
    reveal_strlit("--llama-csv");
}

proof fn lemma_read_on(args: Seq<Seq<char>>, more: Seq<Seq<char>>, i: int, s: ArgsModel)
    requires
        0 <= i <= args.len(),
        read_args(args, i, s) is Ok,
    ensures
        read_args(args + more, i, s) == read_args(
            args + more,
            args.len() as int,
            read_args(args, i, s)->Ok_0,
        ),
    decreases args.len() - i,
{
    if i < args.len() {
        assert((args + more)[i] == args[i]);
        assert(cli::argument(args, i + 1) is Some);
        assert((args + more)[i + 1] == args[i + 1]);
        let flag = args[i];
        let v = args[i + 1];
        if with_number(s.numbers, flag, 0) is Some {
            lemma_read_on(
                args,
                more,
                i + 2,
                ArgsModel {
                    numbers: with_number(s.numbers, flag, text::numeral(v)->0 as usize)->0,
                    ..s
                },
            );
        } else {
            lemma_read_on(args, more, i + 2, with_text(s, flag, v)->0->Ok_0);
        }
    }
}

/// What a command line that is in order says with an option and its value added at its
/// end.
pub open spec fn with_option(
    args: Seq<Seq<char>>,
    flag: Seq<char>,
    value: Seq<char>,
    s: ArgsModel,
) -> Result<ArgsModel, Seq<char>> {
    read_args(args + seq![flag, value], 0, s)
}

proof fn lemma_option(args: Seq<Seq<char>>, flag: Seq<char>, value: Seq<char>, s: ArgsModel)
    requires
        read_args(args, 0, s) is Ok,
        takes_value(flag),
    ensures
        ({
            let t = read_args(args, 0, s)->Ok_0;
            &&& with_number(t.numbers, flag, 0) is Some && text::reads_as(value, usize::MAX as nat)
                ==> with_option(args, flag, value, s) == Ok::<ArgsModel, Seq<char>>(
                ArgsModel {
                    numbers: with_number(t.numbers, flag, text::numeral(value)->0 as usize)->0,
                    ..t
                },
            )
            &&& with_number(t.numbers, flag, 0) is None ==> with_option(args, flag, value, s)
                == with_text(t, flag, value)->0
        }),
{
    let a = seq![flag, value];
    let m = args.len() as int;
    lemma_read_on(args, a, 0, s);
    assert((args + a)[m] == a[0] && (args + a)[m + 1] == a[1]);
    reveal_with_fuel(read_args, 2);
}

/// A number at the end of a command line that is in order is what its option names from
/// then on, whatever was said of it before, and all else stays.
pub proof fn numbers_are_set_by_their_options(args: Seq<Seq<char>>, n: usize, s: ArgsModel)
    requires
        read_args(args, 0, s) is Ok,
    ensures
        ({
            let t = read_args(args, 0, s)->Ok_0;
            let d = text::decimal(n as nat);
            let set = |flag: Seq<char>, numbers: BenchNumbers|
                with_option(args, flag, d, s) == Ok::<ArgsModel, Seq<char>>(
                    ArgsModel { numbers, ..t },
                );
            &&& set("--prompt-len"@, BenchNumbers { prompt_len: n, ..t.numbers })
            &&& set("--gen-len"@, BenchNumbers { gen_len: n, ..t.numbers })
            &&& set("--cached-depth"@, BenchNumbers { cached_depth: n, ..t.numbers })
            &&& set("--repetitions"@, BenchNumbers { repetitions: n, ..t.numbers })
            &&& set("--warmups"@, BenchNumbers { warmups: n, ..t.numbers })
            &&& set("--draft-window"@, BenchNumbers { draft_window: n, ..t.numbers })
            &&& set("--bytes-per-token"@, BenchNumbers { bytes_per_token: n, ..t.numbers })
            &&& set("--page-tokens"@, BenchNumbers { page_tokens: n, ..t.numbers })
            &&& set("--total-pages"@, BenchNumbers { total_pages: n, ..t.numbers })
        }),
{
    let d = text::decimal(n as nat);
    lemma_flags_differ();
    text::written_numbers_are_read_back(n as nat);
    lemma_option(args, "--prompt-len"@, d, s);
    lemma_option(args, "--gen-len"@, d, s);
    lemma_option(args, "--cached-depth"@, d, s);
    lemma_option(args, "--repetitions"@, d, s);
    lemma_option(args, "--warmups"@, d, s);
    lemma_option(args, "--draft-window"@, d, s);
    lemma_option(args, "--bytes-per-token"@, d, s);
    lemma_option(args, "--page-tokens"@, d, s);
    lemma_option(args, "--total-pages"@, d, s);
}

/// A text at the end of a command line that is in order is what its option names from
/// then on, whatever was said of it before, and all else stays.
pub proof fn texts_are_set_by_their_options(args: Seq<Seq<char>>, v: Seq<char>, s: ArgsModel)
    requires
        read_args(args, 0, s) is Ok,
    ensures
        ({
            let t = read_args(args, 0, s)->Ok_0;
            let set = |flag: Seq<char>, after: ArgsModel|
                with_option(args, flag, v, s) == Ok::<ArgsModel, Seq<char>>(after);
            &&& set("--mode"@, ArgsModel { mode: v, ..t })
            &&& set("--model-name"@, ArgsModel { model_name: v, ..t })
            &&& set("--backend-name"@, ArgsModel { backend_name: v, ..t })
            &&& set("--llama-csv"@, ArgsModel { llama_csv: Some(v), ..t })
        }),
{
    lemma_flags_differ();
    lemma_option(args, "--mode"@, v, s);
    lemma_option(args, "--model-name"@, v, s);
    lemma_option(args, "--backend-name"@, v, s);
    lemma_option(args, "--llama-csv"@, v, s);
}
} // verus!
