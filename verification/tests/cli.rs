use velo_core::benchmark::{BenchmarkFormat, BenchmarkMode};
use velo_core::cli::bench::CliArgs;
use velo_core::cli::project::{generate_report, PowerFigures, Projection};
use velo_core::cli::run::{continue_greedily, RunConfig};
use velo_core::cli::serve::{
    default_max_tokens, final_piece, metrics_text, serve_settings, token_piece,
};
use velo_core::cli::spec::{choose_run, run_mock, SpecConfig, SpecRun};
use velo_core::cli::{run, spec};
use velo_core::metal::Quantization;
use velo_core::ffi::{velo_core_engine_generate, velo_core_engine_new};
use velo_core::metal::runtime::Opening;
use velo_core::mock_backend::MockBackend;
use velo_core::model_loader::ModelMeta;
use velo_core::scalar::{F32, F64};
use velo_core::scheduler::SchedulerMetrics;

fn args(pairs: &[&str]) -> Vec<String> {
    let mut v = vec!["velo-run".to_string()];
    v.extend(pairs.iter().map(|s| s.to_string()));
    v
}

fn run_args(pairs: &[&str]) -> Result<RunConfig, String> {
    run::parse_args(&args(pairs))
}

fn spec_args(pairs: &[&str]) -> Result<SpecConfig, String> {
    spec::parse_args(&args(pairs))
}

// --- velo-run ---

#[test]
fn parses_token_ids() {
    let cfg = run_args(&["--model", "m.gguf", "--token-ids", "1,2,3"]).unwrap();
    assert_eq!(cfg.token_ids, vec![1, 2, 3]);
}

#[test]
fn parses_max_tokens() {
    let cfg =
        run_args(&["--model", "m.gguf", "--token-ids", "1", "--max-tokens", "64"]).unwrap();
    assert_eq!(cfg.max_tokens, 64);
}

#[test]
fn missing_model_is_error() {
    assert!(run_args(&["--token-ids", "1"]).is_err());
}

#[test]
fn missing_prompt_is_error() {
    assert!(run_args(&["--model", "m.gguf"]).is_err());
}

#[test]
fn prompt_bytes_become_token_ids() {
    let cfg = run_args(&["--model", "m.gguf", "--prompt", "hi"]).unwrap();
    assert_eq!(cfg.token_ids, vec![b'h' as u32, b'i' as u32]);
}

#[test]
fn rejects_missing_model() {
    assert_eq!(run_args(&["--token-ids", "1"]).unwrap_err(), "--model is required");
}

#[test]
fn rejects_invalid_token_id() {
    assert!(run_args(&["--model", "m.gguf", "--token-ids", "1,abc"])
        .unwrap_err()
        .contains("invalid token id"));
}

#[test]
fn rejects_invalid_max_tokens() {
    assert!(run_args(&["--model", "m.gguf", "--token-ids", "1", "--max-tokens", "xyz"])
        .unwrap_err()
        .contains("max-tokens must be a positive integer"));
}

#[test]
fn prompt_option_validation() {
    assert!(run_args(&["--model", "m.gguf", "--prompt"]).is_err());
}

#[test]
fn test_run_inference_full() {
    let cfg = run_args(&["--model", "m.gguf", "--token-ids", "1,2"]).unwrap();
    assert_eq!(cfg.model, "m.gguf");
}

#[test]
fn test_help_output() {
    // parse_args doesn't handle --help specifically (it returns error or usage)
    assert!(run_args(&["--help"]).is_err());
}

#[test]
fn test_invalid_max_tokens_format() {
    assert!(run_args(&["--model", "m", "--token-ids", "1", "--max-tokens", "abc"]).is_err());
}

#[test]
fn test_run_config_traits() {
    let cfg = RunConfig { model: "m.gguf".to_string(), token_ids: vec![1, 2], max_tokens: 32 };
    let dbg = format!("{:?}", cfg);
    assert!(dbg.contains("m.gguf"));
    assert!(dbg.contains("max_tokens: 32"));
}

#[test]
fn test_usage_not_empty() {
    assert!(!run::USAGE.is_empty());
}

#[test]
fn velo_spec_test_usage_not_empty() {
    assert!(!spec::USAGE.is_empty());
}

#[test]
fn test_run_invalid_args() {
    let res = run::parse_args(&["velo-run".to_string(), "--unknown".to_string()]);
    assert!(res.is_err());
}

#[test]
fn velo_spec_test_run_invalid_args() {
    let res = spec::parse_args(&["velo-spec".to_string(), "--unknown".to_string()]);
    assert!(res.is_err());
}

#[test]
fn test_parse_args_exhaustive() {
    // Test unknown argument
    assert!(run_args(&["--unknown"]).is_err());

    // Test missing required model
    assert_eq!(run_args(&["--token-ids", "1"]).unwrap_err(), "--model is required");

    // Test missing prompt/token-ids
    assert_eq!(
        run_args(&["--model", "m"]).unwrap_err(),
        "at least one of --token-ids or --prompt is required"
    );
}

#[test]
fn token_ids_may_have_blanks_and_a_plus() {
    let cfg = run_args(&["--model", "m", "--token-ids", " 1 ,+2,4294967295"]).unwrap();
    assert_eq!(cfg.token_ids, vec![1, 2, u32::MAX]);
    assert_eq!(
        run_args(&["--model", "m", "--token-ids", "4294967296"]).unwrap_err(),
        "invalid token id: 4294967296"
    );
    assert_eq!(
        run_args(&["--model", "m", "--token-ids", "1, x"]).unwrap_err(),
        "invalid token id:  x"
    );
    assert_eq!(run_args(&["--bad"]).unwrap_err(), "unknown argument: --bad");
}

#[test]
fn prompts_are_read_byte_by_byte() {
    let cfg = run_args(&["--model", "m", "--prompt", "é"]).unwrap();
    assert_eq!(cfg.token_ids, vec![0xC3, 0xA9]);
    assert_eq!(cfg.max_tokens, 16);
}

#[test]
fn greedy_runs_follow_the_model() {
    let mut model = MockBackend::new(vec![0, 5, 6, 7, 8]);
    assert_eq!(continue_greedily(&mut model, 9, 3).unwrap(), vec![9, 5, 5]);
    assert_eq!(continue_greedily(&mut model, 9, 0).unwrap(), vec![9]);
    let mut short = MockBackend::new(vec![0]);
    assert!(continue_greedily(&mut short, 9, 2).is_err());
}

// --- velo-spec ---

#[test]
fn parses_mock_spec() {
    let cfg = spec_args(&["--mock", "--prompt", "hi"]).unwrap();
    assert!(cfg.mock);
    assert_eq!(cfg.token_ids, vec![b'h' as u32, b'i' as u32]);
}

#[test]
fn parses_full_spec() {
    let cfg = spec_args(&[
        "--target", "t.gguf", "--draft", "d.gguf", "--prompt", "p", "--max-new", "64",
        "--window", "8",
    ])
    .unwrap();
    assert_eq!(cfg.target, Some("t.gguf".to_string()));
    assert_eq!(cfg.draft, Some("d.gguf".to_string()));
    assert_eq!(cfg.max_new_tokens, 64);
    assert_eq!(cfg.draft_window, 8);
}

#[test]
fn rejects_unknown_arg() {
    assert!(spec_args(&["--bad"]).is_err());
}

#[test]
fn rejects_missing_target_or_draft() {
    let cfg = spec_args(&["--prompt", "hi"]).unwrap();
    assert_eq!(cfg.target, None);
    assert_eq!(cfg.draft, None);
}

#[test]
fn rejects_missing_values() {
    assert!(spec_args(&["--target"]).is_err());
    assert!(spec_args(&["--draft"]).is_err());
    assert!(spec_args(&["--prompt"]).is_err());
    assert!(spec_args(&["--max-new"]).is_err());
    assert!(spec_args(&["--window"]).is_err());
}

#[test]
fn test_run_mock_full() {
    let cfg = SpecConfig {
        target: None,
        draft: None,
        token_ids: vec![1, 2, 3],
        max_new_tokens: 10,
        draft_window: 4,
        max_context: 4096,
        mock: true,
    };
    let out = run_mock(&cfg).unwrap();
    assert_eq!(out.tokens, (3..13).collect::<Vec<u32>>());
}

#[test]
fn test_invalid_max_new_format() {
    assert!(spec_args(&["--prompt", "h", "--max-new", "nan"]).is_err());
}

#[test]
fn test_invalid_window_format() {
    assert!(spec_args(&["--prompt", "h", "--window", "nan"]).is_err());
}

#[test]
fn test_spec_config_traits() {
    let cfg = SpecConfig {
        target: Some("t".to_string()),
        draft: Some("d".to_string()),
        token_ids: vec![1],
        max_new_tokens: 10,
        draft_window: 4,
        max_context: 2048,
        mock: false,
    };
    let dbg = format!("{:?}", cfg);
    assert!(dbg.contains("max_new_tokens: 10"));
    assert!(dbg.contains("mock: false"));
}

#[test]
fn test_parse_args_missing_values_direct() {
    assert!(spec_args(&["--target"]).is_err());
    assert!(spec_args(&["--draft"]).is_err());
    assert!(spec_args(&["--prompt"]).is_err());
    assert!(spec_args(&["--max-new"]).is_err());
    assert!(spec_args(&["--window"]).is_err());
}

#[test]
fn numbers_that_cannot_be_read_are_explained() {
    assert_eq!(
        spec_args(&["--max-new", "x"]).unwrap_err(),
        "invalid max-new: invalid digit found in string"
    );
    assert_eq!(
        spec_args(&["--window", ""]).unwrap_err(),
        "invalid window: cannot parse integer from empty string"
    );
}

#[test]
fn models_must_both_be_given() {
    let nothing = spec_args(&[]).unwrap();
    assert_eq!(choose_run(&nothing).unwrap_err(), "--target missing and --mock not specified");
    let target = spec_args(&["--target", "t"]).unwrap();
    assert_eq!(choose_run(&target).unwrap_err(), "--draft missing and --mock not specified");
    let both = spec_args(&["--target", "t", "--draft", "d"]).unwrap();
    assert!(matches!(
        choose_run(&both).unwrap(),
        SpecRun::Models { target, draft } if target == "t" && draft == "d"
    ));
    let mock = spec_args(&["--mock"]).unwrap();
    assert!(matches!(choose_run(&mock).unwrap(), SpecRun::Mock));
    let mut none = mock;
    none.draft_window = 0;
    assert!(run_mock(&none).is_err());
}

// --- velo-bench ---

fn bench_args(list: &[&str]) -> Result<CliArgs, String> {
    let v: Vec<String> = list.iter().map(|s| s.to_string()).collect();
    CliArgs::parse(&v)
}

#[test]
fn benchmarks_have_defaults() {
    let a = bench_args(&[]).unwrap();
    assert_eq!(a.mode, "prompt-plus-generation");
    assert_eq!(a.numbers.prompt_len, 128);
    assert_eq!(a.numbers.total_pages, 4096);
    assert_eq!(a.format, BenchmarkFormat::Markdown);
    assert_eq!(a.quantization, Quantization::Q4_0);
    assert!(a.llama_csv.is_none());
    assert_eq!(a.modes(), vec![BenchmarkMode::PromptPlusGeneration]);
}

#[test]
fn benchmark_options_are_read() {
    let a = bench_args(&[
        "--mode", "all", "--prompt-len", "512", "--gen-len", "64", "--cached-depth", "600",
        "--format", "csv", "--quantization", "q4-k", "--llama-csv", "x.csv", "--warmups", "0",
    ])
    .unwrap();
    assert_eq!(a.modes(), vec![BenchmarkMode::PromptProcessing, BenchmarkMode::Generation]);
    assert_eq!(a.format, BenchmarkFormat::Csv);
    assert_eq!(a.quantization, Quantization::Q4K);
    assert_eq!(a.llama_csv, Some("x.csv".to_string()));
    let c = a.benchmark_config(BenchmarkMode::PromptProcessing);
    assert_eq!((c.prompt_len, c.gen_len, c.cached_depth), (512, 0, 512));
    let c = a.benchmark_config(BenchmarkMode::Generation);
    assert_eq!((c.prompt_len, c.gen_len, c.cached_depth), (0, 64, 0));
    assert_eq!(a.engine_config().memory.paged_total_pages, 4096);
}

#[test]
fn wrong_benchmark_options_are_explained() {
    assert_eq!(bench_args(&["--mode"]).unwrap_err(), "--mode requires a value");
    assert_eq!(
        bench_args(&["--gen-len", "x"]).unwrap_err(),
        "invalid value for --gen-len: invalid digit found in string"
    );
    assert_eq!(bench_args(&["--format", "x"]).unwrap_err(), "unknown format: x");
    assert_eq!(bench_args(&["--quantization", "x"]).unwrap_err(), "unknown quantization: x");
    assert_eq!(bench_args(&["--x"]).unwrap_err(), "unrecognized argument: --x");
    assert!(bench_args(&["-h"]).unwrap_err().contains("Usage:"));
    let odd = bench_args(&["--mode", "x"]).unwrap();
    assert!(!odd.mode_is_known());
    assert_eq!(odd.modes(), vec![BenchmarkMode::PromptPlusGeneration]);
}

// --- velo-project ---

#[test]
fn test_generate_report() {
    let (nodes, cost_kwh, uptime) = (100usize, 0.12f64, 24.0f64);
    let project = |avg_ts: f64, power_w: Option<f64>| {
        let tps = avg_ts * nodes as f64;
        let daily = tps * 3600.0 * uptime;
        Projection {
            test: "smoke".into(),
            model_name: "llama".into(),
            throughput: format!("{:.2}", tps),
            capacity: format!("{:.2}", daily / 1e9),
            power: power_w.map(|w| {
                let kw = w * nodes as f64 / 1000.0;
                let cost = kw * uptime * cost_kwh;
                PowerFigures {
                    fleet_kw: format!("{:.2}", kw),
                    daily_cost: format!("{:.2}", cost),
                    cost_per_million: format!("{:.6}", cost / daily * 1_000_000.0),
                }
            }),
        }
    };
    let rows = vec![project(10.0, Some(150.0)), project(10.0, None)];
    let report = generate_report(nodes, &cost_kwh.to_string(), &uptime.to_string(), &rows);
    assert!(report.contains("Nodes: 100"));
    assert!(report.contains("Fleet Power:       15.00 kW"));
    assert!(report.contains("Power Data:        N/A"));
    assert!(report.contains("Test: smoke | Model: llama\n  Fleet Throughput:  1000.00 tokens/sec\n"));
    assert!(report.contains("Electricity Cost: $0.12/kWh\nDaily Uptime: 24 hours\n"));
}

// --- velo-serve ---

#[test]
fn answers_come_in_pieces() {
    let r = token_piece("hi".into());
    assert_eq!(r.model, "velo-llama");
    assert_eq!(r.object, "chat.completion.chunk");
    assert_eq!(r.choices.len(), 1);
    assert_eq!(r.choices[0].delta.content, Some("hi".to_string()));
    assert_eq!(r.choices[0].finish_reason, None);
    assert_eq!(r.usage, None);

    let half = F64 { bits: 0.5f64.to_bits() };
    let r = final_piece(3, 4, 1, half);
    assert_eq!(r.choices[0].delta.content, None);
    assert_eq!(r.choices[0].finish_reason, Some("stop".to_string()));
    let usage = r.usage.unwrap();
    assert_eq!((usage.prompt_tokens, usage.completion_tokens, usage.total_tokens), (3, 4, 7));
    assert_eq!(usage.hardware_utilization, Some(half));
    assert_eq!(final_piece(3, 4, 0, half).usage.unwrap().hardware_utilization, None);
    assert_eq!(default_max_tokens(), 128);
}

#[test]
fn metrics_are_written_out() {
    let mut m = SchedulerMetrics::default();
    m.total_tokens_generated = 50;
    m.active_slots = 2;
    let text = metrics_text(&m, "7.25", "10.00", 5);
    assert!(text.starts_with(
        "# HELP velo_tokens_total Total tokens generated\n# TYPE velo_tokens_total counter\nvelo_tokens_total 50\n\n"
    ));
    assert!(text.contains("\nvelo_active_slots 2\n"));
    assert!(text.contains("\nvelo_ttft_ms_avg 0.00\n"));
    assert!(text.contains("\nvelo_tokens_per_second 10.00\n"));
    assert!(text.ends_with("\nvelo_uptime_seconds 5\n"));
    m.requests_with_ttft = 1;
    assert!(metrics_text(&m, "7.25", "10.00", 0).contains("\nvelo_ttft_ms_avg 7.25\n"));
    assert!(metrics_text(&m, "7.25", "inf", 0).contains("\nvelo_tokens_per_second 0.00\n"));
}

#[test]
fn servers_are_set_up_for_their_model() {
    let zero = F32::from_bits(0);
    let meta = ModelMeta {
        arch: "llama".to_string(),
        n_vocab: 10,
        n_embd: 4,
        n_layer: 3,
        n_head: 2,
        n_head_kv: 2,
        n_ctx: 77,
        n_ff: 8,
        head_dim: 2,
        rope_freq_base: zero,
        norm_eps: zero,
        quantization: Quantization::Q4K,
    };
    let s = serve_settings(&meta, 6);
    assert_eq!(s.engine.draft_window, 4);
    assert_eq!(s.engine.memory.max_slots, 6);
    assert_eq!(s.runtime.memory.n_layer, 3);
    assert_eq!(s.runtime.model_name, "velo-llama");
    assert_eq!(s.backend.max_context_tokens, 77);
    assert_eq!(s.backend.quantization, Quantization::Q4K);
}

// --- other languages ---

#[test]
fn handles_need_a_name_and_a_device() {
    let new = |name: Option<&str>, tokens: usize, opening: Opening| {
        velo_core_engine_new(name.map(|n| n.to_string()), 2, tokens, opening)
    };
    let open = || Opening::Open("gpu".into());
    assert!(new(None, 64, open()).is_none());
    assert!(new(Some(" "), 64, open()).is_none());
    assert!(new(Some("m"), 0, open()).is_none());
    assert!(new(Some("m"), 64, Opening::NoDevice).is_none());
    let mut handle = new(Some("m"), 64, open()).unwrap();
    assert_eq!(velo_core_engine_generate(&mut handle, &[1, 2, 3], 9), vec![1, 2, 3]);
}

#[test]
fn a_mock_run_continues_the_count() {
    let mut cfg = spec_args(&["--mock", "--prompt", "hello", "--window", "3"]).unwrap();
    let out = run_mock(&cfg).unwrap();
    assert_eq!(out.tokens, (5..37).collect::<Vec<u32>>());
    cfg.token_ids = vec![0; 2000];
    cfg.max_new_tokens = 48;
    assert_eq!(run_mock(&cfg).unwrap().tokens.last(), Some(&2047));
    cfg.max_new_tokens = 49;
    assert!(run_mock(&cfg).is_err());
    cfg.token_ids = vec![0; 3000];
    cfg.max_new_tokens = 0;
    assert!(run_mock(&cfg).unwrap().tokens.is_empty());
    cfg.token_ids = Vec::new();
    assert!(run_mock(&cfg).is_err());
}
