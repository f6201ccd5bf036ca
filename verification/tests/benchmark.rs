use velo_core::benchmark::{
    baseline_for, chip_peaks, finish_row, format_llama_test, format_mode, parse_csv_line,
    parse_llama_csv, parse_u128, parse_usize, run_samples, run_single_case, sample_totals,
    BenchmarkConfig, BenchmarkFormat, BenchmarkMode, BenchmarkReport, BenchmarkRow,
    BenchmarkSample,
    EnergyMonitor, LlamaBenchRow, MacEnergyMonitor, NoopEnergyMonitor, PeakSpecs, RowRates,
};
use velo_core::engine::{EngineConfig, EngineError};
use velo_core::metal::Quantization;
use velo_core::paged_attention::{KvCacheType, PageManagerError};
use velo_core::report::{summarize, SampleFigures};
use velo_core::runtime::MemoryRuntimeConfig;
use velo_core::scalar::F64;
use velo_core::speculative::{SpeculativeError, SpeculativeStats};

fn d(v: f64) -> F64 {
    F64 { bits: v.to_bits() }
}

fn engine_config() -> EngineConfig {
    EngineConfig {
        draft_window: 1,
        memory: MemoryRuntimeConfig::cpu(16, 16, 32, 1, 32),
        kv_type: KvCacheType::Fp32,
    }
}

fn config(mode: BenchmarkMode, prompt_len: usize, gen_len: usize, depth: usize) -> BenchmarkConfig {
    BenchmarkConfig {
        mode,
        prompt_len,
        gen_len,
        cached_depth: depth,
        repetitions: 1,
        warmups: 0,
        draft_window: 1,
        bytes_per_token: 0,
        page_tokens: 16,
        total_pages: 32,
        quantization: Quantization::F32,
        model_name: "test".into(),
        backend_name: "cpu".into(),
        measure_power: false,
        model_params_billions: d(0.0),
        roofline: false,
    }
}

/// The rows of a report, with the rates read.
fn rows_of(csv: &str) -> Result<Vec<LlamaBenchRow>, String> {
    let table = parse_llama_csv(csv);
    let read = |s: &Option<String>| match s {
        Some(s) => s.parse::<f64>().map(d).map_err(|e| e.to_string()),
        None => Err(String::new()),
    };
    let mut rows = Vec::new();
    for fields in table.rows {
        let rates = RowRates { avg_ts: read(&fields.avg_ts), stddev_ts: read(&fields.stddev_ts) };
        rows.push(finish_row(fields, rates)?);
    }
    match table.fault {
        Some(e) => Err(e),
        None => Ok(rows),
    }
}

#[test]
fn parses_llama_csv_rows() {
    let csv = "model_filename,backends,n_prompt,n_gen,n_depth,avg_ns,stddev_ns,avg_ts,stddev_ts\n\
               llama-3-8b,metal,512,128,0,1000000,500,128.0,0.5";
    let rows = rows_of(csv).unwrap();
    assert_eq!(rows.len(), 1);
    assert_eq!(rows[0].model_filename, "llama-3-8b");
    assert_eq!(rows[0].avg_ts, d(128.0));
}

#[test]
fn formats_test_name_like_llama_bench() {
    assert_eq!(format_mode(BenchmarkMode::PromptProcessing, 512, 0, 0), "pp512");
    assert_eq!(format_mode(BenchmarkMode::Generation, 0, 128, 0), "tg128");
    assert_eq!(
        format_mode(BenchmarkMode::PromptPlusGeneration, 512, 128, 64),
        "pp512+tg128 @ d64"
    );
}

fn row(test: &str, avg_ts: f64) -> BenchmarkRow {
    BenchmarkRow {
        model_name: "velo".into(),
        backend_name: "mock".into(),
        test: test.into(),
        mode: BenchmarkMode::PromptProcessing,
        prompt_len: 10,
        gen_len: 20,
        cached_depth: 0,
        repetitions: 5,
        warmups: 1,
        avg_ns: d(10.0),
        stddev_ns: d(0.0),
        avg_ts: d(avg_ts),
        stddev_ts: d(0.0),
        avg_ttft_ns: None,
        avg_cache_hit_tokens: d(0.0),
        avg_cache_miss_tokens: d(512.0),
        avg_draft_calls: d(0.0),
        avg_target_calls: d(0.0),
        avg_accepted_tokens: d(0.0),
        avg_rejected_tokens: d(0.0),
        p50_ns: d(1000.0),
        p90_ns: d(1000.0),
        p99_ns: d(1000.0),
        avg_power_w: None,
        tokens_per_joule: None,
        joules_per_token: None,
        baseline_avg_ts: None,
        speedup_vs_baseline: None,
        achieved_gb_s: None,
        achieved_tflops: None,
        bw_utilization: None,
    }
}

#[test]
fn produces_comparison_with_baseline() {
    let mine = row("pp512", 100.0);
    let csv = "build_commit,build_number,cpu_info,gpu_info,backends,model_filename,model_type,model_size,model_n_params,n_batch,n_ubatch,n_threads,cpu_mask,cpu_strict,poll,type_k,type_v,n_gpu_layers,split_mode,main_gpu,no_kv_offload,flash_attn,tensor_split,use_mmap,embeddings,n_prompt,n_gen,n_depth,test_time,avg_ns,stddev_ns,avg_ts,stddev_ts\n\
               \"a\",\"1\",\"cpu\",\"gpu\",\"CUDA\",\"model.gguf\",\"model\",\"1\",\"1\",\"1\",\"1\",\"1\",\"0x0\",\"0\",\"50\",\"f16\",\"f16\",\"0\",\"layer\",\"0\",\"0\",\"0\",\"0.00\",\"1\",\"0\",\"512\",\"0\",\"0\",\"2025-04-24T11:57:09Z\",\"70285660\",\"982040\",\"50.0\",\"1.0\"";
    let rows = rows_of(csv).unwrap();
    let baseline = &rows[baseline_for(&rows, &mine.test).unwrap()];

    assert_eq!(baseline.avg_ts, d(50.0));
    let speedup = f64::from_bits(mine.avg_ts.bits) / f64::from_bits(baseline.avg_ts.bits);
    assert_eq!(speedup, 2.0);
    assert_eq!(baseline.avg_ns, 70285660);
    assert_eq!(baseline.backend, "CUDA");
}

#[test]
fn test_benchmark_sample_prompt() {
    let sample =
        run_single_case(&engine_config(), &config(BenchmarkMode::PromptProcessing, 128, 0, 0))
            .unwrap();
    assert_eq!(sample.tokens, 128);
    assert!(sample.elapsed_ns > 0);
}

#[test]
fn benchmark_row_tokens_processed() {
    let mut row = row("", 0.0);
    assert_eq!(row.tokens_processed(), 10);
    row.mode = BenchmarkMode::Generation;
    assert_eq!(row.tokens_processed(), 20);
    row.mode = BenchmarkMode::PromptPlusGeneration;
    assert_eq!(row.tokens_processed(), 30);
}

#[test]
fn parse_llama_csv_edge_cases() {
    assert!(rows_of("").unwrap().is_empty());
    assert!(rows_of("h1,h2\nv1,v2").is_err()); // Missing expected headers
}

#[test]
fn benchmark_enum_displays() {
    assert_eq!(BenchmarkMode::PromptProcessing.to_string(), "prompt-processing");
    assert_eq!(BenchmarkFormat::Json.to_string(), "json");
}

#[test]
fn run_benchmark_warmup_and_reps() {
    let mut config = config(BenchmarkMode::PromptProcessing, 4, 0, 0);
    config.repetitions = 2;
    config.warmups = 1;
    let mut monitor = NoopEnergyMonitor;
    let samples = run_samples(&engine_config(), &config, &mut monitor).unwrap();
    assert_eq!(samples.len(), 2);
    let report = BenchmarkReport { rows: vec![summarize(&config, &samples, all(1.0))] };
    assert_eq!(report.rows.len(), 1);
    assert_eq!(report.rows[0].repetitions, 2);
    assert!(samples.iter().all(|s| s.energy_uj.is_none()));
}

fn all(x: f64) -> SampleFigures {
    let x = d(x);
    SampleFigures {
        avg_ns: x,
        stddev_ns: x,
        avg_ts: x,
        stddev_ts: x,
        avg_ttft_ns: x,
        avg_cache_hit_tokens: x,
        avg_cache_miss_tokens: x,
        avg_draft_calls: x,
        avg_target_calls: x,
        avg_accepted_tokens: x,
        avg_rejected_tokens: x,
        p50_ns: x,
        p90_ns: x,
        p99_ns: x,
        avg_power_w: x,
        tokens_per_joule: x,
        joules_per_token: x,
        achieved_gb_s: x,
        achieved_tflops: x,
        bw_utilization: x,
    }
}

#[test]
fn test_benchmark_sample_generation() {
    let sample =
        run_single_case(&engine_config(), &config(BenchmarkMode::Generation, 4, 4, 0)).unwrap();
    assert_eq!(sample.tokens, 4);
    assert!(sample.elapsed_ns > 0);
    assert!(sample.ttft_ns.is_some());
    assert_eq!(sample.speculative.accepted_tokens, 4);
}

#[test]
fn test_benchmark_sample_prompt_plus_generation() {
    let sample = run_single_case(
        &engine_config(),
        &config(BenchmarkMode::PromptPlusGeneration, 4, 4, 2),
    )
    .unwrap();
    assert_eq!(sample.tokens, 8);
    assert!(sample.elapsed_ns > 0);
    assert_eq!(sample.cache_hit_tokens, 2);
    assert_eq!(sample.cache_miss_tokens, 2);
}

#[test]
fn test_benchmark_helpers() {
    assert_eq!(format_llama_test(512, 0, 0), "pp512");
    assert_eq!(format_llama_test(0, 128, 0), "tg128");
    assert_eq!(format_llama_test(512, 128, 0), "pp512+tg128");
    assert_eq!(format_llama_test(512, 0, 256), "pp512 @ d256");

    assert_eq!(BenchmarkMode::PromptProcessing.to_string(), "prompt-processing");
    assert_eq!(BenchmarkFormat::Json.to_string(), "json");
}

#[test]
fn test_parse_csv_line() {
    assert_eq!(parse_csv_line("a,b,c"), vec!["a", "b", "c"]);
    assert_eq!(parse_csv_line("\"a,b\",c"), vec!["a,b", "c"]);
    assert_eq!(parse_csv_line("\"a\"\"b\",c"), vec!["a\"b", "c"]);
}

#[test]
fn fields_are_read_with_their_names() {
    assert_eq!(parse_usize(Some("12"), "n"), Ok(12));
    assert_eq!(parse_usize(None, "n"), Err("missing n".to_string()));
    assert_eq!(
        parse_usize(Some("x"), "n"),
        Err("failed to parse n: invalid digit found in string".to_string())
    );
    assert_eq!(parse_u128(Some("+340282366920938463463374607431768211455"), "n"), Ok(u128::MAX));
    assert_eq!(
        parse_u128(Some("340282366920938463463374607431768211456"), "n"),
        Err("failed to parse n: number too large to fit in target type".to_string())
    );
}

#[test]
fn the_first_fault_of_a_report_counts() {
    let head = "n_prompt,n_gen,n_depth,avg_ns,stddev_ns,avg_ts,stddev_ts";
    let good = "1,2,3,4,5,6.5,7.5";
    let bad = "1,x,3,4,5,6.5,7.5";
    let table = parse_llama_csv(&format!("\r\n{head}\r\n{good}\n\n{bad}\n{good}"));
    assert_eq!(table.rows.len(), 1);
    assert_eq!(table.rows[0].test, "pp1+tg2 @ d3");
    assert_eq!(table.rows[0].model_filename, "");
    assert_eq!(
        table.fault,
        Some("failed to parse n_gen: invalid digit found in string".to_string())
    );
    let e = rows_of(&format!("{head}\n1,2,3,4,5,y,7.5")).unwrap_err();
    assert!(e.starts_with("failed to parse avg_ts: "));
    let e = rows_of("n_prompt,n_gen,n_depth,avg_ns,stddev_ns,avg_ts\n1,2,3,4,5,6").unwrap_err();
    assert_eq!(e, "missing stddev_ts");
}

#[test]
fn the_last_row_of_a_test_is_the_baseline() {
    let head = "n_prompt,n_gen,n_depth,avg_ns,stddev_ns,avg_ts,stddev_ts";
    let rows = rows_of(&format!("{head}\n5,0,0,1,1,10,1\n5,0,0,1,1,20,1\n0,7,0,1,1,30,1")).unwrap();
    assert_eq!(baseline_for(&rows, "pp5"), Some(1));
    assert_eq!(baseline_for(&rows, "tg7"), Some(2));
    assert_eq!(baseline_for(&rows, "tg8"), None);
}

#[test]
fn cases_that_do_not_fit_fail() {
    let small = EngineConfig {
        draft_window: 1,
        memory: MemoryRuntimeConfig::cpu(16, 2, 2, 1, 1),
        kv_type: KvCacheType::Fp32,
    };
    let case = config(BenchmarkMode::PromptProcessing, 5, 0, 0);
    assert!(matches!(
        run_single_case(&small, &case),
        Err(EngineError::PagedAttention(PageManagerError::OutOfPages { requested: 3, available: 2 }))
    ));
    let no_window = EngineConfig { draft_window: 0, ..small };
    assert!(matches!(
        run_single_case(&no_window, &case),
        Err(EngineError::Speculative(SpeculativeError::EmptyDraftWindow))
    ));
    let warm = config(BenchmarkMode::PromptProcessing, 4, 0, 3);
    assert!(matches!(
        run_single_case(&small, &warm),
        Err(EngineError::PagedAttention(PageManagerError::OutOfPages { requested: 2, available: 0 }))
    ));
    let case = config(BenchmarkMode::PromptProcessing, 4, 0, 0);
    assert!(run_single_case(&small, &case).is_ok());
}

#[test]
fn samples_add_up() {
    let sample = |tokens: usize, ttft: Option<u128>, energy: Option<u128>| BenchmarkSample {
        elapsed_ns: 10,
        ttft_ns: ttft,
        tokens,
        cache_hit_tokens: 0,
        cache_miss_tokens: 0,
        speculative: SpeculativeStats::default(),
        energy_uj: energy,
        achieved_gb_s: None,
        achieved_tflops: None,
    };
    let t = sample_totals(&[sample(3, Some(7), None), sample(4, None, Some(5)), sample(5, Some(9), Some(6))]);
    assert_eq!(t.elapsed_ns, vec![10, 10, 10]);
    assert_eq!(t.ttft_ns, vec![7, 9]);
    assert_eq!(t.tokens, 12);
    assert_eq!(t.energy_uj, Some(11));
    assert_eq!(sample_totals(&[]).energy_uj, None);
}

#[test]
fn chips_are_known_by_name() {
    assert_eq!(chip_peaks("apple m1 max"), PeakSpecs { bw_gb_s: 400, tflops_tenths: 104 });
    assert_eq!(chip_peaks("apple m3 pro"), PeakSpecs { bw_gb_s: 150, tflops_tenths: 90 });
    assert_eq!(chip_peaks("something else"), PeakSpecs { bw_gb_s: 100, tflops_tenths: 50 });
}

#[test]
fn monitors_without_a_source_measure_nothing() {
    let mut noop = NoopEnergyMonitor;
    noop.start();
    assert_eq!(noop.stop(), None);
    let mut mac = MacEnergyMonitor::new();
    mac.start();
    assert!(mac.start_time.is_some());
    assert_eq!(mac.stop(), None);
}

#[test]
fn a_case_takes_as_many_rounds_as_its_windows_need() {
    let mut engine = engine_config();
    engine.draft_window = 3;
    let mut case = config(BenchmarkMode::Generation, 4, 7, 0);
    case.draft_window = 3;
    let sample = run_single_case(&engine, &case).unwrap();
    assert_eq!(sample.tokens, 7);
    assert_eq!(sample.speculative.accepted_tokens, 7);
    assert_eq!(sample.speculative.drafted_tokens, 7);
    assert_eq!(sample.speculative.rejected_tokens, 0);
    assert_eq!(sample.speculative.draft_calls, sample.speculative.target_calls);
    case.gen_len = 0;
    let idle = run_single_case(&engine, &case).unwrap();
    assert!(idle.ttft_ns.is_none());
    assert_eq!(idle.speculative.draft_calls, 0);
}
