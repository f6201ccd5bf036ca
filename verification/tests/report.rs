use velo_core::benchmark::{
    BenchmarkConfig, BenchmarkMode, BenchmarkReport, BenchmarkRow, BenchmarkSample, LlamaBenchRow,
};
use velo_core::metal::Quantization;
use velo_core::ranking::rank_descending;
use velo_core::report::{compare_with_llama_csv, summarize, RowFigures, SampleFigures};
use velo_core::scalar::F64;
use velo_core::speculative::SpeculativeStats;

fn d(v: f64) -> F64 {
    F64 { bits: v.to_bits() }
}

fn v(x: F64) -> f64 {
    f64::from_bits(x.bits)
}

fn row(model: &str, backend: &str, test: &str) -> BenchmarkRow {
    BenchmarkRow {
        model_name: model.to_string(),
        backend_name: backend.to_string(),
        test: test.to_string(),
        mode: BenchmarkMode::Generation,
        prompt_len: 1,
        gen_len: 1,
        cached_depth: 0,
        repetitions: 1,
        warmups: 0,
        avg_ns: d(1000.0),
        stddev_ns: d(0.0),
        avg_ts: d(1000.0),
        stddev_ts: d(0.0),
        avg_ttft_ns: None,
        avg_cache_hit_tokens: d(0.0),
        avg_cache_miss_tokens: d(1.0),
        avg_draft_calls: d(1.0),
        avg_target_calls: d(1.0),
        avg_accepted_tokens: d(1.0),
        avg_rejected_tokens: d(0.0),
        p50_ns: d(1000.0),
        p90_ns: d(1000.0),
        p99_ns: d(1000.0),
        avg_power_w: None,
        tokens_per_joule: None,
        joules_per_token: None,
        baseline_avg_ts: None,
        speedup_vs_baseline: None,
        achieved_gb_s: None,
        achieved_tflops: None,
        bw_utilization: None,
    }
}

/// The values of a row, written without rounding where `digits` is `None`.
fn figures(r: &BenchmarkRow, counts: Option<usize>, shown: Option<usize>) -> RowFigures {
    let plain = |x: F64, digits: Option<usize>| match digits {
        Some(n) => format!("{:.*}", n, v(x)),
        None => v(x).to_string(),
    };
    let optional = |x: Option<F64>| x.map_or(String::new(), |x| plain(x, shown));
    RowFigures {
        avg_ns: plain(r.avg_ns, Some(0)),
        stddev_ns: plain(r.stddev_ns, Some(6)),
        p50_ns: plain(r.p50_ns, Some(0)),
        p90_ns: plain(r.p90_ns, Some(0)),
        p99_ns: plain(r.p99_ns, Some(0)),
        avg_ts: plain(r.avg_ts, Some(if shown.is_some() { 2 } else { 6 })),
        stddev_ts: plain(r.stddev_ts, Some(6)),
        avg_ttft_ns: optional(r.avg_ttft_ns),
        avg_power_w: optional(r.avg_power_w),
        tokens_per_joule: optional(r.tokens_per_joule),
        joules_per_token: optional(r.joules_per_token),
        achieved_gb_s: optional(r.achieved_gb_s),
        achieved_tflops: optional(r.achieved_tflops),
        bw_utilization: optional(r.bw_utilization),
        avg_cache_hit_tokens: plain(r.avg_cache_hit_tokens, counts),
        avg_cache_miss_tokens: plain(r.avg_cache_miss_tokens, counts),
        cache_hit_rate: format!(
            "{:.2}",
            v(r.avg_cache_hit_tokens) / (v(r.avg_cache_hit_tokens) + v(r.avg_cache_miss_tokens))
        ),
        avg_draft_calls: plain(r.avg_draft_calls, counts),
        avg_target_calls: plain(r.avg_target_calls, counts),
        avg_accepted_tokens: plain(r.avg_accepted_tokens, counts),
        avg_rejected_tokens: plain(r.avg_rejected_tokens, counts),
        baseline_avg_ts: optional(r.baseline_avg_ts),
        speedup_vs_baseline: optional(r.speedup_vs_baseline),
    }
}

fn csv(report: &BenchmarkReport) -> String {
    let f: Vec<RowFigures> = report.rows.iter().map(|r| figures(r, None, None)).collect();
    report.to_csv(&f)
}

fn json(report: &BenchmarkReport) -> String {
    let f: Vec<RowFigures> = report.rows.iter().map(|r| figures(r, Some(6), None)).collect();
    report.to_json(&f)
}

fn markdown(report: &BenchmarkReport) -> String {
    let f: Vec<RowFigures> = report.rows.iter().map(|r| figures(r, None, Some(2))).collect();
    report.to_markdown(&f)
}

#[test]
fn benchmark_report_markdown_not_empty() {
    let report = BenchmarkReport { rows: vec![row("test", "test", "test")] };
    let md = markdown(&report);
    assert!(md.contains("test"));
    assert!(md.contains("|"));
    assert!(md.ends_with("| test | test | test | 1000.00 | - | - | - | - | - | - | 0.00 | - |\n"));
}

#[test]
fn benchmark_report_json_parsable() {
    let report = BenchmarkReport { rows: vec![row("test", "test", "test")] };
    let json = json(&report);
    assert!(json.contains("\"test\""));
    let parsed: serde_json::Value = serde_json::from_str(&json).unwrap();
    assert_eq!(parsed[0]["mode"], "generation");
    assert_eq!(parsed[0]["avg_ns"], 1000);
    assert!(parsed[0]["avg_ttft_ns"].is_null());
}

#[test]
fn benchmark_report_csv_not_empty() {
    let mut r = row("m", "b", "t");
    r.avg_ttft_ns = Some(d(500.0));
    r.baseline_avg_ts = Some(d(800.0));
    r.speedup_vs_baseline = Some(d(1.25));
    let csv = csv(&BenchmarkReport { rows: vec![r] });
    assert!(csv.contains("m,b,t"));
    assert!(csv.contains("1.25"));
}

#[test]
fn test_benchmark_report_csv() {
    let mut r = row("m", "b", "t");
    r.mode = BenchmarkMode::PromptProcessing;
    r.gen_len = 0;
    r.avg_ns = d(100.0);
    r.stddev_ns = d(1.0);
    r.avg_ts = d(10.0);
    r.stddev_ts = d(0.1);
    r.avg_ttft_ns = Some(d(50.0));
    r.avg_draft_calls = d(0.0);
    r.avg_target_calls = d(0.0);
    r.avg_accepted_tokens = d(0.0);
    r.p50_ns = d(100.0);
    r.p90_ns = d(100.0);
    r.p99_ns = d(100.0);
    r.baseline_avg_ts = Some(d(5.0));
    r.speedup_vs_baseline = Some(d(2.0));
    let csv = csv(&BenchmarkReport { rows: vec![r] });
    assert!(csv.contains("50,,,,,,,0,1,0,0,0,0,5,2"));
    assert!(csv.contains("\nm,b,t,prompt-processing,1,0,0,1,0,100,1.000000,100,100,100,"));
}

#[test]
fn llama_bench_row_display() {
    let row = LlamaBenchRow {
        model_filename: "f".into(),
        backend: "b".into(),
        test: "t".into(),
        n_prompt: 0,
        n_gen: 0,
        n_depth: 0,
        avg_ns: 0,
        stddev_ns: 0,
        avg_ts: d(10.0),
        stddev_ts: d(0.0),
    };
    let text = row.to_string(&format!("{:.2}", v(row.avg_ts)));
    assert!(text.contains("10.00 t/s"));
    assert_eq!(text, "t | f | b | 10.00 t/s");
}

#[test]
fn tables_are_ordered_by_tokens_per_joule() {
    let mut rows = vec![row("a", "x", "1"), row("b", "x", "2"), row("c", "x", "3")];
    let names = |rows: &Vec<BenchmarkRow>| -> Vec<String> {
        let report = BenchmarkReport { rows: rows.clone() };
        markdown(&report)
            .lines()
            .skip(2)
            .map(|l| l.split(" | ").nth(1).unwrap().to_string())
            .collect()
    };
    assert_eq!(names(&rows), vec!["a", "b", "c"]);
    rows[1].tokens_per_joule = Some(d(3.5));
    assert_eq!(names(&rows), vec!["b", "a", "c"]);
    rows[2].tokens_per_joule = Some(d(7.0));
    assert_eq!(names(&rows), vec!["c", "b", "a"]);
    rows[2].tokens_per_joule = Some(d(-1.0));
    assert_eq!(names(&rows), vec!["b", "a", "c"]);
}

#[test]
fn units_stand_behind_their_values() {
    let mut r = row("m", "b", "t");
    r.bw_utilization = Some(d(12.5));
    r.speedup_vs_baseline = Some(d(2.0));
    let md = markdown(&BenchmarkReport { rows: vec![r] });
    assert!(md.ends_with("| 12.50% | 0.00 | 2.00x |\n"));
}

#[test]
fn equal_values_keep_their_order() {
    assert_eq!(rank_descending(&[1, 5, 1, 7, 5]), vec![3, 1, 4, 0, 2]);
    assert!(rank_descending(&[]).is_empty());
}

fn config() -> BenchmarkConfig {
    BenchmarkConfig {
        mode: BenchmarkMode::PromptPlusGeneration,
        prompt_len: 8,
        gen_len: 4,
        cached_depth: 2,
        repetitions: 3,
        warmups: 1,
        draft_window: 1,
        bytes_per_token: 0,
        page_tokens: 16,
        total_pages: 32,
        quantization: Quantization::F32,
        model_name: "m".into(),
        backend_name: "cpu".into(),
        measure_power: false,
        model_params_billions: d(0.0),
        roofline: false,
    }
}

fn sample() -> BenchmarkSample {
    BenchmarkSample {
        elapsed_ns: 10,
        ttft_ns: None,
        tokens: 4,
        cache_hit_tokens: 0,
        cache_miss_tokens: 0,
        speculative: SpeculativeStats::default(),
        energy_uj: None,
        achieved_gb_s: None,
        achieved_tflops: None,
    }
}

fn all(x: f64) -> SampleFigures {
    let x = d(x);
    SampleFigures {
        avg_ns: x,
        stddev_ns: x,
        avg_ts: x,
        stddev_ts: x,
        avg_ttft_ns: x,
        avg_cache_hit_tokens: x,
        avg_cache_miss_tokens: x,
        avg_draft_calls: x,
        avg_target_calls: x,
        avg_accepted_tokens: x,
        avg_rejected_tokens: x,
        p50_ns: x,
        p90_ns: x,
        p99_ns: x,
        avg_power_w: x,
        tokens_per_joule: x,
        joules_per_token: x,
        achieved_gb_s: x,
        achieved_tflops: x,
        bw_utilization: x,
    }
}

#[test]
fn only_what_was_measured_is_summed_up() {
    let bare = summarize(&config(), &[sample()], all(1.5));
    assert_eq!(bare.test, "pp8+tg4 @ d2");
    assert_eq!(bare.avg_ns, d(1.5));
    assert_eq!(bare.avg_ttft_ns, None);
    assert_eq!(bare.avg_power_w, None);
    assert_eq!(bare.achieved_gb_s, None);
    assert_eq!(bare.bw_utilization, None);
    assert_eq!(bare.baseline_avg_ts, None);

    let mut full = sample();
    full.ttft_ns = Some(3);
    full.energy_uj = Some(7);
    full.achieved_gb_s = Some(d(2.0));
    let row = summarize(&config(), &[sample(), full], all(1.5));
    assert_eq!(row.avg_ttft_ns, Some(d(1.5)));
    assert_eq!(row.avg_power_w, Some(d(1.5)));
    assert_eq!(row.tokens_per_joule, Some(d(1.5)));
    assert_eq!(row.joules_per_token, Some(d(1.5)));
    assert_eq!(row.achieved_gb_s, Some(d(1.5)));
    assert_eq!(row.bw_utilization, Some(d(1.5)));
    assert_eq!(row.achieved_tflops, None);

    full.energy_uj = Some(0);
    full.tokens = 0;
    let idle = summarize(&config(), &[full], all(1.5));
    assert_eq!(idle.avg_power_w, Some(d(1.5)));
    assert_eq!(idle.tokens_per_joule, None);
    assert_eq!(idle.joules_per_token, None);
}

#[test]
fn results_are_compared_by_name() {
    let baseline = |test: &str, rate: f64| LlamaBenchRow {
        model_filename: "f".into(),
        backend: "b".into(),
        test: test.into(),
        n_prompt: 0,
        n_gen: 0,
        n_depth: 0,
        avg_ns: 0,
        stddev_ns: 0,
        avg_ts: d(rate),
        stddev_ts: d(0.0),
    };
    let mut rows = vec![row("m", "b", "pp5"), row("m", "b", "tg7"), row("m", "b", "none")];
    let others = vec![baseline("pp5", 10.0), baseline("pp5", 50.0), baseline("tg7", 0.0)];
    compare_with_llama_csv(&mut rows, &others, &[d(2.0), d(f64::INFINITY), d(9.0)]);
    assert_eq!(rows[0].baseline_avg_ts, Some(d(50.0)));
    assert_eq!(rows[0].speedup_vs_baseline, Some(d(2.0)));
    assert_eq!(rows[1].baseline_avg_ts, Some(d(0.0)));
    assert_eq!(rows[1].speedup_vs_baseline, None);
    assert_eq!(rows[2].baseline_avg_ts, None);
}
