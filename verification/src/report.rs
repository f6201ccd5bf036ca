//! Benchmark results as a table, as comma separated values and as JSON.
//!
//! Averages, rates and their decimal notation come from the caller. What is
//! decided here is which of them a result has, in which order results stand, and
//! how a report is laid out.

use vstd::prelude::*;
use vstd::string::*;
use crate::benchmark;
use crate::benchmark::{
    baseline_for, format_mode, sample_totals, BenchmarkConfig, BenchmarkReport, BenchmarkRow,
    BenchmarkSample, LlamaBenchRow, SampleTotals,
};
use crate::ranking;
use crate::ranking::rank_descending;
use crate::scalar::F64;
use crate::text;
use crate::text::{join, joined, number_text};

verus! {

// ---------------------------------------------------------------------------
// Summing up
// ---------------------------------------------------------------------------

/// What is computed from samples. A value that does not apply to them is not
/// looked at.
#[derive(Debug, Clone, Copy)]
pub struct SampleFigures {
    pub avg_ns: F64,
    pub stddev_ns: F64,
    pub avg_ts: F64,
    pub stddev_ts: F64,
    pub avg_ttft_ns: F64,
    pub avg_cache_hit_tokens: F64,
    pub avg_cache_miss_tokens: F64,
    pub avg_draft_calls: F64,
    pub avg_target_calls: F64,
    pub avg_accepted_tokens: F64,
    pub avg_rejected_tokens: F64,
    pub p50_ns: F64,
    pub p90_ns: F64,
    pub p99_ns: F64,
    pub avg_power_w: F64,
    pub tokens_per_joule: F64,
    pub joules_per_token: F64,
    pub achieved_gb_s: F64,
    pub achieved_tflops: F64,
    pub bw_utilization: F64,
}

/// A value that there is only under a condition.
pub open spec fn given(present: bool, value: F64) -> Option<F64> {
    if present {
        Some(value)
    } else {
        None
    }
}

fn given_if(present: bool, value: F64) -> (v: Option<F64>)
    ensures
        v == given(present, value),
{
    if present {
        Some(value)
    } else {
        None
    }
}

/// Whether a sample tells its bandwidth.
pub open spec fn some_bandwidth(samples: Seq<BenchmarkSample>) -> bool {
    exists|i: int| 0 <= i < samples.len() && (#[trigger] samples[i]).achieved_gb_s is Some
}

/// Whether a sample tells its rate of computation.
pub open spec fn some_rate(samples: Seq<BenchmarkSample>) -> bool {
    exists|i: int| 0 <= i < samples.len() && (#[trigger] samples[i]).achieved_tflops is Some
}

/// Whether `row` sums samples up.
pub open spec fn sums_up(
    config: BenchmarkConfig,
    samples: Seq<BenchmarkSample>,
    f: SampleFigures,
    row: BenchmarkRow,
) -> bool {
    let n = samples.len();
    let energy = benchmark::all_energy(samples, n);
    &&& row.model_name@ == config.model_name@
    &&& row.backend_name@ == config.backend_name@
    &&& row.test@ == benchmark::mode_text(
        config.mode,
        config.prompt_len,
        config.gen_len,
        config.cached_depth,
    )
    &&& row.mode == config.mode
    &&& row.prompt_len == config.prompt_len
    &&& row.gen_len == config.gen_len
    &&& row.cached_depth == config.cached_depth
    &&& row.repetitions == config.repetitions
    &&& row.warmups == config.warmups
    &&& row.avg_ns == f.avg_ns
    &&& row.stddev_ns == f.stddev_ns
    &&& row.avg_ts == f.avg_ts
    &&& row.stddev_ts == f.stddev_ts
    &&& row.avg_ttft_ns == given(benchmark::first_token_times(samples, n).len() > 0, f.avg_ttft_ns)
    &&& row.avg_cache_hit_tokens == f.avg_cache_hit_tokens
    &&& row.avg_cache_miss_tokens == f.avg_cache_miss_tokens
    &&& row.avg_draft_calls == f.avg_draft_calls
    &&& row.avg_target_calls == f.avg_target_calls
    &&& row.avg_accepted_tokens == f.avg_accepted_tokens
    &&& row.avg_rejected_tokens == f.avg_rejected_tokens
    &&& row.p50_ns == f.p50_ns
    &&& row.p90_ns == f.p90_ns
    &&& row.p99_ns == f.p99_ns
    &&& row.avg_power_w == given(energy is Some, f.avg_power_w)
    &&& row.tokens_per_joule == given(energy is Some && energy->0 > 0, f.tokens_per_joule)
    &&& row.joules_per_token == given(
        energy is Some && benchmark::all_tokens(samples, n) > 0,
        f.joules_per_token,
    )
    &&& row.baseline_avg_ts is None
    &&& row.speedup_vs_baseline is None
    &&& row.achieved_gb_s == given(some_bandwidth(samples), f.achieved_gb_s)
    &&& row.achieved_tflops == given(some_rate(samples), f.achieved_tflops)
    &&& row.bw_utilization == given(some_bandwidth(samples), f.bw_utilization)
}

fn has_bandwidth(samples: &[BenchmarkSample]) -> (b: bool)
    ensures
        b == some_bandwidth(samples@),
{
    let mut i: usize = 0;
    while i < samples.len()
        invariant
            i <= samples@.len(),
            forall|k: int| 0 <= k < i ==> (#[trigger] samples@[k]).achieved_gb_s is None,
        decreases samples@.len() - i,
    {
        if samples[i].achieved_gb_s.is_some() {
            return true;
        }
        i = i + 1;
    }
    false
}

fn has_rate(samples: &[BenchmarkSample]) -> (b: bool)
    ensures
        b == some_rate(samples@),
{
    let mut i: usize = 0;
    while i < samples.len()
        invariant
            i <= samples@.len(),
            forall|k: int| 0 <= k < i ==> (#[trigger] samples@[k]).achieved_tflops is None,
        decreases samples@.len() - i,
    {
        if samples[i].achieved_tflops.is_some() {
            return true;
        }
        i = i + 1;
    }
    false
}

/// Sums samples up. Rates of energy need a measurement, and the tokens per joule
/// some energy; the time to the first token, the bandwidth and the rate of
/// computation need a sample that has them.
pub fn summarize(config: &BenchmarkConfig, samples: &[BenchmarkSample], f: SampleFigures) -> (row:
    BenchmarkRow)
    requires
        benchmark::all_tokens(samples@, samples@.len()) <= usize::MAX,
        benchmark::all_energy(samples@, samples@.len()) is Some ==> benchmark::all_energy(
            samples@,
            samples@.len(),
        )->0 <= u128::MAX,
    ensures
        sums_up(*config, samples@, f, row),
{
    let totals: SampleTotals = sample_totals(samples);
    let measured: bool = totals.energy_uj.is_some();
    let spent: bool = match totals.energy_uj {
        Some(e) => e > 0,
        None => false,
    };
    let bandwidth: bool = has_bandwidth(samples);
    BenchmarkRow {
        model_name: String::from_str(config.model_name.as_str()),
        backend_name: String::from_str(config.backend_name.as_str()),
        test: format_mode(config.mode, config.prompt_len, config.gen_len, config.cached_depth),
        mode: config.mode,
        prompt_len: config.prompt_len,
        gen_len: config.gen_len,
        cached_depth: config.cached_depth,
        repetitions: config.repetitions,
        warmups: config.warmups,
        avg_ns: f.avg_ns,
        stddev_ns: f.stddev_ns,
        avg_ts: f.avg_ts,
        stddev_ts: f.stddev_ts,
        avg_ttft_ns: given_if(totals.ttft_ns.len() > 0, f.avg_ttft_ns),
        avg_cache_hit_tokens: f.avg_cache_hit_tokens,
        avg_cache_miss_tokens: f.avg_cache_miss_tokens,
        avg_draft_calls: f.avg_draft_calls,
        avg_target_calls: f.avg_target_calls,
        avg_accepted_tokens: f.avg_accepted_tokens,
        avg_rejected_tokens: f.avg_rejected_tokens,
        p50_ns: f.p50_ns,
        p90_ns: f.p90_ns,
        p99_ns: f.p99_ns,
        avg_power_w: given_if(measured, f.avg_power_w),
        tokens_per_joule: given_if(spent, f.tokens_per_joule),
        joules_per_token: given_if(measured && totals.tokens > 0, f.joules_per_token),
        baseline_avg_ts: None,
        speedup_vs_baseline: None,
        achieved_gb_s: given_if(bandwidth, f.achieved_gb_s),
        achieved_tflops: given_if(has_rate(samples), f.achieved_tflops),
        bw_utilization: given_if(bandwidth, f.bw_utilization),
    }
}

// ---------------------------------------------------------------------------
// Comparing
// ---------------------------------------------------------------------------

/// Whether `after` is `before`, compared with a baseline of the rate `rate`. The
/// quotient of the rates counts only if the baseline has a rate above zero.
pub open spec fn compared(
    before: BenchmarkRow,
    rate: F64,
    quotient: F64,
    after: BenchmarkRow,
) -> bool {
    after == (BenchmarkRow {
        baseline_avg_ts: Some(rate),
        speedup_vs_baseline: given(!rate.nan() && rate.rank() > 0, quotient),
        ..before
    })
}

/// Compares a result with a baseline, if there is one of its name.
pub open spec fn row_compared(
    baselines: Seq<LlamaBenchRow>,
    before: BenchmarkRow,
    quotient: F64,
    after: BenchmarkRow,
) -> bool {
    ||| exists|k: int| #[trigger]
        benchmark::last_of_test(baselines, before.test@, k) && compared(
            before,
            baselines[k].avg_ts,
            quotient,
            after,
        )
    ||| (forall|k: int| 0 <= k < baselines.len() ==> (#[trigger] baselines[k]).test@ != before.test@)
        && after == before
}

/// Compares results with the rows of another report. `quotients` holds, for each
/// result, its rate over that of the row of its name.
pub fn compare_with_llama_csv(
    rows: &mut Vec<BenchmarkRow>,
    baselines: &[LlamaBenchRow],
    quotients: &[F64],
)
    requires
        quotients@.len() == old(rows)@.len(),
    ensures
        final(rows)@.len() == old(rows)@.len(),
        forall|i: int|
            0 <= i < old(rows)@.len() ==> row_compared(
                baselines@,
                #[trigger] old(rows)@[i],
                quotients@[i],
                final(rows)@[i],
            ),
{
    let ghost start = rows@;
    let len: usize = rows.len();
    let mut i: usize = 0;
    while i < len
        invariant
            i <= len == rows@.len() == start.len() == quotients@.len(),
            forall|k: int| i <= k < len ==> rows@[k] == #[trigger] start[k],
            forall|k: int|
                0 <= k < i ==> row_compared(
                    baselines@,
                    #[trigger] start[k],
                    quotients@[k],
                    rows@[k],
                ),
        decreases len - i,
    {
        let found: Option<usize> = baseline_for(baselines, rows[i].test.as_str());
        match found {
            Some(k) => {
                let rate: F64 = baselines[k].avg_ts;
                rows[i].baseline_avg_ts = Some(rate);
                rows[i].speedup_vs_baseline = given_if(rate.is_positive(), quotients[i]);
                assert(compared(start[i as int], rate, quotients@[i as int], rows@[i as int]));
            },
            None => {},
        }
        i = i + 1;
    }
}

// ---------------------------------------------------------------------------
// Writing
// ---------------------------------------------------------------------------

/// The values of a result in decimal notation. One that the result does not have
/// is not looked at.
#[derive(Debug)]
pub struct RowFigures {
    pub avg_ns: String,
    pub stddev_ns: String,
    pub p50_ns: String,
    pub p90_ns: String,
    pub p99_ns: String,
    pub avg_ts: String,
    pub stddev_ts: String,
    pub avg_ttft_ns: String,
    pub avg_power_w: String,
    pub tokens_per_joule: String,
    pub joules_per_token: String,
    pub achieved_gb_s: String,
    pub achieved_tflops: String,
    pub bw_utilization: String,
    pub avg_cache_hit_tokens: String,
    pub avg_cache_miss_tokens: String,
    pub cache_hit_rate: String,
    pub avg_draft_calls: String,
    pub avg_target_calls: String,
    pub avg_accepted_tokens: String,
    pub avg_rejected_tokens: String,
    pub baseline_avg_ts: String,
    pub speedup_vs_baseline: String,
}

/// The notation of a value with a unit, or what stands for a missing one.
pub open spec fn noted(
    value: Option<F64>,
    notation: Seq<char>,
    unit: Seq<char>,
    missing: Seq<char>,
) -> Seq<char> {
    if value is Some {
        notation + unit
    } else {
        missing
    }
}

fn note(value: Option<F64>, notation: &String, unit: &str, missing: &str) -> (s: String)
    ensures
        s@ == noted(value, notation@, unit@, missing@),
{
    if value.is_some() {
        joined(notation.as_str(), unit)
    } else {
        String::from_str(missing)
    }
}

fn copy(s: &String) -> (t: String)
    ensures
        t@ == s@,
{
    String::from_str(s.as_str())
}

/// The columns of a comma separated report.
pub const CSV_HEADER: &'static str = "model_name,backend_name,test,mode,prompt_len,gen_len,cached_depth,repetitions,warmups,avg_ns,stddev_ns,p50_ns,p90_ns,p99_ns,avg_ts,stddev_ts,avg_ttft_ns,avg_power_w,tokens_per_joule,joules_per_token,achieved_gb_s,achieved_tflops,bw_utilization,avg_cache_hit_tokens,avg_cache_miss_tokens,avg_draft_calls,avg_target_calls,avg_accepted_tokens,avg_rejected_tokens,baseline_avg_ts,speedup_vs_baseline\n";

/// The cells of a result in a comma separated report. A missing value leaves its
/// cell empty.
pub open spec fn csv_cells(row: BenchmarkRow, f: RowFigures) -> Seq<Seq<char>> {
    seq![
        row.model_name@,
        row.backend_name@,
        row.test@,
        row.mode.text(),
        text::decimal(row.prompt_len as nat),
        text::decimal(row.gen_len as nat),
        text::decimal(row.cached_depth as nat),
        text::decimal(row.repetitions as nat),
        text::decimal(row.warmups as nat),
        f.avg_ns@,
        f.stddev_ns@,
        f.p50_ns@,
        f.p90_ns@,
        f.p99_ns@,
        f.avg_ts@,
        f.stddev_ts@,
        noted(row.avg_ttft_ns, f.avg_ttft_ns@, ""@, ""@),
        noted(row.avg_power_w, f.avg_power_w@, ""@, ""@),
        noted(row.tokens_per_joule, f.tokens_per_joule@, ""@, ""@),
        noted(row.joules_per_token, f.joules_per_token@, ""@, ""@),
        noted(row.achieved_gb_s, f.achieved_gb_s@, ""@, ""@),
        noted(row.achieved_tflops, f.achieved_tflops@, ""@, ""@),
        noted(row.bw_utilization, f.bw_utilization@, ""@, ""@),
        f.avg_cache_hit_tokens@,
        f.avg_cache_miss_tokens@,
        f.avg_draft_calls@,
        f.avg_target_calls@,
        f.avg_accepted_tokens@,
        f.avg_rejected_tokens@,
        noted(row.baseline_avg_ts, f.baseline_avg_ts@, ""@, ""@),
        noted(row.speedup_vs_baseline, f.speedup_vs_baseline@, ""@, ""@),
    ]
}

/// The line of a result in a comma separated report.
pub open spec fn csv_line(row: BenchmarkRow, f: RowFigures) -> Seq<char> {
    text::separated(csv_cells(row, f), ","@, csv_cells(row, f).len()) + "\n"@
}

/// The first `n` lines of a comma separated report, below its header.
pub open spec fn csv_text(rows: Seq<BenchmarkRow>, f: Seq<RowFigures>, n: nat) -> Seq<char>
    decreases n,
{
    if n == 0 {
        CSV_HEADER@
    } else {
        csv_text(rows, f, (n - 1) as nat) + csv_line(rows[n - 1], f[n - 1])
    }
}

fn write_csv_line(out: &mut String, row: &BenchmarkRow, f: &RowFigures)
    ensures
        final(out)@ == old(out)@ + csv_line(*row, *f),
{
    let ghost before = out@;
    let mut cells: Vec<String> = Vec::new();
    cells.push(copy(&row.model_name));
    cells.push(copy(&row.backend_name));
    cells.push(copy(&row.test));
    cells.push(row.mode.to_string());
    cells.push(number_text(row.prompt_len));
    cells.push(number_text(row.gen_len));
    cells.push(number_text(row.cached_depth));
    cells.push(number_text(row.repetitions));
    cells.push(number_text(row.warmups));
    cells.push(copy(&f.avg_ns));
    cells.push(copy(&f.stddev_ns));
    cells.push(copy(&f.p50_ns));
    cells.push(copy(&f.p90_ns));
    cells.push(copy(&f.p99_ns));
    cells.push(copy(&f.avg_ts));
    cells.push(copy(&f.stddev_ts));
    cells.push(note(row.avg_ttft_ns, &f.avg_ttft_ns, "", ""));
    cells.push(note(row.avg_power_w, &f.avg_power_w, "", ""));
    cells.push(note(row.tokens_per_joule, &f.tokens_per_joule, "", ""));
    cells.push(note(row.joules_per_token, &f.joules_per_token, "", ""));
    cells.push(note(row.achieved_gb_s, &f.achieved_gb_s, "", ""));
    cells.push(note(row.achieved_tflops, &f.achieved_tflops, "", ""));
    cells.push(note(row.bw_utilization, &f.bw_utilization, "", ""));
    cells.push(copy(&f.avg_cache_hit_tokens));
    cells.push(copy(&f.avg_cache_miss_tokens));
    cells.push(copy(&f.avg_draft_calls));
    cells.push(copy(&f.avg_target_calls));
    cells.push(copy(&f.avg_accepted_tokens));
    cells.push(copy(&f.avg_rejected_tokens));
    cells.push(note(row.baseline_avg_ts, &f.baseline_avg_ts, "", ""));
    cells.push(note(row.speedup_vs_baseline, &f.speedup_vs_baseline, "", ""));
    assert(text::texts(cells@) =~= csv_cells(*row, *f));
    let line: String = join(&cells, ",");
    out.append(line.as_str());
    out.append("\n");
    assert(out@ =~= before + csv_line(*row, *f));
}

/// An entry of a JSON object.
pub open spec fn json_entry(name: Seq<char>, value: Seq<char>) -> Seq<char> {
    "\""@ + name + "\":"@ + value
}

/// A JSON string. Nothing in it is escaped.
pub open spec fn json_string(s: Seq<char>) -> Seq<char> {
    "\""@ + s + "\""@
}

/// The entries of a result in a JSON report. A missing value is null.
pub open spec fn json_entries(row: BenchmarkRow, f: RowFigures) -> Seq<Seq<char>> {
    let null = "null"@;
    seq![
        json_entry("model_name"@, json_string(row.model_name@)),
        json_entry("backend_name"@, json_string(row.backend_name@)),
        json_entry("test"@, json_string(row.test@)),
        json_entry("mode"@, json_string(row.mode.text())),
        json_entry("prompt_len"@, text::decimal(row.prompt_len as nat)),
        json_entry("gen_len"@, text::decimal(row.gen_len as nat)),
        json_entry("cached_depth"@, text::decimal(row.cached_depth as nat)),
        json_entry("repetitions"@, text::decimal(row.repetitions as nat)),
        json_entry("warmups"@, text::decimal(row.warmups as nat)),
        json_entry("avg_ns"@, f.avg_ns@),
        json_entry("stddev_ns"@, f.stddev_ns@),
        json_entry("p50_ns"@, f.p50_ns@),
        json_entry("p90_ns"@, f.p90_ns@),
        json_entry("p99_ns"@, f.p99_ns@),
        json_entry("avg_ts"@, f.avg_ts@),
        json_entry("stddev_ts"@, f.stddev_ts@),
        json_entry("avg_ttft_ns"@, noted(row.avg_ttft_ns, f.avg_ttft_ns@, ""@, null)),
        json_entry("avg_power_w"@, noted(row.avg_power_w, f.avg_power_w@, ""@, null)),
        json_entry(
            "tokens_per_joule"@,
            noted(row.tokens_per_joule, f.tokens_per_joule@, ""@, null),
        ),
        json_entry(
            "joules_per_token"@,
            noted(row.joules_per_token, f.joules_per_token@, ""@, null),
        ),
        json_entry("avg_cache_hit_tokens"@, f.avg_cache_hit_tokens@),
        json_entry("avg_cache_miss_tokens"@, f.avg_cache_miss_tokens@),
        json_entry("avg_draft_calls"@, f.avg_draft_calls@),
        json_entry("avg_target_calls"@, f.avg_target_calls@),
        json_entry("avg_accepted_tokens"@, f.avg_accepted_tokens@),
        json_entry("avg_rejected_tokens"@, f.avg_rejected_tokens@),
        json_entry("baseline_avg_ts"@, noted(row.baseline_avg_ts, f.baseline_avg_ts@, ""@, null)),
        json_entry(
            "speedup_vs_baseline"@,
            noted(row.speedup_vs_baseline, f.speedup_vs_baseline@, ""@, null),
        ),
        json_entry("achieved_gb_s"@, noted(row.achieved_gb_s, f.achieved_gb_s@, ""@, null)),
        json_entry("achieved_tflops"@, noted(row.achieved_tflops, f.achieved_tflops@, ""@, null)),
        json_entry("bw_utilization"@, noted(row.bw_utilization, f.bw_utilization@, ""@, null)),
    ]
}

/// The object of a result in a JSON report.
pub open spec fn json_object(row: BenchmarkRow, f: RowFigures) -> Seq<char> {
    "{"@ + text::separated(json_entries(row, f), ","@, json_entries(row, f).len()) + "}"@
}

/// A JSON report: the objects of all results, in brackets.
pub open spec fn json_text(rows: Seq<BenchmarkRow>, f: Seq<RowFigures>) -> Seq<char> {
    "["@ + text::separated(
        Seq::new(rows.len(), |i: int| json_object(rows[i], f[i])),
        ","@,
        rows.len(),
    ) + "]"@
}

fn entry(name: &str, value: String) -> (s: String)
    ensures
        s@ == json_entry(name@, value@),
{
    let mut s: String = joined("\"", name);
    s.append("\":");
    s.append(value.as_str());
    s
}

fn quoted(value: String) -> (s: String)
    ensures
        s@ == json_string(value@),
{
    let mut s: String = joined("\"", value.as_str());
    s.append("\"");
    s
}

fn write_json_object(row: &BenchmarkRow, f: &RowFigures) -> (s: String)
    ensures
        s@ == json_object(*row, *f),
{
    let mut e: Vec<String> = Vec::new();
    e.push(entry("model_name", quoted(copy(&row.model_name))));
    e.push(entry("backend_name", quoted(copy(&row.backend_name))));
    e.push(entry("test", quoted(copy(&row.test))));
    e.push(entry("mode", quoted(row.mode.to_string())));
    e.push(entry("prompt_len", number_text(row.prompt_len)));
    e.push(entry("gen_len", number_text(row.gen_len)));
    e.push(entry("cached_depth", number_text(row.cached_depth)));
    e.push(entry("repetitions", number_text(row.repetitions)));
    e.push(entry("warmups", number_text(row.warmups)));
    e.push(entry("avg_ns", copy(&f.avg_ns)));
    e.push(entry("stddev_ns", copy(&f.stddev_ns)));
    e.push(entry("p50_ns", copy(&f.p50_ns)));
    e.push(entry("p90_ns", copy(&f.p90_ns)));
    e.push(entry("p99_ns", copy(&f.p99_ns)));
    e.push(entry("avg_ts", copy(&f.avg_ts)));
    e.push(entry("stddev_ts", copy(&f.stddev_ts)));
    e.push(entry("avg_ttft_ns", note(row.avg_ttft_ns, &f.avg_ttft_ns, "", "null")));
    e.push(entry("avg_power_w", note(row.avg_power_w, &f.avg_power_w, "", "null")));
    e.push(entry("tokens_per_joule", note(row.tokens_per_joule, &f.tokens_per_joule, "", "null")));
    e.push(entry("joules_per_token", note(row.joules_per_token, &f.joules_per_token, "", "null")));
    e.push(entry("avg_cache_hit_tokens", copy(&f.avg_cache_hit_tokens)));
    e.push(entry("avg_cache_miss_tokens", copy(&f.avg_cache_miss_tokens)));
    e.push(entry("avg_draft_calls", copy(&f.avg_draft_calls)));
    e.push(entry("avg_target_calls", copy(&f.avg_target_calls)));
    e.push(entry("avg_accepted_tokens", copy(&f.avg_accepted_tokens)));
    e.push(entry("avg_rejected_tokens", copy(&f.avg_rejected_tokens)));
    e.push(entry("baseline_avg_ts", note(row.baseline_avg_ts, &f.baseline_avg_ts, "", "null")));
    e.push(
        entry(
            "speedup_vs_baseline",
            note(row.speedup_vs_baseline, &f.speedup_vs_baseline, "", "null"),
        ),
    );
    e.push(entry("achieved_gb_s", note(row.achieved_gb_s, &f.achieved_gb_s, "", "null")));
    e.push(entry("achieved_tflops", note(row.achieved_tflops, &f.achieved_tflops, "", "null")));
    e.push(entry("bw_utilization", note(row.bw_utilization, &f.bw_utilization, "", "null")));
    assert(text::texts(e@) =~= json_entries(*row, *f));
    let inner: String = join(&e, ",");
    let mut s: String = joined("{", inner.as_str());
    s.append("}");
    s
}

/// The head of a table of results.
pub const MARKDOWN_HEADER: &'static str = "| test | model | backend | t/s | ttft ns | power W | t/J | GB/s | TFLOPS | util % | cache hit | speedup |\n";

/// The line below the head of a table of results.
pub const MARKDOWN_RULE: &'static str = "| --- | --- | --- | ---: | ---: | ---: | ---: | ---: | ---: | ---: | ---: | ---: |\n";

/// The cells of a result in a table. A dash stands for a missing value.
pub open spec fn markdown_cells(row: BenchmarkRow, f: RowFigures) -> Seq<Seq<char>> {
    seq![
        row.test@,
        row.model_name@,
        row.backend_name@,
        f.avg_ts@,
        noted(row.avg_ttft_ns, f.avg_ttft_ns@, ""@, "-"@),
        noted(row.avg_power_w, f.avg_power_w@, ""@, "-"@),
        noted(row.tokens_per_joule, f.tokens_per_joule@, ""@, "-"@),
        noted(row.achieved_gb_s, f.achieved_gb_s@, ""@, "-"@),
        noted(row.achieved_tflops, f.achieved_tflops@, ""@, "-"@),
        noted(row.bw_utilization, f.bw_utilization@, "%"@, "-"@),
        f.cache_hit_rate@,
        noted(row.speedup_vs_baseline, f.speedup_vs_baseline@, "x"@, "-"@),
    ]
}

/// The line of a result in a table.
pub open spec fn markdown_line(row: BenchmarkRow, f: RowFigures) -> Seq<char> {
    "| "@ + text::separated(markdown_cells(row, f), " | "@, markdown_cells(row, f).len())
        + " |\n"@
}

/// A table of the first `n` results of an order.
pub open spec fn markdown_text(
    rows: Seq<BenchmarkRow>,
    f: Seq<RowFigures>,
    order: Seq<usize>,
    n: nat,
) -> Seq<char>
    decreases n,
{
    if n == 0 {
        MARKDOWN_HEADER@ + MARKDOWN_RULE@
    } else {
        markdown_text(rows, f, order, (n - 1) as nat) + markdown_line(
            rows[order[n - 1] as int],
            f[order[n - 1] as int],
        )
    }
}

fn write_markdown_line(out: &mut String, row: &BenchmarkRow, f: &RowFigures)
    ensures
        final(out)@ == old(out)@ + markdown_line(*row, *f),
{
    let ghost before = out@;
    let mut cells: Vec<String> = Vec::new();
    cells.push(copy(&row.test));
    cells.push(copy(&row.model_name));
    cells.push(copy(&row.backend_name));
    cells.push(copy(&f.avg_ts));
    cells.push(note(row.avg_ttft_ns, &f.avg_ttft_ns, "", "-"));
    cells.push(note(row.avg_power_w, &f.avg_power_w, "", "-"));
    cells.push(note(row.tokens_per_joule, &f.tokens_per_joule, "", "-"));
    cells.push(note(row.achieved_gb_s, &f.achieved_gb_s, "", "-"));
    cells.push(note(row.achieved_tflops, &f.achieved_tflops, "", "-"));
    cells.push(note(row.bw_utilization, &f.bw_utilization, "%", "-"));
    cells.push(copy(&f.cache_hit_rate));
    cells.push(note(row.speedup_vs_baseline, &f.speedup_vs_baseline, "x", "-"));
    assert(text::texts(cells@) =~= markdown_cells(*row, *f));
    let line: String = join(&cells, " | ");
    out.append("| ");
    out.append(line.as_str());
    out.append(" |\n");
    assert(out@ =~= before + markdown_line(*row, *f));
}

/// Whether a result tells how many tokens a joule gave.
pub open spec fn some_yield(rows: Seq<BenchmarkRow>) -> bool {
    exists|i: int| 0 <= i < rows.len() && (#[trigger] rows[i]).tokens_per_joule is Some
}

/// By what results are ranked: the tokens per joule, or zero.
pub open spec fn yield_key(row: BenchmarkRow) -> i64 {
    match row.tokens_per_joule {
        Some(v) => v.rank() as i64,
        None => 0,
    }
}

pub open spec fn yield_keys(rows: Seq<BenchmarkRow>) -> Seq<i64> {
    rows.map_values(|r: BenchmarkRow| yield_key(r))
}

/// The order of the results in a table: as they stand, or the most tokens per
/// joule first if there is a result that tells them.
pub open spec fn table_order(rows: Seq<BenchmarkRow>, order: Seq<usize>) -> bool {
    if some_yield(rows) {
        ranking::descending(yield_keys(rows), order)
    } else {
        order == Seq::new(rows.len(), |i: int| i as usize)
    }
}

/// Whether the results have an order: with more than one, no value to rank them
/// by is not a number.
pub open spec fn orderable(rows: Seq<BenchmarkRow>) -> bool {
    rows.len() > 1 ==> forall|i: int|
        0 <= i < rows.len() && (#[trigger] rows[i]).tokens_per_joule is Some
            ==> !rows[i].tokens_per_joule->0.nan()
}

fn order_rows(rows: &Vec<BenchmarkRow>) -> (order: Vec<usize>)
    ensures
        table_order(rows@, order@),
        order@.len() == rows@.len(),
        forall|i: int| 0 <= i < order@.len() ==> #[trigger] order@[i] < rows@.len(),
{
    let mut keys: Vec<i64> = Vec::with_capacity(rows.len());
    let mut plain: Vec<usize> = Vec::with_capacity(rows.len());
    let mut measured: bool = false;
    let mut i: usize = 0;
    while i < rows.len()
        invariant
            i <= rows@.len(),
            keys@ == yield_keys(rows@.take(i as int)),
            plain@ == Seq::new(i as nat, |k: int| k as usize),
            measured == exists|k: int|
                0 <= k < i && (#[trigger] rows@[k]).tokens_per_joule is Some,
        decreases rows@.len() - i,
    {
        match rows[i].tokens_per_joule {
            Some(v) => {
                measured = true;
                keys.push(v.key());
            },
            None => {
                keys.push(0);
            },
        }
        plain.push(i);
        i = i + 1;
        assert(keys@ =~= yield_keys(rows@.take(i as int)));
        assert(plain@ =~= Seq::new(i as nat, |k: int| k as usize));
        assert(measured == exists|k: int|
            0 <= k < i && (#[trigger] rows@[k]).tokens_per_joule is Some);
    }
    assert(rows@.take(i as int) =~= rows@);
    if measured {
        rank_descending(keys.as_slice())
    } else {
        plain
    }
}

impl BenchmarkReport {
    /// Writes the results as comma separated values.
    pub fn to_csv(&self, figures: &[RowFigures]) -> (s: String)
        requires
            figures@.len() == self.rows@.len(),
        ensures
            s@ == csv_text(self.rows@, figures@, self.rows@.len()),
    {
        let mut out: String = String::from_str(CSV_HEADER);
        let mut i: usize = 0;
        while i < self.rows.len()
            invariant
                i <= self.rows@.len() == figures@.len(),
                out@ == csv_text(self.rows@, figures@, i as nat),
            decreases self.rows@.len() - i,
        {
            write_csv_line(&mut out, &self.rows[i], &figures[i]);
            i = i + 1;
        }
        out
    }

    /// Writes the results as JSON.
    pub fn to_json(&self, figures: &[RowFigures]) -> (s: String)
        requires
            figures@.len() == self.rows@.len(),
        ensures
            s@ == json_text(self.rows@, figures@),
    {
        let mut objects: Vec<String> = Vec::with_capacity(self.rows.len());
        let ghost all = Seq::new(
            self.rows@.len(),
            |i: int| json_object(self.rows@[i], figures@[i]),
        );
        let mut i: usize = 0;
        while i < self.rows.len()
            invariant
                i <= self.rows@.len() == figures@.len(),
                all == Seq::new(
                    self.rows@.len(),
                    |i: int| json_object(self.rows@[i], figures@[i]),
                ),
                text::texts(objects@) == all.take(i as int),
            decreases self.rows@.len() - i,
        {
            let object: String = write_json_object(&self.rows[i], &figures[i]);
            let ghost before = objects@;
            objects.push(object);
            i = i + 1;
            assert(text::texts(objects@) =~= text::texts(before).push(object@));
            assert(all.take(i as int) =~= all.take(i - 1).push(all[i - 1]));
        }
        assert(all.take(i as int) =~= all);
        let inner: String = join(&objects, ",");
        let mut s: String = joined("[", inner.as_str());
        s.append("]");
        s
    }

    /// Writes the results as a table.
    pub fn to_markdown(&self, figures: &[RowFigures]) -> (s: String)
        requires
            figures@.len() == self.rows@.len(),
            orderable(self.rows@),
        ensures
            exists|order: Seq<usize>| #[trigger]
                table_order(self.rows@, order) && s@ == markdown_text(
                    self.rows@,
                    figures@,
                    order,
                    self.rows@.len(),
                ),
    {
        let order: Vec<usize> = order_rows(&self.rows);
        let mut out: String = String::from_str(MARKDOWN_HEADER);
        out.append(MARKDOWN_RULE);
        let mut i: usize = 0;
        while i < order.len()
            invariant
                i <= order@.len() == self.rows@.len() == figures@.len(),
                forall|k: int| 0 <= k < order@.len() ==> #[trigger] order@[k] < self.rows@.len(),
                out@ == markdown_text(self.rows@, figures@, order@, i as nat),
            decreases order@.len() - i,
        {
            let k: usize = order[i];
            write_markdown_line(&mut out, &self.rows[k], &figures[k]);
            i = i + 1;
        }
        assert(table_order(self.rows@, order@));
        out
    }
}

impl LlamaBenchRow {
    /// Describes a row; `rate` is its rate in decimal notation.
    pub fn to_string(&self, rate: &str) -> (s: String)
        ensures
            s@ == self.test@ + " | "@ + self.model_filename@ + " | "@ + self.backend@ + " | "@
                + rate@ + " t/s"@,
    {
        let mut s: String = joined(self.test.as_str(), " | ");
        s.append(self.model_filename.as_str());
        s.append(" | ");
        s.append(self.backend.as_str());
        s.append(" | ");
        s.append(rate);
        s.append(" t/s");
        s
    }
}

/// There is only one order in which a table can list its results.
pub proof fn tables_have_one_order(rows: Seq<BenchmarkRow>, a: Seq<usize>, b: Seq<usize>)
    requires
        table_order(rows, a),
        table_order(rows, b),
    ensures
        a == b,
{
    if some_yield(rows) {
        ranking::the_order_is_unique(yield_keys(rows), a, b);
    }
}

/// Both reports tell the same of a result: the value of each entry in JSON is that of
/// its cell in the comma separated line, wherever there is one.
pub proof fn reports_tell_the_same(row: BenchmarkRow, f: RowFigures)
    ensures
        ({
            let c = csv_cells(row, f);
            let j = json_entries(row, f);
            &&& c.len() == 31 && j.len() == 31
            &&& j[0] == json_entry("model_name"@, json_string(c[0]))
            &&& j[1] == json_entry("backend_name"@, json_string(c[1]))
            &&& j[2] == json_entry("test"@, json_string(c[2]))
            &&& j[3] == json_entry("mode"@, json_string(c[3]))
            &&& j[4] == json_entry("prompt_len"@, c[4])
            &&& j[5] == json_entry("gen_len"@, c[5])
            &&& j[6] == json_entry("cached_depth"@, c[6])
            &&& j[7] == json_entry("repetitions"@, c[7])
            &&& j[8] == json_entry("warmups"@, c[8])
            &&& j[9] == json_entry("avg_ns"@, c[9])
            &&& j[10] == json_entry("stddev_ns"@, c[10])
            &&& j[11] == json_entry("p50_ns"@, c[11])
            &&& j[12] == json_entry("p90_ns"@, c[12])
            &&& j[13] == json_entry("p99_ns"@, c[13])
            &&& j[14] == json_entry("avg_ts"@, c[14])
            &&& j[15] == json_entry("stddev_ts"@, c[15])
            &&& row.avg_ttft_ns is Some ==> j[16] == json_entry("avg_ttft_ns"@, c[16])
            &&& row.avg_power_w is Some ==> j[17] == json_entry("avg_power_w"@, c[17])
            &&& row.tokens_per_joule is Some ==> j[18] == json_entry("tokens_per_joule"@, c[18])
            &&& row.joules_per_token is Some ==> j[19] == json_entry("joules_per_token"@, c[19])
            &&& row.achieved_gb_s is Some ==> j[28] == json_entry("achieved_gb_s"@, c[20])
            &&& row.achieved_tflops is Some ==> j[29] == json_entry("achieved_tflops"@, c[21])
            &&& row.bw_utilization is Some ==> j[30] == json_entry("bw_utilization"@, c[22])
            &&& j[20] == json_entry("avg_cache_hit_tokens"@, c[23])
            &&& j[21] == json_entry("avg_cache_miss_tokens"@, c[24])
            &&& j[22] == json_entry("avg_draft_calls"@, c[25])
            &&& j[23] == json_entry("avg_target_calls"@, c[26])
            &&& j[24] == json_entry("avg_accepted_tokens"@, c[27])
            &&& j[25] == json_entry("avg_rejected_tokens"@, c[28])
            &&& row.baseline_avg_ts is Some ==> j[26] == json_entry("baseline_avg_ts"@, c[29])
            &&& row.speedup_vs_baseline is Some ==> j[27] == json_entry(
                "speedup_vs_baseline"@,
                c[30],
            )
        }),
{
}

/// What was not measured is left out: an empty cell, a null, a dash.
pub proof fn missing_values_are_left_out(row: BenchmarkRow, f: RowFigures)
    ensures
        ({
            let c = csv_cells(row, f);
            let j = json_entries(row, f);
            let m = markdown_cells(row, f);
            &&& row.avg_ttft_ns is None ==> c[16] == ""@ && j[16] == json_entry(
                "avg_ttft_ns"@,
                "null"@,
            ) && m[4] == "-"@
            &&& row.avg_power_w is None ==> c[17] == ""@ && j[17] == json_entry(
                "avg_power_w"@,
                "null"@,
            ) && m[5] == "-"@
            &&& row.tokens_per_joule is None ==> c[18] == ""@ && j[18] == json_entry(
                "tokens_per_joule"@,
                "null"@,
            ) && m[6] == "-"@
            &&& row.speedup_vs_baseline is None ==> c[30] == ""@ && j[27] == json_entry(
                "speedup_vs_baseline"@,
                "null"@,
            ) && m[11] == "-"@
        }),
{
}


proof fn lemma_separated_holds(parts: Seq<Seq<char>>, sep: Seq<char>, n: nat, i: int)
    requires
        0 <= i < n <= parts.len(),
    ensures
        text::holds(text::separated(parts, sep, n), parts[i]),
    decreases n,
{
    let none = Seq::<char>::empty();
    let all = text::separated(parts, sep, n);
    if n == 1 {
        text::held_texts_stand_between_others(none, parts[0], none);
        assert(none + parts[0] + none =~= parts[0]);
    } else {
        let front = text::separated(parts, sep, (n - 1) as nat);
        if i == n - 1 {
            text::held_texts_stand_between_others(front + sep, parts[i], none);
            assert(front + sep + parts[i] + none =~= all);
        } else {
            lemma_separated_holds(parts, sep, (n - 1) as nat, i);
            text::longer_texts_hold_their_parts(none, front, sep + parts[n - 1], parts[i]);
            assert(none + front + (sep + parts[n - 1]) =~= all);
        }
    }
}

proof fn lemma_cells_held(
    cells: Seq<Seq<char>>,
    open: Seq<char>,
    sep: Seq<char>,
    close: Seq<char>,
    k: int,
)
    requires
        0 <= k < cells.len(),
    ensures
        text::holds(open + text::separated(cells, sep, cells.len()) + close, cells[k]),
{
    lemma_separated_holds(cells, sep, cells.len(), k);
    text::longer_texts_hold_their_parts(
        open,
        text::separated(cells, sep, cells.len()),
        close,
        cells[k],
    );
}

/// A comma separated report holds every cell of every result.
pub proof fn csv_reports_hold_every_cell(
    rows: Seq<BenchmarkRow>,
    f: Seq<RowFigures>,
    n: nat,
    i: int,
    k: int,
)
    requires
        0 <= i < n <= rows.len(),
        0 <= k < csv_cells(rows[i], f[i]).len(),
    ensures
        text::holds(csv_text(rows, f, n), csv_cells(rows[i], f[i])[k]),
    decreases n,
{
    let none = Seq::<char>::empty();
    let front = csv_text(rows, f, (n - 1) as nat);
    let last = csv_line(rows[n - 1], f[n - 1]);
    let cells = csv_cells(rows[i], f[i]);
    if i == n - 1 {
        lemma_cells_held(cells, none, ","@, "\n"@, k);
        assert(none + text::separated(cells, ","@, cells.len()) + "\n"@ =~= last);
        text::longer_texts_hold_their_parts(front, last, none, cells[k]);
        assert(front + last + none =~= csv_text(rows, f, n));
    } else {
        csv_reports_hold_every_cell(rows, f, (n - 1) as nat, i, k);
        text::longer_texts_hold_their_parts(none, front, last, cells[k]);
        assert(none + front + last =~= csv_text(rows, f, n));
    }
}

/// A JSON report holds every entry of every result.
pub proof fn json_reports_hold_every_entry(
    rows: Seq<BenchmarkRow>,
    f: Seq<RowFigures>,
    i: int,
    k: int,
)
    requires
        0 <= i < rows.len(),
        0 <= k < json_entries(rows[i], f[i]).len(),
    ensures
        text::holds(json_text(rows, f), json_entries(rows[i], f[i])[k]),
{
    let objects = Seq::new(rows.len(), |i: int| json_object(rows[i], f[i]));
    let all = text::separated(objects, ","@, rows.len());
    let entries = json_entries(rows[i], f[i]);
    lemma_cells_held(entries, "{"@, ","@, "}"@, k);
    assert(objects[i] == json_object(rows[i], f[i]));
    lemma_held_inside(objects, ","@, objects.len(), i, entries[k]);
    text::longer_texts_hold_their_parts("["@, all, "]"@, entries[k]);
}

proof fn lemma_held_inside(
    parts: Seq<Seq<char>>,
    sep: Seq<char>,
    n: nat,
    i: int,
    inner: Seq<char>,
)
    requires
        0 <= i < n <= parts.len(),
        text::holds(parts[i], inner),
    ensures
        text::holds(text::separated(parts, sep, n), inner),
    decreases n,
{
    let none = Seq::<char>::empty();
    let all = text::separated(parts, sep, n);
    if n > 1 {
        let front = text::separated(parts, sep, (n - 1) as nat);
        if i == n - 1 {
            text::longer_texts_hold_their_parts(front + sep, parts[i], none, inner);
            assert(front + sep + parts[i] + none =~= all);
        } else {
            lemma_held_inside(parts, sep, (n - 1) as nat, i, inner);
            text::longer_texts_hold_their_parts(none, front, sep + parts[n - 1], inner);
            assert(none + front + (sep + parts[n - 1]) =~= all);
        }
    }
}

/// A table holds every cell of every result that its order lists.
pub proof fn tables_hold_every_cell(
    rows: Seq<BenchmarkRow>,
    f: Seq<RowFigures>,
    order: Seq<usize>,
    n: nat,
    i: int,
    k: int,
)
    requires
        0 <= i < n <= order.len(),
        0 <= k < markdown_cells(rows[order[i] as int], f[order[i] as int]).len(),
    ensures
        text::holds(
            markdown_text(rows, f, order, n),
            markdown_cells(rows[order[i] as int], f[order[i] as int])[k],
        ),
    decreases n,
{
    let none = Seq::<char>::empty();
    let front = markdown_text(rows, f, order, (n - 1) as nat);
    let last = markdown_line(rows[order[n - 1] as int], f[order[n - 1] as int]);
    let cells = markdown_cells(rows[order[i] as int], f[order[i] as int]);
    if i == n - 1 {
        lemma_cells_held(cells, "| "@, " | "@, " |\n"@, k);
        text::longer_texts_hold_their_parts(front, last, none, cells[k]);
        assert(front + last + none =~= markdown_text(rows, f, order, n));
    } else {
        tables_hold_every_cell(rows, f, order, (n - 1) as nat, i, k);
        text::longer_texts_hold_their_parts(none, front, last, cells[k]);
        assert(none + front + last =~= markdown_text(rows, f, order, n));
    }
}

/// A result is compared with the last baseline of its own name and with no other; the
/// quotient is left out where the baseline has no rate above zero, and nothing else of
/// the result changes.
pub proof fn results_are_compared_with_their_baseline(
    baselines: Seq<LlamaBenchRow>,
    before: BenchmarkRow,
    quotient: F64,
    after: BenchmarkRow,
    k: int,
)
    requires
        row_compared(baselines, before, quotient, after),
        0 <= k < baselines.len(),
        baselines[k].test@ == before.test@,
        forall|j: int| k < j < baselines.len() ==> (#[trigger] baselines[j]).test@ != before.test@,
    ensures
        after.baseline_avg_ts == Some(baselines[k].avg_ts),
        after.speedup_vs_baseline is Some <==> !baselines[k].avg_ts.nan()
            && baselines[k].avg_ts.rank() > 0,
        after.speedup_vs_baseline is Some ==> after.speedup_vs_baseline->0 == quotient,
        after.avg_ts == before.avg_ts,
        after.test == before.test,
        after.avg_ns == before.avg_ns,
{
    let j = choose|j: int| #[trigger]
        benchmark::last_of_test(baselines, before.test@, j) && compared(
            before,
            baselines[j].avg_ts,
            quotient,
            after,
        );
    assert(benchmark::last_of_test(baselines, before.test@, j));
    if j < k {
        assert(baselines[k].test@ != before.test@);
    }
    if k < j {
        assert(baselines[j].test@ != before.test@);
    }
}

/// A summary has a value exactly where its samples have what it is taken over: the time to
/// the first token where one was measured, the power where the energy was, the tokens for
/// energy where some was used, the energy for tokens where there were some, and the rates
/// that samples tell. It has no baseline yet.
pub proof fn summaries_tell_what_was_measured(
    config: BenchmarkConfig,
    samples: Seq<BenchmarkSample>,
    f: SampleFigures,
    row: BenchmarkRow,
    i: int,
)
    requires
        sums_up(config, samples, f, row),
        0 <= i < samples.len(),
    ensures
        samples[i].achieved_gb_s is Some ==> row.achieved_gb_s == Some(f.achieved_gb_s)
            && row.bw_utilization == Some(f.bw_utilization),
        samples[i].achieved_tflops is Some ==> row.achieved_tflops == Some(f.achieved_tflops),
        (forall|k: int| 0 <= k < samples.len() ==> (#[trigger] samples[k]).achieved_gb_s is None)
            ==> row.achieved_gb_s is None && row.bw_utilization is None,
        (forall|k: int| 0 <= k < samples.len() ==> (#[trigger] samples[k]).achieved_tflops is None)
            ==> row.achieved_tflops is None,
        row.joules_per_token is Some ==> row.avg_power_w is Some,
        row.tokens_per_joule is Some ==> row.avg_power_w is Some,
        row.avg_ttft_ns is Some ==> row.avg_ttft_ns->0 == f.avg_ttft_ns,
        row.baseline_avg_ts is None && row.speedup_vs_baseline is None,
        f.p50_ns.rank() <= f.p90_ns.rank() <= f.p99_ns.rank() ==> row.p50_ns.rank()
            <= row.p90_ns.rank() <= row.p99_ns.rank(),
        row.avg_ns == f.avg_ns && row.avg_ts == f.avg_ts,
        row.prompt_len == config.prompt_len && row.gen_len == config.gen_len,
{
}
} // verus!
