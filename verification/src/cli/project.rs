//! The report of what a fleet of nodes can do. The figures in it come from the
//! caller, in decimal notation.

use vstd::prelude::*;
use vstd::string::*;
use crate::text;
use crate::text::number_text;

verus! {

/// What the power of a fleet comes to.
#[derive(Debug)]
pub struct PowerFigures {
    /// The power of all nodes, in kilowatts.
    pub fleet_kw: String,
    /// What a day of it costs.
    pub daily_cost: String,
    /// What a million tokens cost.
    pub cost_per_million: String,
}

/// What a fleet does, by one benchmark result.
#[derive(Debug)]
pub struct Projection {
    pub test: String,
    pub model_name: String,
    /// Tokens per second.
    pub throughput: String,
    /// Billions of tokens per day.
    pub capacity: String,
    /// The power, if it was measured.
    pub power: Option<PowerFigures>,
}

/// A label, a value, its unit and the end of the line.
pub open spec fn line(label: Seq<char>, value: Seq<char>, unit: Seq<char>) -> Seq<char> {
    label + value + unit + "\n"@
}

/// The section of the power.
pub open spec fn power_text(power: Option<PowerFigures>) -> Seq<char> {
    match power {
        Some(p) => line("  Fleet Power:       "@, p.fleet_kw@, " kW"@) + line(
            "  Daily Elec. Cost:  $"@,
            p.daily_cost@,
            ""@,
        ) + line("  Cost per 1M tok:   $"@, p.cost_per_million@, ""@),
        None => "  Power Data:        N/A (run benchmark with --power)\n"@,
    }
}

/// The section of a result.
pub open spec fn section(p: Projection) -> Seq<char> {
    "Test: "@ + p.test@ + line(" | Model: "@, p.model_name@, ""@) + line(
        "  Fleet Throughput:  "@,
        p.throughput@,
        " tokens/sec"@,
    ) + line("  Daily Capacity:    "@, p.capacity@, " billion tokens"@) + power_text(p.power)
        + "\n"@
}

/// The head of the report.
pub open spec fn head(nodes: usize, cost_kwh: Seq<char>, uptime_hours: Seq<char>) -> Seq<char> {
    "--- Velo Fleet Projection Report ---\n"@ + line(
        "Nodes: "@,
        text::decimal(nodes as nat),
        ""@,
    ) + line("Electricity Cost: $"@, cost_kwh, "/kWh"@) + line(
        "Daily Uptime: "@,
        uptime_hours,
        " hours"@,
    ) + "------------------------------------\n"@
}

/// The report up to its first `n` sections.
pub open spec fn report(top: Seq<char>, rows: Seq<Projection>, n: nat) -> Seq<char>
    decreases n,
{
    if n == 0 {
        top
    } else {
        report(top, rows, (n - 1) as nat) + section(rows[n - 1])
    }
}

fn push_line(out: &mut String, label: &str, value: &str, unit: &str)
    ensures
        final(out)@ == old(out)@ + line(label@, value@, unit@),
{
    let ghost before = out@;
    out.append(label);
    out.append(value);
    out.append(unit);
    out.append("\n");
    assert(out@ =~= before + line(label@, value@, unit@));
}

fn push_power(out: &mut String, power: &Option<PowerFigures>)
    ensures
        final(out)@ == old(out)@ + power_text(*power),
{
    let ghost before = out@;
    match power {
        Some(p) => {
            push_line(out, "  Fleet Power:       ", p.fleet_kw.as_str(), " kW");
            push_line(out, "  Daily Elec. Cost:  $", p.daily_cost.as_str(), "");
            push_line(out, "  Cost per 1M tok:   $", p.cost_per_million.as_str(), "");
        },
        None => {
            out.append("  Power Data:        N/A (run benchmark with --power)\n");
        },
    }
    assert(out@ =~= before + power_text(*power));
}

fn push_section(out: &mut String, p: &Projection)
    ensures
        final(out)@ == old(out)@ + section(*p),
{
    let ghost before = out@;
    out.append("Test: ");
    out.append(p.test.as_str());
    push_line(out, " | Model: ", p.model_name.as_str(), "");
    push_line(out, "  Fleet Throughput:  ", p.throughput.as_str(), " tokens/sec");
    push_line(out, "  Daily Capacity:    ", p.capacity.as_str(), " billion tokens");
    push_power(out, &p.power);
    out.append("\n");
    assert(out@ =~= before + section(*p));
}

/// Writes the report.
pub fn generate_report(nodes: usize, cost_kwh: &str, uptime_hours: &str, rows: &[Projection]) -> (s:
    String)
    ensures
        s@ == report(head(nodes, cost_kwh@, uptime_hours@), rows@, rows@.len()),
{
    let mut out: String = String::from_str("--- Velo Fleet Projection Report ---\n");
    let count: String = number_text(nodes);
    push_line(&mut out, "Nodes: ", count.as_str(), "");
    push_line(&mut out, "Electricity Cost: $", cost_kwh, "/kWh");
    push_line(&mut out, "Daily Uptime: ", uptime_hours, " hours");
    out.append("------------------------------------\n");
    let ghost top = head(nodes, cost_kwh@, uptime_hours@);
    assert(out@ =~= top);
    let mut i: usize = 0;
    while i < rows.len()
        invariant
            i <= rows@.len(),
            out@ == report(top, rows@, i as nat),
        decreases rows@.len() - i,
    {
        push_section(&mut out, &rows[i]);
        i = i + 1;
    }
    out
}


proof fn lemma_section(p: Projection)
    ensures
        text::holds(section(p), line("  Fleet Throughput:  "@, p.throughput@, " tokens/sec"@)),
        text::holds(section(p), line("  Daily Capacity:    "@, p.capacity@, " billion tokens"@)),
        text::holds(section(p), power_text(p.power)),
{
    let a = "Test: "@ + p.test@ + line(" | Model: "@, p.model_name@, ""@);
    let b = line("  Fleet Throughput:  "@, p.throughput@, " tokens/sec"@);
    let c = line("  Daily Capacity:    "@, p.capacity@, " billion tokens"@);
    let d = power_text(p.power);
    let e = "\n"@;
    assert(section(p) == a + b + c + d + e);
    text::held_texts_stand_between_others(a, b, c + d + e);
    assert(a + b + (c + d + e) =~= section(p));
    text::held_texts_stand_between_others(a + b, c, d + e);
    assert(a + b + c + (d + e) =~= section(p));
    text::held_texts_stand_between_others(a + b + c, d, e);
}

/// A report begins with its head and holds, for every result, its throughput, its
/// capacity, and what its power comes to where that is known.
pub proof fn reports_tell_every_result(top: Seq<char>, rows: Seq<Projection>, n: nat, i: int)
    requires
        0 <= i < n <= rows.len(),
    ensures
        ({
            let r = report(top, rows, n);
            let p = rows[i];
            &&& text::stands_at(r, top, 0)
            &&& text::holds(r, line("  Fleet Throughput:  "@, p.throughput@, " tokens/sec"@))
            &&& text::holds(r, line("  Daily Capacity:    "@, p.capacity@, " billion tokens"@))
            &&& text::holds(r, power_text(p.power))
        }),
    decreases n,
{
    let shorter = report(top, rows, (n - 1) as nat);
    let r = report(top, rows, n);
    let p = rows[i];
    let none = Seq::<char>::empty();
    let b = line("  Fleet Throughput:  "@, p.throughput@, " tokens/sec"@);
    let c = line("  Daily Capacity:    "@, p.capacity@, " billion tokens"@);
    let d = power_text(p.power);
    assert(r == shorter + section(rows[n - 1]));
    lemma_top(top, rows, n);
    if i == n - 1 {
        lemma_section(p);
        assert(shorter + section(p) + none =~= r);
        text::longer_texts_hold_their_parts(shorter, section(p), none, b);
        text::longer_texts_hold_their_parts(shorter, section(p), none, c);
        text::longer_texts_hold_their_parts(shorter, section(p), none, d);
    } else {
        reports_tell_every_result(top, rows, (n - 1) as nat, i);
        let last = section(rows[n - 1]);
        assert(none + shorter + last =~= r);
        text::longer_texts_hold_their_parts(none, shorter, last, b);
        text::longer_texts_hold_their_parts(none, shorter, last, c);
        text::longer_texts_hold_their_parts(none, shorter, last, d);
    }
}

proof fn lemma_top(top: Seq<char>, rows: Seq<Projection>, n: nat)
    ensures
        text::stands_at(report(top, rows, n), top, 0),
    decreases n,
{
    let r = report(top, rows, n);
    if n == 0 {
        assert(r.subrange(0, top.len() as int) =~= top);
    } else {
        let shorter = report(top, rows, (n - 1) as nat);
        lemma_top(top, rows, (n - 1) as nat);
        assert(r.subrange(0, top.len() as int) =~= shorter.subrange(0, top.len() as int));
    }
}
} // verus!
