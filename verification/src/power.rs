//! Power and thermal telemetry monitoring.
//!
//! The governor compares the draw with the budget as floating point numbers of
//! single precision do; this is carried out on integers, with the same
//! rounding.

use vstd::arithmetic::power2::*;
use vstd::prelude::*;
use crate::amx::AmxPrecision;
use crate::paged_attention::KvCacheType;
use crate::scalar::F32;

verus! {

/// Real-time hardware power draw telemetry.
///
/// The spec functions describe it. They say nothing unless an implementation
/// defines them.
pub trait PowerTelemetry {
    open spec fn draw(&self) -> u32 {
        vstd::pervasive::arbitrary()
    }

    open spec fn budget(&self) -> u32 {
        vstd::pervasive::arbitrary()
    }

    /// Returns the current package power draw in milliwatts.
    fn current_power_mw(&self) -> (mw: u32)
        ensures
            mw == self.draw(),
    ;

    /// Returns the power budget cap in milliwatts.
    fn power_budget_mw(&self) -> (mw: u32)
        ensures
            mw == self.budget(),
    ;
}

/// A simulated SMC-based telemetry module for Apple Silicon.
#[derive(Debug)]
pub struct SmcTelemetry {
    budget_mw: u32,
    simulated_draw: u32,
}

impl SmcTelemetry {
    pub fn new(budget_mw: u32) -> (t: Self)
        ensures
            t.budget() == budget_mw,
            t.draw() == 0,
    {
        SmcTelemetry { budget_mw, simulated_draw: 0 }
    }

    /// Update simulated power draw (for testing/mocking).
    pub fn set_simulated_draw(&mut self, mw: u32)
        ensures
            final(self).draw() == mw,
            final(self).budget() == old(self).budget(),
    {
        self.simulated_draw = mw;
    }
}

impl PowerTelemetry for SmcTelemetry {
    closed spec fn draw(&self) -> u32 {
        self.simulated_draw
    }

    closed spec fn budget(&self) -> u32 {
        self.budget_mw
    }

    fn current_power_mw(&self) -> (mw: u32) {
        self.simulated_draw
    }

    fn power_budget_mw(&self) -> (mw: u32) {
        self.budget_mw
    }
}

// ── Single precision on integers ─────────────────────────────────────────────

/// By how many bits a number is longer than 24 bits.
pub open spec fn excess(n: nat) -> nat
    decreases n,
{
    if n < 0x100_0000 {
        0
    } else {
        1 + excess(n / 2)
    }
}

/// `n` divided by `unit`, rounded to the nearest whole number, to the even one
/// of two that are equally near.
pub open spec fn nearest(n: nat, unit: nat) -> nat {
    let q = n / unit;
    let r = n % unit;
    if 2 * r > unit || (2 * r == unit && q % 2 == 1) {
        q + 1
    } else {
        q
    }
}

/// The single precision number next to `n`: of 24 significant bits.
pub open spec fn rounded(n: nat) -> nat {
    nearest(n, pow2(excess(n))) * pow2(excess(n))
}

proof fn lemma_excess(n: nat)
    ensures
        n / pow2(excess(n)) < 0x100_0000,
        excess(n) > 0 ==> n >= 0x80_0000 * pow2(excess(n)),
        pow2(excess(n)) > 0,
    decreases n,
{
    lemma_pow2_pos(excess(n));
    lemma2_to64();
    if n >= 0x100_0000 {
        lemma_excess(n / 2);
        let e = excess(n / 2);
        lemma_pow2_unfold(e + 1);
        vstd::arithmetic::div_mod::lemma_div_denominator(n as int, 2, pow2(e) as int);
        if e == 0 {
        } else {
            assert(n >= 0x80_0000 * (2 * pow2(e)));
        }
    } else {
        assert(n / 1 == n);
    }
}

/// Numbers of up to 24 bits are their own.
pub proof fn short_numbers_are_exact(n: nat)
    requires
        n < 0x100_0000,
    ensures
        rounded(n) == n,
{
    lemma2_to64();
    assert(excess(n) == 0);
    assert(n / 1 == n);
    assert(n % 1 == 0);
    assert(nearest(n, 1) == n);
}

proof fn lemma_excess_grows(a: nat, b: nat)
    requires
        a <= b,
    ensures
        excess(a) <= excess(b),
    decreases b,
{
    if a >= 0x100_0000 {
        lemma_excess_grows(a / 2, b / 2);
    }
}

/// Rounding keeps the order of numbers.
pub proof fn rounding_keeps_the_order(a: nat, b: nat)
    requires
        a <= b,
    ensures
        rounded(a) <= rounded(b),
{
    let u = pow2(excess(a));
    let v = pow2(excess(b));
    lemma_excess(a);
    lemma_excess(b);
    lemma_excess_grows(a, b);
    vstd::arithmetic::div_mod::lemma_fundamental_div_mod(a as int, u as int);
    vstd::arithmetic::div_mod::lemma_fundamental_div_mod(b as int, v as int);
    let x = nearest(a, u);
    let y = nearest(b, v);
    if excess(a) == excess(b) {
        vstd::arithmetic::div_mod::lemma_div_is_ordered(a as int, b as int, u as int);
        if a / u == b / u {
            assert(u * (a / u) == u * (b / u));
            assert(a % u <= b % u);
        }
        assert(x <= y);
        assert(x * u <= y * u) by (nonlinear_arith)
            requires
                x <= y,
        ;
    } else {
        assert(x <= 0x100_0000);
        assert(y >= 0x80_0000) by {
            assert(b / v >= 0x80_0000) by (nonlinear_arith)
                requires
                    b >= 0x80_0000 * v,
                    v > 0,
            ;
        }
        let gap = (excess(b) - excess(a) - 1) as nat;
        lemma_pow2_adds(excess(a) + 1, gap);
        lemma_pow2_unfold(excess(a) + 1);
        lemma_pow2_pos(gap);
        assert(v >= 2 * u) by (nonlinear_arith)
            requires
                v == (2 * u) * pow2(gap),
                pow2(gap) >= 1,
        ;
        assert(x * u <= 0x100_0000 * u) by (nonlinear_arith)
            requires
                x <= 0x100_0000,
        ;
        assert(y * v >= 0x80_0000 * (2 * u)) by (nonlinear_arith)
            requires
                y >= 0x80_0000,
                v >= 2 * u,
        ;
    }
}

/// The single precision number next to `n`.
pub fn round_to_single(n: u128) -> (r: u128)
    requires
        n < 0x1_0000_0000_0000_0000_0000_0000,
    ensures
        r == rounded(n as nat),
        r <= 2 * n,
{
    let mut unit: u128 = 1;
    let mut left: u128 = n;
    let ghost mut e: nat = 0;
    proof {
        lemma2_to64();
    }
    while left >= 0x100_0000
        invariant
            n < 0x1_0000_0000_0000_0000_0000_0000,
            unit == pow2(e),
            unit >= 1,
            left == n / unit,
            excess(n as nat) == e + excess(left as nat),
        decreases left,
    {
        proof {
            lemma_pow2_unfold(e + 1);
            vstd::arithmetic::div_mod::lemma_div_denominator(n as int, unit as int, 2);
            assert(unit <= n) by (nonlinear_arith)
                requires
                    left == n / unit,
                    left >= 1,
                    unit >= 1,
            ;
        }
        unit = unit * 2;
        left = left / 2;
        proof {
            e = e + 1;
        }
    }
    let q: u128 = n / unit;
    let r: u128 = n % unit;
    proof {
        lemma_excess(n as nat);
        vstd::arithmetic::div_mod::lemma_fundamental_div_mod(n as int, unit as int);
        assert(unit * q == q * unit) by (nonlinear_arith);
        if e > 0 {
            assert(unit <= n);
        } else {
            assert(unit == 1);
            assert(n % 1 == 0);
        }
        assert((q + 1) * unit == q * unit + unit) by (nonlinear_arith);
        assert(unit <= 0x1_0000_0000_0000_0000_0000_0000);
    }
    if 2 * r > unit || (2 * r == unit && q % 2 == 1) {
        (q + 1) * unit
    } else {
        q * unit
    }
}

/// Whether the quotient of two numbers in single precision reaches `num / den`.
/// A number over zero reaches everything; zero over zero is no number.
pub open spec fn reaches(a: u32, b: u32, num: nat, den: nat) -> bool {
    !(a == 0 && b == 0) && rounded(a as nat) * den >= rounded(b as nat) * num
}

/// Whether the quotient of two numbers in single precision exceeds `num / den`.
pub open spec fn exceeds(a: u32, b: u32, num: nat, den: nat) -> bool {
    !(a == 0 && b == 0) && rounded(a as nat) * den > rounded(b as nat) * num
}

/// The scale of the bounds below.
pub const BOUND_SCALE: u64 = 0x200_0000;

/// What rounds to at least the single precision number next to nine tenths:
/// halfway below it, which rounds up to its even fraction.
pub const NINE_TENTHS: u64 = 30198987;

/// What rounds to at least the single precision number next to seven tenths
/// lies above this: halfway below it rounds down, for its fraction is odd.
pub const SEVEN_TENTHS: u64 = 23488101;

/// What rounds to more than one lies above this.
pub const ONE: u64 = 33554434;

/// What rounds to more than the single precision number next to eight tenths:
/// halfway above it, which rounds up, for its fraction is odd.
pub const EIGHT_TENTHS: u64 = 26843547;

/// Dynamic KV-Cache and compute precision based on power headroom.
#[derive(Debug, Clone, Copy, PartialEq, Eq, Structural)]
pub enum PowerState {
    /// Plenty of power budget. Max precision (FP16/FP32).
    Performance,
    /// Approaching budget limit. Balanced precision.
    Balanced,
    /// Hitting power budget. Lowest precision (INT8).
    Efficiency,
}

/// The state for a draw and a budget: efficiency from nine tenths of the budget
/// on, balance from seven tenths on.
pub open spec fn state_at(draw: u32, budget: u32) -> PowerState {
    if reaches(draw, budget, NINE_TENTHS as nat, BOUND_SCALE as nat) {
        PowerState::Efficiency
    } else if exceeds(draw, budget, SEVEN_TENTHS as nat, BOUND_SCALE as nat) {
        PowerState::Balanced
    } else {
        PowerState::Performance
    }
}

/// How much of a batch is kept.
#[derive(Debug, Clone, Copy, PartialEq, Eq, Structural)]
pub enum Throttle {
    /// A tenth: severely throttled.
    Tenth,
    /// Half of the batch.
    Half,
    /// The whole batch.
    Full,
}

/// The throttle for a draw and a budget: a tenth above the budget, half above
/// eight tenths of it.
pub open spec fn throttle_at(draw: u32, budget: u32) -> Throttle {
    if exceeds(draw, budget, ONE as nat, BOUND_SCALE as nat) {
        Throttle::Tenth
    } else if reaches(draw, budget, EIGHT_TENTHS as nat, BOUND_SCALE as nat) {
        Throttle::Half
    } else {
        Throttle::Full
    }
}

impl Throttle {
    /// The single precision number of the throttle.
    pub open spec fn factor(self) -> F32 {
        match self {
            Throttle::Tenth => F32 { bits: 0x3DCC_CCCD },
            Throttle::Half => F32 { bits: 0x3F00_0000 },
            Throttle::Full => F32 { bits: 0x3F80_0000 },
        }
    }

    /// What is left of a batch: the product in single precision, cut to a whole
    /// number. One tenth is 13421773 in units of two to the power of minus 27.
    pub open spec fn of(self, batch: nat) -> nat {
        match self {
            Throttle::Tenth => rounded(rounded(batch) * 13421773) / 0x800_0000,
            Throttle::Half => rounded(batch) / 2,
            Throttle::Full => rounded(batch),
        }
    }
}

/// A batch size as a machine word: the largest one where it does not fit.
pub open spec fn word(n: nat) -> usize {
    if n > usize::MAX {
        usize::MAX
    } else {
        n as usize
    }
}

/// What a throttle leaves of a batch.
pub fn throttled(throttle: Throttle, batch: usize) -> (n: usize)
    ensures
        n == word(throttle.of(batch as nat)),
{
    let near: u128 = round_to_single(batch as u128);
    let n: u128 = match throttle {
        Throttle::Tenth => {
            assert(near * 13421773 <= 2 * 0x1_0000_0000_0000_0000 * 13421773);
            round_to_single(near * 13421773) / 0x800_0000
        },
        Throttle::Half => near / 2,
        Throttle::Full => near,
    };
    if n > usize::MAX as u128 {
        usize::MAX
    } else {
        n as usize
    }
}

pub struct PrecisionGovernor<T: PowerTelemetry> {
    telemetry: T,
}

impl<T: PowerTelemetry> PrecisionGovernor<T> {
    pub closed spec fn source(&self) -> T {
        self.telemetry
    }

    pub open spec fn state(&self) -> PowerState {
        state_at(self.source().draw(), self.source().budget())
    }

    pub open spec fn throttle_now(&self) -> Throttle {
        throttle_at(self.source().draw(), self.source().budget())
    }

    pub fn new(telemetry: T) -> (g: Self)
        ensures
            g.source() == telemetry,
    {
        PrecisionGovernor { telemetry }
    }

    /// Determines the optimal power state based on current draw vs budget.
    pub fn evaluate_state(&self) -> (s: PowerState)
        ensures
            s == self.state(),
    {
        let current: u32 = self.telemetry.current_power_mw();
        let budget: u32 = self.telemetry.power_budget_mw();
        let a: u128 = round_to_single(current as u128);
        let b: u128 = round_to_single(budget as u128);
        assert(a <= 0x2_0000_0000 && b <= 0x2_0000_0000);
        assert(b * SEVEN_TENTHS <= 0x2_0000_0000 * 23488101) by (nonlinear_arith)
            requires
                b <= 0x2_0000_0000,
                SEVEN_TENTHS == 23488101,
        ;
        let drawn: u128 = a * BOUND_SCALE as u128;
        let high: u128 = b * NINE_TENTHS as u128;
        let low: u128 = b * SEVEN_TENTHS as u128;
        if current == 0 && budget == 0 {
            PowerState::Performance
        } else if drawn >= high {
            PowerState::Efficiency
        } else if drawn > low {
            PowerState::Balanced
        } else {
            PowerState::Performance
        }
    }

    /// Adapts the KV cache type based on the current power state.
    pub fn adapt_kv_precision(&self, _current_type: KvCacheType) -> (t: KvCacheType)
        ensures
            t == (match self.state() {
                PowerState::Performance => KvCacheType::Fp32,
                PowerState::Balanced => KvCacheType::Fp8,
                PowerState::Efficiency => KvCacheType::Int8,
            }),
    {
        match self.evaluate_state() {
            PowerState::Performance => KvCacheType::Fp32,
            PowerState::Balanced => KvCacheType::Fp8,
            PowerState::Efficiency => KvCacheType::Int8,
        }
    }

    /// Adapts AMX precision based on power state.
    pub fn adapt_amx_precision(&self) -> (p: AmxPrecision)
        ensures
            p == (match self.state() {
                PowerState::Performance => AmxPrecision::Fp32,
                PowerState::Balanced => AmxPrecision::Bf16,
                PowerState::Efficiency => AmxPrecision::Fp16,
            }),
    {
        match self.evaluate_state() {
            PowerState::Performance => AmxPrecision::Fp32,
            PowerState::Balanced => AmxPrecision::Bf16,
            PowerState::Efficiency => AmxPrecision::Fp16,
        }
    }

    /// How much of a batch the power budget leaves.
    pub fn throttle(&self) -> (t: Throttle)
        ensures
            t == self.throttle_now(),
    {
        let current: u32 = self.telemetry.current_power_mw();
        let budget: u32 = self.telemetry.power_budget_mw();
        let a: u128 = round_to_single(current as u128);
        let b: u128 = round_to_single(budget as u128);
        assert(a <= 0x2_0000_0000 && b <= 0x2_0000_0000);
        if current == 0 && budget == 0 {
            Throttle::Full
        } else if a * BOUND_SCALE as u128 > b * ONE as u128 {
            Throttle::Tenth
        } else if a * BOUND_SCALE as u128 >= b * EIGHT_TENTHS as u128 {
            Throttle::Half
        } else {
            Throttle::Full
        }
    }

    /// Calculates a power-constrained batch size multiplier: a tenth, a half or
    /// one.
    pub fn batch_size_multiplier(&self) -> (m: F32)
        ensures
            m == self.throttle_now().factor(),
    {
        match self.throttle() {
            Throttle::Tenth => F32::from_bits(0x3DCC_CCCD),
            Throttle::Half => F32::from_bits(0x3F00_0000),
            Throttle::Full => F32::from_bits(0x3F80_0000),
        }
    }
}

/// Drawing more never leads to a state of higher precision.
pub proof fn higher_draw_never_relaxes(a: u32, b: u32, budget: u32)
    requires
        a <= b,
    ensures
        state_at(a, budget) is Efficiency ==> state_at(b, budget) is Efficiency,
        state_at(b, budget) is Performance ==> state_at(a, budget) is Performance,
        throttle_at(a, budget) is Tenth ==> throttle_at(b, budget) is Tenth,
        throttle_at(b, budget) is Full ==> throttle_at(a, budget) is Full,
{
    rounding_keeps_the_order(a as nat, b as nat);
    short_numbers_are_exact(0);
    if a == 0 && budget == 0 {
        assert(rounded(a as nat) == 0 && rounded(budget as nat) == 0);
    }
}

/// A clear share of the budget decides the state: nine tenths and more is efficiency,
/// between seven and nine tenths is balance, less is performance. The bounds
/// themselves are those of single precision.
pub proof fn states_follow_the_share(draw: u32, budget: u32)
    requires
        draw < 0x100_0000,
        0 < budget < 0x100_0000,
    ensures
        1000 * draw >= 901 * budget ==> state_at(draw, budget) == PowerState::Efficiency,
        701 * budget <= 1000 * draw <= 899 * budget ==> state_at(draw, budget)
            == PowerState::Balanced,
        1000 * draw <= 699 * budget ==> state_at(draw, budget) == PowerState::Performance,
{
    short_numbers_are_exact(draw as nat);
    short_numbers_are_exact(budget as nat);
}

/// Above the budget a tenth of a batch is left, above eight tenths of it a half, below
/// that all of it.
pub proof fn throttles_follow_the_share(draw: u32, budget: u32)
    requires
        draw < 0x100_0000,
        0 < budget < 0x100_0000,
    ensures
        1000 * draw >= 1001 * budget ==> throttle_at(draw, budget) == Throttle::Tenth,
        801 * budget <= 1000 * draw <= 1000 * budget ==> throttle_at(draw, budget)
            == Throttle::Half,
        1000 * draw <= 799 * budget ==> throttle_at(draw, budget) == Throttle::Full,
{
    short_numbers_are_exact(draw as nat);
    short_numbers_are_exact(budget as nat);
}

/// A whole batch is itself, and half of it is half, rounded down.
pub proof fn throttled_batches_are_shares(batch: nat)
    requires
        batch < 0x100_0000,
    ensures
        Throttle::Full.of(batch) == batch,
        2 * Throttle::Half.of(batch) <= batch < 2 * Throttle::Half.of(batch) + 2,
        batch == 0 ==> Throttle::Tenth.of(batch) == 0,
{
    short_numbers_are_exact(batch);
    if batch == 0 {
        short_numbers_are_exact(0);
    }
}


/// The factors of the throttles are the numbers of single precision that are nearest to
/// one tenth, one half and one: with 24 bits of mantissa, and the exponents that these
/// have.
pub proof fn factors_are_the_nearest_numbers(t: Throttle)
    ensures
        ({
            let exponent = t.factor().bits / 0x80_0000;
            let mantissa = 0x80_0000 + t.factor().bits % 0x80_0000;
            &&& t is Full ==> exponent == 127 && mantissa == 0x80_0000
            &&& t is Half ==> exponent == 126 && mantissa == 0x80_0000
            &&& t is Tenth ==> exponent == 123 && -5 <= 10 * mantissa - 0x800_0000 <= 5
        }),
{
}

/// For budgets up to a kilowatt the bounds are exact: nine tenths of the budget and more
/// is efficiency, less than seven tenths is performance, more than the budget leaves a
/// tenth, and up to eight tenths of it leave everything.
pub proof fn bounds_are_exact_up_to_a_kilowatt(draw: u32, budget: u32)
    requires
        draw < 0x100_0000,
        0 < budget <= 1_000_000,
    ensures
        state_at(draw, budget) == PowerState::Efficiency <==> 10 * draw >= 9 * budget,
        state_at(draw, budget) == PowerState::Performance <==> 10 * draw < 7 * budget,
        throttle_at(draw, budget) == Throttle::Tenth <==> draw > budget,
        throttle_at(draw, budget) == Throttle::Full <==> 10 * draw <= 8 * budget,
{
    short_numbers_are_exact(draw as nat);
    short_numbers_are_exact(budget as nat);
}

/// A batch size is kept where it fits into a machine word, and cut to the largest one
/// where it does not.
pub proof fn batch_sizes_are_kept_where_they_fit(n: nat)
    ensures
        word(n) <= n,
        n <= usize::MAX ==> word(n) == n,
        n >= usize::MAX ==> word(n) == usize::MAX,
{
}
} // verus!
