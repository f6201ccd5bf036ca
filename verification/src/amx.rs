//! Apple Matrix Co-processor (AMX) integration for CPU acceleration.

use std::sync::Arc;
use vstd::prelude::*;
use vstd::string::*;
use crate::power;
use crate::power::{PowerState, PowerTelemetry, PrecisionGovernor, Throttle};
use crate::scalar::F32;
use crate::speculative::SpeculativeError;

verus! {

/// AMX (Apple Matrix Extensions) state context.
///
/// AMX is an undocumented co-processor on Apple Silicon that accelerates matrix
/// operations. It operates on specialized AMX registers (X/Y/Z).
#[derive(Debug)]
pub struct AmxContext {
    pub enabled: bool,
}

/// What is answered where there is no co-processor.
pub open spec fn disabled_text() -> Seq<char> {
    "AMX is not enabled on this architecture"@
}

/// What is answered where buffers are too short.
pub open spec fn mismatch_text() -> Seq<char> {
    "Buffer sizes do not match dimensions"@
}

impl AmxContext {
    /// A context; `available` says whether the processor has the extensions.
    pub fn new(available: bool) -> (c: Self)
        ensures
            c.enabled == available,
    {
        AmxContext { enabled: available }
    }

    /// Whether a matrix-vector multiplication can be carried out: an `m x k`
    /// matrix of `a_len` values, a vector of `x_len` and a result of `y_len`.
    pub fn check_matvec(&self, a_len: usize, x_len: usize, y_len: usize, m: usize, k: usize) -> (r:
        Result<(), SpeculativeError>)
        ensures
            r is Ok <==> self.enabled && a_len >= m * k && x_len >= k && y_len >= m,
            r is Err ==> r->Err_0 is Model && r->Err_0->Model_0@ == (if self.enabled {
                mismatch_text()
            } else {
                disabled_text()
            }),
    {
        if !self.enabled {
            return Err(
                SpeculativeError::Model(
                    String::from_str("AMX is not enabled on this architecture"),
                ),
            );
        }
        assert(m as u128 * k as u128 <= u64::MAX * u64::MAX) by (nonlinear_arith)
            requires
                m <= u64::MAX,
                k <= u64::MAX,
        ;
        if (a_len as u128) < m as u128 * k as u128 || x_len < k || y_len < m {
            return Err(
                SpeculativeError::Model(String::from_str("Buffer sizes do not match dimensions")),
            );
        }
        Ok(())
    }

    /// Whether a matrix-matrix multiplication can be carried out at all.
    pub fn check_matmul(&self) -> (r: Result<(), SpeculativeError>)
        ensures
            r is Ok <==> self.enabled,
            r is Err ==> r->Err_0 is Model && r->Err_0->Model_0@ == disabled_text(),
    {
        if self.enabled {
            Ok(())
        } else {
            Err(
                SpeculativeError::Model(
                    String::from_str("AMX is not enabled on this architecture"),
                ),
            )
        }
    }
}

/// Precision mode for AMX instructions.
#[derive(Debug, Clone, Copy, PartialEq, Eq, Structural)]
pub enum AmxPrecision {
    /// FP32 accumulated in FP32 (simulated).
    Fp32,
    /// BF16 accumulated in FP32 (standard AMX mode).
    Bf16,
    /// FP16 accumulated in FP32.
    Fp16,
}

/// Orchestrates workloads between Metal (GPU) and AMX (CPU).
pub struct HybridScheduler<T: PowerTelemetry> {
    pub amx: AmxContext,
    pub threshold_batch_size: usize,
    pub precision: AmxPrecision,
    pub governor: Option<Arc<PrecisionGovernor<T>>>,
}

/// Where a batch is multiplied.
#[derive(Debug, Clone, Copy, PartialEq, Eq, Structural)]
pub enum DispatchTarget {
    Amx,
    Metal,
}

/// The target for a batch: the co-processor from the threshold on, where there
/// is one. A governor scales the batch, and halves the threshold where power is
/// short.
pub open spec fn target_for(
    enabled: bool,
    threshold: usize,
    power: Option<(PowerState, Throttle)>,
    batch_size: usize,
) -> DispatchTarget {
    let (batch, bound) = match power {
        None => (batch_size, threshold),
        Some((state, throttle)) => (
            power::word(throttle.of(batch_size as nat)),
            if state is Efficiency {
                threshold / 2
            } else {
                threshold
            },
        ),
    };
    if enabled && batch >= bound {
        DispatchTarget::Amx
    } else {
        DispatchTarget::Metal
    }
}

/// The pattern without its lower half.
pub open spec fn truncated(v: F32) -> F32 {
    F32 { bits: (v.bits - v.bits % 65536) as u32 }
}

impl<T: PowerTelemetry> HybridScheduler<T> {
    pub fn new(threshold: usize, precision: AmxPrecision, available: bool) -> (s: Self)
        ensures
            s.amx.enabled == available,
            s.threshold_batch_size == threshold,
            s.precision == precision,
            s.governor is None,
    {
        HybridScheduler {
            amx: AmxContext::new(available),
            threshold_batch_size: threshold,
            precision,
            governor: None,
        }
    }

    pub fn with_governor(self, governor: Arc<PrecisionGovernor<T>>) -> (s: Self)
        ensures
            s.amx == self.amx,
            s.threshold_batch_size == self.threshold_batch_size,
            s.precision == self.precision,
            s.governor == Some(governor),
    {
        HybridScheduler {
            amx: self.amx,
            threshold_batch_size: self.threshold_batch_size,
            precision: self.precision,
            governor: Some(governor),
        }
    }

    /// What the governor says of the power.
    pub open spec fn power(&self) -> Option<(PowerState, Throttle)> {
        match self.governor {
            None => None,
            Some(g) => Some((g.state(), g.throttle_now())),
        }
    }

    /// Decides whether to route the current matrix multiplication to AMX or Metal.
    /// Prefill (large n) often benefits from AMX on CPU due to lower dispatch latency,
    /// while decode (small n) or massive batches benefit from Metal.
    pub fn route(&self, batch_size: usize) -> (t: DispatchTarget)
        ensures
            t == target_for(
                self.amx.enabled,
                self.threshold_batch_size,
                self.power(),
                batch_size,
            ),
    {
        let mut batch: usize = batch_size;
        let mut threshold: usize = self.threshold_batch_size;
        match &self.governor {
            None => {},
            Some(gov) => {
                batch = power::throttled(gov.throttle(), batch_size);
                match gov.evaluate_state() {
                    PowerState::Efficiency => {
                        threshold = threshold / 2;
                    },
                    _ => {},
                }
            },
        }
        if self.amx.enabled && batch >= threshold {
            DispatchTarget::Amx
        } else {
            DispatchTarget::Metal
        }
    }

    /// Cuts an FP32 buffer to BF16 precision.
    pub fn align_precision_bf16(input: &[F32], output: &mut Vec<F32>)
        requires
            input@.len() <= old(output)@.len(),
        ensures
            final(output)@ == input@.map_values(|v: F32| truncated(v)) + old(output)@.skip(
                input@.len() as int,
            ),
    {
        let ghost start = output@;
        let mut i: usize = 0;
        while i < input.len()
            invariant
                i <= input@.len() <= start.len(),
                output@.len() == start.len(),
                forall|k: int| 0 <= k < i ==> #[trigger] output@[k] == truncated(input@[k]),
                forall|k: int| i <= k < start.len() ==> #[trigger] output@[k] == start[k],
            decreases input@.len() - i,
        {
            let bits: u32 = input[i].to_bits();
            output.set(i, F32::from_bits(bits - bits % 65536));
            i = i + 1;
        }
        assert(output@ =~= input@.map_values(|v: F32| truncated(v)) + start.skip(
            input@.len() as int,
        ));
    }
}

/// Without a co-processor everything goes to the GPU.
pub proof fn without_amx_all_goes_to_metal(
    threshold: usize,
    power: Option<(PowerState, Throttle)>,
    batch_size: usize,
)
    ensures
        target_for(false, threshold, power, batch_size) == DispatchTarget::Metal,
{
}

/// With a co-processor and no governor, batches from the threshold on go to it. A
/// governor counts what the throttle leaves of the batch, against half the threshold
/// where power is short.
pub proof fn batches_from_the_threshold_go_to_amx(
    threshold: usize,
    state: PowerState,
    throttle: Throttle,
    batch_size: usize,
)
    ensures
        target_for(true, threshold, None, batch_size) == DispatchTarget::Amx <==> batch_size
            >= threshold,
        ({
            let left = throttle.of(batch_size as nat);
            let target = target_for(true, threshold, Some((state, throttle)), batch_size);
            &&& left <= usize::MAX && state is Efficiency ==> (target == DispatchTarget::Amx <==> 2
                * left + 1 >= threshold)
            &&& left <= usize::MAX && !(state is Efficiency) ==> (target == DispatchTarget::Amx
                <==> left >= threshold)
            &&& left > usize::MAX ==> target == DispatchTarget::Amx
        }),
{
}

/// Truncating keeps the upper half of the pattern and clears the lower one.
pub proof fn truncating_keeps_the_upper_half(v: F32)
    ensures
        truncated(v).bits / 65536 == v.bits / 65536,
        truncated(v).bits % 65536 == 0,
{
}

} // verus!
