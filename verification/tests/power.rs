use velo_core::amx::{AmxContext, AmxPrecision, DispatchTarget, HybridScheduler};
use velo_core::paged_attention::KvCacheType;
use velo_core::power::{
    throttled, PowerState, PowerTelemetry, PrecisionGovernor, SmcTelemetry, Throttle,
};
use velo_core::scalar::F32;

fn f(v: f32) -> F32 {
    F32::from_bits(v.to_bits())
}

fn value(v: F32) -> f32 {
    f32::from_bits(v.to_bits())
}

fn governor(draw: u32) -> PrecisionGovernor<SmcTelemetry> {
    let mut smc = SmcTelemetry::new(10000);
    smc.set_simulated_draw(draw);
    PrecisionGovernor::new(smc)
}

#[test]
fn test_smc_telemetry() {
    let mut smc = SmcTelemetry::new(50000); // 50W budget
    assert_eq!(smc.power_budget_mw(), 50000);

    smc.set_simulated_draw(25000);
    assert_eq!(smc.current_power_mw(), 25000);
}

#[test]
fn test_governor_states() {
    let gov = PrecisionGovernor::new(SmcTelemetry::new(10000));

    // Performance (0%)
    assert_eq!(gov.evaluate_state(), PowerState::Performance);
    assert_eq!(gov.adapt_kv_precision(KvCacheType::Fp32), KvCacheType::Fp32);
    assert_eq!(gov.adapt_amx_precision(), AmxPrecision::Fp32);
    assert_eq!(value(gov.batch_size_multiplier()), 1.0);

    // Balanced (75%)
    let gov = governor(7500);
    assert_eq!(gov.evaluate_state(), PowerState::Balanced);
    assert_eq!(gov.adapt_kv_precision(KvCacheType::Fp32), KvCacheType::Fp8);
    assert_eq!(gov.adapt_amx_precision(), AmxPrecision::Bf16);
    assert_eq!(value(gov.batch_size_multiplier()), 1.0); // 0.75 is <= 0.8

    // Efficiency (95%)
    let gov = governor(9500);
    assert_eq!(gov.evaluate_state(), PowerState::Efficiency);
    assert_eq!(gov.adapt_kv_precision(KvCacheType::Fp32), KvCacheType::Int8);
    assert_eq!(gov.adapt_amx_precision(), AmxPrecision::Fp16);
    assert_eq!(value(gov.batch_size_multiplier()), 0.5); // 0.95 > 0.8

    // Throttled (110%)
    let gov = governor(11000);
    assert_eq!(value(gov.batch_size_multiplier()), 0.1);
}

#[test]
fn the_states_change_where_single_precision_says() {
    for draw in [6999u32, 7000, 7001, 8999, 9000, 9001, 8000, 8001, 10000, 10001] {
        let ratio = draw as f32 / 10000u32 as f32;
        let expected = if ratio < 0.7 {
            PowerState::Performance
        } else if ratio < 0.9 {
            PowerState::Balanced
        } else {
            PowerState::Efficiency
        };
        assert_eq!(governor(draw).evaluate_state(), expected, "draw {draw}");
        let factor = if ratio > 1.0 {
            0.1
        } else if ratio > 0.8 {
            0.5
        } else {
            1.0
        };
        assert_eq!(value(governor(draw).batch_size_multiplier()), factor, "draw {draw}");
    }
}

#[test]
fn batches_shrink_but_never_vanish() {
    assert_eq!(throttled(Throttle::Full, 64), 64);
    assert_eq!(throttled(Throttle::Half, 64), (64f32 * 0.5) as usize);
    assert_eq!(throttled(Throttle::Tenth, 64), (64f32 * 0.1) as usize);
}

#[test]
fn test_amx_bf16_alignment() {
    let input = vec![1.23456789f32, -3.14159265];
    let bits: Vec<F32> = input.iter().map(|v| f(*v)).collect();
    let mut output = vec![f(0.0); 2];
    HybridScheduler::<SmcTelemetry>::align_precision_bf16(&bits, &mut output);

    // Assert precision was truncated (not equal to original FP32)
    assert_ne!(input[0], value(output[0]));
    // But should be very close
    assert!((input[0] - value(output[0])).abs() < 0.01);
}

#[test]
fn test_hybrid_routing() {
    let mut sched = HybridScheduler::<SmcTelemetry>::new(32, AmxPrecision::Bf16, true);
    // Force enabled for logic test
    sched.amx.enabled = true;

    // Batch size > threshold -> AMX (Prefill)
    assert!(matches!(sched.route(64), DispatchTarget::Amx));
    // Batch size < threshold -> Metal (Decode)
    assert!(matches!(sched.route(1), DispatchTarget::Metal));
}

#[test]
fn without_the_coprocessor_everything_goes_to_metal() {
    let sched = HybridScheduler::<SmcTelemetry>::new(32, AmxPrecision::Bf16, false);
    assert!(matches!(sched.route(64), DispatchTarget::Metal));
    assert!(AmxContext::new(false).check_matmul().is_err());
}

#[test]
fn products_need_matching_sizes() {
    let amx = AmxContext::new(true);
    assert!(amx.check_matvec(6, 3, 2, 2, 3).is_ok());
    assert!(amx.check_matvec(5, 3, 2, 2, 3).is_err());
}
