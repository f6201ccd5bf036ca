use velo_core::radix_cache::TokenId;
use velo_core::sampling::{
    candidates, draw, effective_temperature, is_allowed, rank_candidates, GreedySampler, LogitMask,
    MinPSampler, Sampler, Start, TokenLogit, TopPSampler,
};
use velo_core::scalar::F32;
use velo_core::speculative::NextTokenPrediction;

fn f(v: f32) -> F32 {
    F32::from_bits(v.to_bits())
}

fn values(v: &[f32]) -> Vec<F32> {
    v.iter().map(|x| f(*x)).collect()
}

#[test]
fn test_greedy_sampler() {
    let logits = values(&[1.0, 5.0, 2.0, 4.0]);
    let sampler = GreedySampler;
    let res = sampler.sample(&logits, None);
    assert_eq!(res.token, 1);
    assert_eq!(res.confidence, f(5.0));
    assert!(sampler.is_greedy());
}

#[test]
fn test_greedy_sampler_with_mask() {
    let logits = values(&[1.0, 5.0, 2.0, 4.0]);
    let mut mask = LogitMask::from_elem(false, 4);
    mask.set(0, true);
    mask.set(2, true);

    let sampler = GreedySampler;
    let res = sampler.sample(&logits, Some(&mask));
    assert_eq!(res.token, 2);
    assert_eq!(res.confidence, f(2.0));
}

#[test]
fn a_mask_names_the_candidates() {
    let mut mask = LogitMask::from_elem(false, 4);
    mask.set(1, true);
    mask.set(3, true);
    assert_eq!(candidates(Some(&mask), 4), vec![1, 3]);
    assert_eq!(candidates(None, 3), vec![0, 1, 2]);
    assert!(is_allowed(Some(&mask), 1));
    assert!(!is_allowed(Some(&mask), 2));
    assert!(!is_allowed(Some(&mask), 9));
    assert!(is_allowed(None, 9));
}

#[test]
fn values_that_are_no_numbers_do_not_win() {
    let logits = values(&[1.0, f32::NAN, 0.5]);
    assert_eq!(GreedySampler.sample(&logits, None).token, 0);
}

#[test]
fn values_compare_as_floating_point_numbers() {
    assert!(f(0.0) == f(-0.0));
    assert!(f(f32::NAN) != f(f32::NAN));
    assert!(f(1.0).ge(f(-1.0)));
    assert!(!f(f32::NAN).ge(f(0.0)));
    assert!(f(0.0).total_ge(f(-0.0)));
    assert!(!f(-0.0).total_ge(f(0.0)));
    assert!(f(f32::NAN).is_nan());
}

fn x(v: F32) -> f32 {
    f32::from_bits(v.to_bits())
}

/// The candidates in order, and how likely each is compared to the first.
fn weigh(tokens: &[TokenId], logits: &[F32], temperature: F32) -> (Vec<TokenLogit>, Vec<f32>) {
    let t = x(effective_temperature(temperature));
    let scaled: Vec<F32> = tokens.iter().map(|i| f(x(logits[*i as usize]) / t)).collect();
    let ranked = rank_candidates(tokens, &scaled);
    let top = x(ranked[0].logit);
    let weights = ranked.iter().map(|c| (x(c.logit) - top).exp()).collect();
    (ranked, weights)
}

fn running(weights: &[f32]) -> Vec<F32> {
    let sum: f32 = weights.iter().sum();
    let mut total = 0.0;
    weights
        .iter()
        .map(|w| {
            total += w / sum;
            f(total)
        })
        .collect()
}

fn top_p(sampler: TopPSampler, logits: &[F32], mask: Option<&LogitMask>, r: f32) -> TokenId {
    match sampler.begin(logits, mask) {
        Start::Settled(p) => p.token,
        Start::Candidates(tokens) => {
            let (ranked, weights) = weigh(&tokens, logits, sampler.temperature);
            let n = sampler.keep(&running(&weights));
            draw(&ranked, &running(&weights[..n]), f(r)).token
        }
    }
}

fn min_p(sampler: MinPSampler, logits: &[F32], mask: Option<&LogitMask>, r: f32) -> TokenId {
    match sampler.begin(logits, mask) {
        Start::Settled(p) => p.token,
        Start::Candidates(tokens) => {
            let (ranked, weights) = weigh(&tokens, logits, sampler.temperature);
            let relative: Vec<F32> = weights.iter().map(|w| f(*w)).collect();
            let n = sampler.keep(&relative);
            draw(&ranked, &running(&weights[..n]), f(r)).token
        }
    }
}

#[test]
fn test_top_p_sampler_greedy_fallback() {
    let logits = values(&[1.0, 5.0, 2.0, 4.0]);
    let sampler = TopPSampler { p: f(1.0), temperature: f(0.0) };
    assert_eq!(top_p(sampler, &logits, None, rand::random::<f32>()), 1);
}

#[test]
fn test_top_p_sampler_basic() {
    let logits = values(&[1.0, 2.0, 3.0, 4.0]);
    let sampler = TopPSampler { p: f(0.5), temperature: f(1.0) };
    let token = top_p(sampler, &logits, None, rand::random::<f32>());
    // With p=0.5, only tokens 3 and maybe 2 will be in the pool.
    assert!(token == 3 || token == 2);
}

#[test]
fn test_min_p_sampler_basic() {
    let logits = values(&[1.0, 2.0, 3.0, 4.0]);
    let sampler = MinPSampler { min_p: f(0.1), temperature: f(1.0) };
    assert!(min_p(sampler, &logits, None, rand::random::<f32>()) <= 3);
}

#[test]
fn test_samplers_empty_fallback() {
    let logits = values(&[1.0, 2.0]);
    let mask = LogitMask::from_elem(false, 2);

    let sampler = TopPSampler { p: f(0.9), temperature: f(1.0) };
    // Falls back to greedy max
    assert_eq!(top_p(sampler, &logits, Some(&mask), rand::random::<f32>()), 1);

    let sampler = MinPSampler { min_p: f(0.1), temperature: f(1.0) };
    assert_eq!(min_p(sampler, &logits, Some(&mask), rand::random::<f32>()), 1);
}

#[test]
fn test_token_logit_ord() {
    let a = TokenLogit { token: 1, logit: f(1.0) };
    let b = TokenLogit { token: 2, logit: f(2.0) };
    assert!(b > a);
    assert_eq!(a.cmp(&b), std::cmp::Ordering::Less);
}

#[test]
fn candidates_without_an_order_count_as_equal() {
    let a = TokenLogit { token: 1, logit: f(f32::NAN) };
    let b = TokenLogit { token: 2, logit: f(2.0) };
    assert!(a.partial_cmp(&b).is_none());
    assert_eq!(a.cmp(&b), std::cmp::Ordering::Equal);
}

#[test]
fn candidates_are_ranked_by_their_logits() {
    let ranked = rank_candidates(&[4, 5, 6, 7], &values(&[1.0, -2.0, 3.0, 1.0]));
    let tokens: Vec<TokenId> = ranked.iter().map(|c| c.token).collect();
    assert_eq!(tokens, vec![6, 4, 7, 5]);
}

#[test]
fn the_share_decides_how_many_are_kept() {
    let sums = values(&[0.5, 0.8, 0.95, 1.0]);
    let keep = |p: f32| TopPSampler { p: f(p), temperature: f(1.0) }.keep(&sums);
    assert_eq!(keep(0.0), 1);
    assert_eq!(keep(0.5), 1);
    assert_eq!(keep(0.81), 3);
    assert_eq!(keep(2.0), 4);
    let weights = values(&[1.0, 0.4, 0.1, 0.3]);
    let keep = |p: f32| MinPSampler { min_p: f(p), temperature: f(1.0) }.keep(&weights);
    assert_eq!(keep(0.05), 4);
    assert_eq!(keep(0.2), 2);
    assert_eq!(keep(9.0), 1);
}

#[test]
fn the_random_number_draws() {
    let ranked = rank_candidates(&[8, 9], &values(&[2.0, 1.0]));
    let sums = values(&[0.75, 1.0]);
    assert_eq!(draw(&ranked, &sums, f(0.75)).token, 8);
    assert_eq!(draw(&ranked, &sums, f(0.8)).token, 9);
    assert_eq!(draw(&ranked, &sums, f(1.5)).token, 8);
    assert_eq!(draw(&ranked, &sums, f(0.8)).confidence, f(1.0));
}

#[test]
fn temperatures_have_a_lowest_value() {
    assert_eq!(x(effective_temperature(f(0.7))), 0.7);
    assert_eq!(x(effective_temperature(f(0.0))), 1e-6);
    assert_eq!(x(effective_temperature(f(f32::NAN))), 1e-6);
}

struct LastSampler;

impl Sampler for LastSampler {
    fn sample(&self, logits: &[F32], _mask: Option<&LogitMask>) -> NextTokenPrediction {
        let last = logits.len() - 1;
        NextTokenPrediction { token: last as TokenId, confidence: logits[last] }
    }
}

#[test]
fn samplers_are_not_greedy_unless_they_say_so() {
    assert_eq!(LastSampler.sample(&values(&[1.0, 0.5]), None).token, 1);
    assert!(!LastSampler.is_greedy());
}
