//! Token selection from logits.

use std::cmp::Ordering;
use vstd::prelude::*;
use crate::radix_cache::TokenId;
use crate::ranking;
use crate::ranking::rank_descending;
use crate::scalar::{F32, NEG_INFINITY_BITS, ONE_BITS, ZERO_BITS};
use crate::speculative::NextTokenPrediction;

verus! {

/// `vob::Vob`, a vector of bits.
#[verifier::external_type_specification]
#[verifier::external_body]
#[verifier::reject_recursive_types(T)]
pub struct ExVob<T>(vob::Vob<T>);

/// A mask of allowed tokens.
pub type LogitMask = vob::Vob<usize>;

/// The bits of a mask, the bit of token 0 first.
pub uninterp spec fn mask_bits(mask: vob::Vob<usize>) -> Seq<bool>;

/// `Vob::from_elem` makes a vector of `len` bits that all equal `value`.
#[verifier::external_body]
pub(crate) fn mask_from_elem(value: bool, len: usize) -> (mask: LogitMask)
    ensures
        mask_bits(mask) == Seq::new(len as nat, |i: int| value),
{
    LogitMask::from_elem(value, len)
}

/// `Vob::get` reads the bit at `index`, or gives `None` beyond the end.
#[verifier::external_body]
pub(crate) fn mask_get(mask: &LogitMask, index: usize) -> (bit: Option<bool>)
    ensures
        index < mask_bits(*mask).len() ==> bit == Some(mask_bits(*mask)[index as int]),
        index >= mask_bits(*mask).len() ==> bit is None,
{
    mask.get(index)
}

/// `Vob::set` writes the bit at `index`; it panics beyond the end.
#[verifier::external_body]
pub(crate) fn mask_set(mask: &mut LogitMask, index: usize, value: bool)
    requires
        index < mask_bits(*old(mask)).len(),
    ensures
        mask_bits(*final(mask)) == mask_bits(*old(mask)).update(index as int, value),
{
    mask.set(index, value);
}

/// `Vob::set_all` makes every bit equal `value` and keeps their number.
#[verifier::external_body]
pub(crate) fn mask_set_all(mask: &mut LogitMask, value: bool)
    ensures
        mask_bits(*final(mask)) == Seq::new(mask_bits(*old(mask)).len(), |i: int| value),
{
    mask.set_all(value);
}

/// Whether `mask` lets token `i` through; without a mask every token passes,
/// and tokens beyond the end of a mask do not.
pub open spec fn allowed(mask: Option<&LogitMask>, i: int) -> bool {
    match mask {
        Some(m) => 0 <= i < mask_bits(*m).len() && mask_bits(*m)[i],
        None => true,
    }
}

/// Whether `mask` lets token `i` through.
pub fn is_allowed(mask: Option<&LogitMask>, i: usize) -> (b: bool)
    ensures
        b == allowed(mask, i as int),
{
    match mask {
        Some(m) => match mask_get(m, i) {
            Some(bit) => bit,
            None => false,
        },
        None => true,
    }
}

/// The allowed tokens among the first `n`, in ascending order.
pub open spec fn allowed_below(mask: Option<&LogitMask>, n: nat) -> Seq<TokenId>
    decreases n,
{
    if n == 0 {
        Seq::empty()
    } else {
        let front = allowed_below(mask, (n - 1) as nat);
        if allowed(mask, n - 1) {
            front.push((n - 1) as usize as TokenId)
        } else {
            front
        }
    }
}

/// The candidates of a sampler: the allowed tokens among the first `n`.
pub fn candidates(mask: Option<&LogitMask>, n: usize) -> (tokens: Vec<TokenId>)
    ensures
        tokens@ == allowed_below(mask, n as nat),
{
    let mut tokens: Vec<TokenId> = Vec::new();
    let mut i: usize = 0;
    while i < n
        invariant
            i <= n,
            tokens@ == allowed_below(mask, i as nat),
        decreases n - i,
    {
        if is_allowed(mask, i) {
            tokens.push(i as TokenId);
        }
        i = i + 1;
    }
    tokens
}

/// Picks one token from the logits of all tokens. A token that `mask` does not
/// allow is not considered.
pub trait Sampler {
    fn sample(&self, logits: &[F32], mask: Option<&LogitMask>) -> NextTokenPrediction;

    /// Whether the sampler always picks the highest logit. This is false unless a
    /// sampler says otherwise.
    fn is_greedy(&self) -> (b: bool)
        default_ensures
            !b,
    {
        false
    }
}

/// Picks the allowed token with the highest logit.
#[derive(Debug, Clone, Copy, PartialEq, Eq, Structural)]
pub struct GreedySampler;

/// Whether token `i` is a candidate of greedy sampling: it is allowed and its
/// logit is a number.
pub open spec fn contends(logits: Seq<F32>, mask: Option<&LogitMask>, i: int) -> bool {
    0 <= i < logits.len() && allowed(mask, i) && !logits[i].nan()
}

/// Whether token `i` wins among the first `n` tokens: no candidate has a higher
/// logit, and among equal ones it is the last.
pub open spec fn wins(logits: Seq<F32>, mask: Option<&LogitMask>, n: int, i: int) -> bool {
    &&& i < n
    &&& contends(logits, mask, i)
    &&& forall|j: int|
        j < n && #[trigger] contends(logits, mask, j) ==> logits[j].rank() < logits[i].rank() || (
        logits[j].rank() == logits[i].rank() && j <= i)
}

/// The outcome of greedy sampling: the winning token with its logit. Without
/// any candidate it is token 0 with a confidence of negative infinity.
pub open spec fn greedy_choice(logits: Seq<F32>, mask: Option<&LogitMask>) -> NextTokenPrediction {
    let n = logits.len() as int;
    if exists|i: int| wins(logits, mask, n, i) {
        let i = choose|i: int| wins(logits, mask, n, i);
        NextTokenPrediction { token: i as usize as TokenId, confidence: logits[i] }
    } else {
        NextTokenPrediction { token: 0, confidence: F32 { bits: NEG_INFINITY_BITS } }
    }
}

impl Sampler for GreedySampler {
    fn sample(&self, logits: &[F32], mask: Option<&LogitMask>) -> (p: NextTokenPrediction)
        ensures
            p == greedy_choice(logits@, mask),
    {
        let mut max_logit: F32 = F32 { bits: NEG_INFINITY_BITS };
        let mut max_token: TokenId = 0;
        let ghost mut best: int = -1;
        let mut i: usize = 0;
        while i < logits.len()
            invariant
                i <= logits@.len(),
                best < i,
                best >= 0 ==> wins(logits@, mask, i as int, best) && max_logit == logits@[best]
                    && max_token == best as usize as TokenId,
                best < 0 ==> max_logit.bits == NEG_INFINITY_BITS && max_token == 0 && forall|j: int|
                    j < i ==> !#[trigger] contends(logits@, mask, j),
            decreases logits@.len() - i,
        {
            if is_allowed(mask, i) && logits[i].ge(max_logit) {
                max_logit = logits[i];
                max_token = i as TokenId;
                proof {
                    assert(contends(logits@, mask, i as int));
                    best = i as int;
                }
            }
            i = i + 1;
        }
        proof {
            let n = logits@.len() as int;
            if best >= 0 {
                let k = choose|k: int| wins(logits@, mask, n, k);
                winner_is_unique(logits@, mask, n, k, best);
            } else if exists|k: int| wins(logits@, mask, n, k) {
                let k = choose|k: int| wins(logits@, mask, n, k);
                assert(contends(logits@, mask, k));
            }
        }
        NextTokenPrediction { token: max_token, confidence: max_logit }
    }

    fn is_greedy(&self) -> (b: bool)
        ensures
            b,
    {
        true
    }
}

/// At most one token wins.
pub proof fn winner_is_unique(logits: Seq<F32>, mask: Option<&LogitMask>, n: int, a: int, b: int)
    requires
        wins(logits, mask, n, a),
        wins(logits, mask, n, b),
    ensures
        a == b,
{
    assert(contends(logits, mask, a));
    assert(contends(logits, mask, b));
}

/// As soon as there is a candidate, one of them wins.
pub proof fn some_candidate_wins(logits: Seq<F32>, mask: Option<&LogitMask>, n: int, c: int) -> (i:
    int)
    requires
        n <= logits.len(),
        c < n,
        contends(logits, mask, c),
    ensures
        wins(logits, mask, n, i),
    decreases n,
{
    if forall|j: int| j < n - 1 ==> !#[trigger] contends(logits, mask, j) {
        n - 1
    } else {
        let d = choose|j: int| j < n - 1 && #[trigger] contends(logits, mask, j);
        let k = some_candidate_wins(logits, mask, n - 1, d);
        if contends(logits, mask, n - 1) && logits[n - 1].rank() >= logits[k].rank() {
            n - 1
        } else {
            k
        }
    }
}

// ---------------------------------------------------------------------------
// Sampling by chance
// ---------------------------------------------------------------------------
//
// A sampler of this kind ranks its candidates by their logits over the
// temperature, keeps the likeliest, and lets a random number choose among them.
// Quotients, exponentials, sums and the random number come from the caller.

/// A candidate with its logit.
#[derive(Debug, Clone, Copy)]
pub struct TokenLogit {
    pub token: TokenId,
    pub logit: F32,
}

/// The order of two floating point numbers; there is none if one is not a
/// number.
pub open spec fn logit_order(a: F32, b: F32) -> Option<Ordering> {
    if a.nan() || b.nan() {
        None
    } else if a.rank() < b.rank() {
        Some(Ordering::Less)
    } else if a.rank() > b.rank() {
        Some(Ordering::Greater)
    } else {
        Some(Ordering::Equal)
    }
}

impl TokenLogit {
    /// The order of two candidates by their logits. Candidates without an order
    /// count as equal.
    pub fn cmp(&self, other: &Self) -> (o: Ordering)
        ensures
            o == (match logit_order(self.logit, other.logit) {
                Some(c) => c,
                None => Ordering::Equal,
            }),
    {
        if self.logit.lt(other.logit) {
            Ordering::Less
        } else if other.logit.lt(self.logit) {
            Ordering::Greater
        } else {
            Ordering::Equal
        }
    }
}

impl PartialEq for TokenLogit {
    fn eq(&self, other: &Self) -> (b: bool) {
        self.token == other.token && self.logit == other.logit
    }
}

impl vstd::std_specs::cmp::PartialEqSpecImpl for TokenLogit {
    open spec fn obeys_eq_spec() -> bool {
        true
    }

    open spec fn eq_spec(&self, other: &Self) -> bool {
        self.token == other.token && self.logit.at_least(other.logit) && other.logit.at_least(
            self.logit,
        )
    }
}

impl PartialOrd for TokenLogit {
    fn partial_cmp(&self, other: &Self) -> (o: Option<Ordering>) {
        if self.logit.is_nan() || other.logit.is_nan() {
            None
        } else {
            Some(self.cmp(other))
        }
    }
}

impl vstd::std_specs::cmp::PartialOrdSpecImpl for TokenLogit {
    open spec fn obeys_partial_cmp_spec() -> bool {
        true
    }

    open spec fn partial_cmp_spec(&self, other: &Self) -> Option<Ordering> {
        logit_order(self.logit, other.logit)
    }
}

/// The bit pattern of the lowest temperature, one millionth.
pub const LOWEST_TEMPERATURE_BITS: u32 = 0x3586_37BD;

/// The temperature that a sampler divides by: never below one millionth.
pub open spec fn safe_temperature(temperature: F32) -> F32 {
    if temperature.at_least(F32 { bits: LOWEST_TEMPERATURE_BITS }) {
        temperature
    } else {
        F32 { bits: LOWEST_TEMPERATURE_BITS }
    }
}

/// The temperature that a sampler divides by.
pub fn effective_temperature(temperature: F32) -> (t: F32)
    ensures
        t == safe_temperature(temperature),
{
    let lowest: F32 = F32 { bits: LOWEST_TEMPERATURE_BITS };
    if temperature.ge(lowest) {
        temperature
    } else {
        lowest
    }
}

/// How sampling begins: with the outcome, or with candidates to be ranked.
#[derive(Debug)]
pub enum Start {
    Settled(NextTokenPrediction),
    Candidates(Vec<TokenId>),
}

/// Whether sampling begins with the allowed tokens. Without any it is settled:
/// then the highest logit of all tokens wins, whatever the mask says.
pub open spec fn begins(logits: Seq<F32>, mask: Option<&LogitMask>, start: Start) -> bool {
    let tokens = allowed_below(mask, logits.len());
    if tokens.len() == 0 {
        start == Start::Settled(greedy_choice(logits, None))
    } else {
        start is Candidates && start->Candidates_0@ == tokens
    }
}

fn begin(logits: &[F32], mask: Option<&LogitMask>) -> (start: Start)
    ensures
        begins(logits@, mask, start),
{
    let tokens: Vec<TokenId> = candidates(mask, logits.len());
    if tokens.len() == 0 {
        Start::Settled(GreedySampler.sample(logits, None))
    } else {
        Start::Candidates(tokens)
    }
}

/// The ranks of some logits.
pub open spec fn logit_keys(logits: Seq<F32>) -> Seq<i64> {
    logits.map_values(|l: F32| l.rank() as i64)
}

/// The candidates with their logits, in a given order.
pub open spec fn listed(tokens: Seq<TokenId>, logits: Seq<F32>, order: Seq<usize>) -> Seq<
    TokenLogit,
> {
    order.map_values(
        |k: usize| TokenLogit { token: tokens[k as int], logit: logits[k as int] },
    )
}

/// Whether candidates are listed with their logits, the highest first, and
/// equal ones in the order in which they stand.
pub open spec fn is_ranked(
    tokens: Seq<TokenId>,
    logits: Seq<F32>,
    ranked: Seq<TokenLogit>,
) -> bool {
    exists|order: Seq<usize>| #[trigger]
        ranking::descending(logit_keys(logits), order) && ranked == listed(tokens, logits, order)
}

/// Ranks candidates by their logits.
pub fn rank_candidates(tokens: &[TokenId], logits: &[F32]) -> (ranked: Vec<TokenLogit>)
    requires
        tokens@.len() == logits@.len(),
        logits@.len() > 1 ==> forall|i: int| 0 <= i < logits@.len() ==> !(#[trigger] logits@[i]).nan(),
    ensures
        is_ranked(tokens@, logits@, ranked@),
        ranked@.len() == tokens@.len(),
{
    let mut keys: Vec<i64> = Vec::with_capacity(logits.len());
    let mut i: usize = 0;
    while i < logits.len()
        invariant
            i <= logits@.len(),
            keys@ == logit_keys(logits@.take(i as int)),
        decreases logits@.len() - i,
    {
        keys.push(logits[i].key());
        i = i + 1;
        assert(keys@ =~= logit_keys(logits@.take(i as int)));
    }
    assert(logits@.take(i as int) =~= logits@);
    let order: Vec<usize> = rank_descending(keys.as_slice());
    let mut ranked: Vec<TokenLogit> = Vec::with_capacity(order.len());
    let mut n: usize = 0;
    while n < order.len()
        invariant
            n <= order@.len() == tokens@.len() == logits@.len(),
            ranking::descending(logit_keys(logits@), order@),
            ranked@ == listed(tokens@, logits@, order@.take(n as int)),
        decreases order@.len() - n,
    {
        let k: usize = order[n];
        ranked.push(TokenLogit { token: tokens[k], logit: logits[k] });
        n = n + 1;
        assert(ranked@ =~= listed(tokens@, logits@, order@.take(n as int)));
    }
    assert(order@.take(n as int) =~= order@);
    ranked
}

/// The first place from `from` on where a running sum reaches a level, or the
/// number of sums.
pub open spec fn first_reaching(sums: Seq<F32>, level: F32, from: nat) -> nat
    decreases sums.len() - from,
{
    if from >= sums.len() {
        sums.len()
    } else if sums[from as int].at_least(level) {
        from
    } else {
        first_reaching(sums, level, from + 1)
    }
}

/// The first place from `from` on where a weight is below a level, or the number
/// of weights.
pub open spec fn first_below(weights: Seq<F32>, level: F32, from: nat) -> nat
    decreases weights.len() - from,
{
    if from >= weights.len() {
        weights.len()
    } else if weights[from as int].below(level) {
        from
    } else {
        first_below(weights, level, from + 1)
    }
}

fn find_reaching(sums: &[F32], level: F32) -> (at: usize)
    ensures
        at == first_reaching(sums@, level, 0),
        at <= sums@.len(),
{
    let mut at: usize = 0;
    while at < sums.len() && !sums[at].ge(level)
        invariant
            at <= sums@.len(),
            first_reaching(sums@, level, at as nat) == first_reaching(sums@, level, 0),
        decreases sums@.len() - at,
    {
        at = at + 1;
    }
    at
}

/// What a random number draws from ranked candidates: the first one at which the
/// running sum of the probabilities reaches it, and the likeliest if none does.
pub open spec fn drawn(ranked: Seq<TokenLogit>, sums: Seq<F32>, r: F32) -> NextTokenPrediction {
    let at = first_reaching(sums, r, 0);
    let winner = if at < sums.len() {
        ranked[at as int]
    } else {
        ranked[0]
    };
    NextTokenPrediction { token: winner.token, confidence: winner.logit }
}

/// Draws a candidate: `sums` are the running sums of the probabilities of those
/// that are kept, and `r` is the random number.
pub fn draw(ranked: &[TokenLogit], sums: &[F32], r: F32) -> (p: NextTokenPrediction)
    requires
        0 < ranked@.len(),
        sums@.len() <= ranked@.len(),
    ensures
        p == drawn(ranked@, sums@, r),
{
    let at: usize = find_reaching(sums, r);
    let winner: TokenLogit = if at < sums.len() {
        ranked[at]
    } else {
        ranked[0]
    };
    NextTokenPrediction { token: winner.token, confidence: winner.logit }
}

/// Keeps the likeliest tokens that together have a probability of `p`.
#[derive(Debug, Clone, Copy)]
pub struct TopPSampler {
    pub p: F32,
    pub temperature: F32,
}

impl TopPSampler {
    /// Whether there is nothing to leave to chance: every token is kept, at no
    /// temperature.
    pub open spec fn certain(self) -> bool {
        self.p.at_least(F32 { bits: ONE_BITS }) && (F32 { bits: ZERO_BITS }).at_least(
            self.temperature,
        )
    }

    pub fn begin(&self, logits: &[F32], mask: Option<&LogitMask>) -> (start: Start)
        ensures
            if self.certain() {
                start == Start::Settled(greedy_choice(logits@, mask))
            } else {
                begins(logits@, mask, start)
            },
    {
        if self.p.ge(F32 { bits: ONE_BITS }) && (F32 { bits: ZERO_BITS }).ge(self.temperature) {
            Start::Settled(GreedySampler.sample(logits, mask))
        } else {
            begin(logits, mask)
        }
    }

    /// How many of the ranked candidates are kept, by the running sums of their
    /// probabilities.
    pub open spec fn kept(self, sums: Seq<F32>) -> nat {
        let at = first_reaching(sums, self.p, 0);
        if at < sums.len() {
            at + 1
        } else {
            sums.len()
        }
    }

    /// Counts the ranked candidates that are kept.
    pub fn keep(&self, sums: &[F32]) -> (n: usize)
        ensures
            n == self.kept(sums@),
            n <= sums@.len(),
            0 < sums@.len() ==> 0 < n,
    {
        let at: usize = find_reaching(sums, self.p);
        if at < sums.len() {
            at + 1
        } else {
            at
        }
    }
}

/// Keeps the tokens that are at least `min_p` times as likely as the likeliest.
#[derive(Debug, Clone, Copy)]
pub struct MinPSampler {
    pub min_p: F32,
    pub temperature: F32,
}

impl MinPSampler {
    pub fn begin(&self, logits: &[F32], mask: Option<&LogitMask>) -> (start: Start)
        ensures
            begins(logits@, mask, start),
    {
        begin(logits, mask)
    }

    /// How many of the ranked candidates are kept, by how likely each is compared
    /// to the first, which is always kept.
    pub open spec fn kept(self, weights: Seq<F32>) -> nat {
        first_below(weights, self.min_p, 1)
    }

    /// Counts the ranked candidates that are kept.
    pub fn keep(&self, weights: &[F32]) -> (n: usize)
        requires
            0 < weights@.len(),
        ensures
            n == self.kept(weights@),
            0 < n <= weights@.len(),
    {
        let mut at: usize = 1;
        while at < weights.len() && !weights[at].lt(self.min_p)
            invariant
                0 < at <= weights@.len(),
                first_below(weights@, self.min_p, at as nat) == first_below(weights@, self.min_p, 1),
            decreases weights@.len() - at,
        {
            at = at + 1;
        }
        at
    }
}

/// What is drawn is one of the candidates, with its logit.
pub proof fn a_candidate_is_drawn(
    tokens: Seq<TokenId>,
    logits: Seq<F32>,
    ranked: Seq<TokenLogit>,
    sums: Seq<F32>,
    r: F32,
) -> (k: int)
    requires
        tokens.len() == logits.len(),
        is_ranked(tokens, logits, ranked),
        0 < ranked.len(),
        sums.len() <= ranked.len(),
    ensures
        0 <= k < tokens.len(),
        drawn(ranked, sums, r) == (NextTokenPrediction { token: tokens[k], confidence: logits[k] }),
{
    let order = choose|order: Seq<usize>| #[trigger]
        ranking::descending(logit_keys(logits), order) && ranked == listed(tokens, logits, order);
    let at = first_reaching(sums, r, 0);
    if at < sums.len() {
        order[at as int] as int
    } else {
        order[0] as int
    }
}

/// No candidate that is left out is likelier than one that is kept.
pub proof fn the_likeliest_are_kept(
    tokens: Seq<TokenId>,
    logits: Seq<F32>,
    ranked: Seq<TokenLogit>,
    a: int,
    b: int,
)
    requires
        tokens.len() == logits.len(),
        is_ranked(tokens, logits, ranked),
        0 <= a < b < ranked.len(),
    ensures
        ranked[a].logit.rank() >= ranked[b].logit.rank(),
{
    let order = choose|order: Seq<usize>| #[trigger]
        ranking::descending(logit_keys(logits), order) && ranked == listed(tokens, logits, order);
    let keys = logit_keys(logits);
    assert(ranking::comes_before(keys, order[a] as int, order[b] as int));
    assert(keys[order[a] as int] == logits[order[a] as int].rank());
    assert(keys[order[b] as int] == logits[order[b] as int].rank());
}

/// Keeping more probability never keeps fewer tokens.
pub proof fn a_higher_share_keeps_more(a: TopPSampler, b: TopPSampler, sums: Seq<F32>)
    requires
        !a.p.nan(),
        !b.p.nan(),
        a.p.rank() <= b.p.rank(),
    ensures
        a.kept(sums) <= b.kept(sums),
{
    lemma_higher_is_later(sums, a.p, b.p, 0);
}

proof fn lemma_higher_is_later(sums: Seq<F32>, low: F32, high: F32, from: nat)
    requires
        !low.nan(),
        !high.nan(),
        low.rank() <= high.rank(),
        from <= sums.len(),
    ensures
        first_reaching(sums, low, from) <= first_reaching(sums, high, from) <= sums.len(),
        from <= first_reaching(sums, low, from),
    decreases sums.len() - from,
{
    if from < sums.len() {
        lemma_higher_is_later(sums, low, high, from + 1);
    }
}

/// Of tokens with the highest logit the last one is chosen.
pub proof fn ties_go_to_the_later_token(logits: Seq<F32>, mask: Option<&LogitMask>, i: int)
    requires
        contends(logits, mask, i),
        forall|j: int| #[trigger]
            contends(logits, mask, j) ==> logits[j].rank() <= logits[i].rank(),
        logits.len() <= u32::MAX,
    ensures
        ({
            let c = greedy_choice(logits, mask);
            &&& i <= c.token < logits.len()
            &&& c.confidence == logits[c.token as int]
            &&& c.confidence.rank() == logits[i].rank()
            &&& forall|j: int|
                j > c.token && #[trigger] contends(logits, mask, j) ==> logits[j].rank()
                    < c.confidence.rank()
        }),
{
    let n = logits.len() as int;
    let w = some_candidate_wins(logits, mask, n, i);
    let c = choose|k: int| wins(logits, mask, n, k);
    winner_is_unique(logits, mask, n, w, c);
    assert(contends(logits, mask, c));
}

/// The candidates are the allowed tokens, each once and in ascending order.
pub proof fn candidates_are_the_allowed_tokens(mask: Option<&LogitMask>, n: nat, i: int)
    requires
        n <= u32::MAX,
    ensures
        0 <= i < n ==> (allowed_below(mask, n).contains(i as u32) <==> allowed(mask, i)),
        forall|k: int| 0 <= k < allowed_below(mask, n).len() ==> #[trigger] allowed_below(mask, n)[k]
            < n,
        forall|a: int, b: int|
            0 <= a < b < allowed_below(mask, n).len() ==> #[trigger] allowed_below(mask, n)[a]
                < #[trigger] allowed_below(mask, n)[b],
    decreases n,
{
    if n > 0 {
        candidates_are_the_allowed_tokens(mask, (n - 1) as nat, i);
        let front = allowed_below(mask, (n - 1) as nat);
        let all = allowed_below(mask, n);
        if allowed(mask, n - 1) {
            assert(all == front.push((n - 1) as u32));
            if 0 <= i < n - 1 {
                if front.contains(i as u32) {
                    let k = choose|k: int| 0 <= k < front.len() && front[k] == i as u32;
                    assert(all[k] == i as u32);
                }
                if all.contains(i as u32) {
                    let k = choose|k: int| 0 <= k < all.len() && all[k] == i as u32;
                    assert(front[k] == i as u32);
                }
            } else if i == n - 1 {
                assert(all[front.len() as int] == i as u32);
            }
        } else if i == n - 1 {
            if front.contains(i as u32) {
                let k = choose|k: int| 0 <= k < front.len() && front[k] == i as u32;
                assert(front[k] < n - 1);
            }
        }
    }
}

proof fn lemma_first_reaching(sums: Seq<F32>, level: F32, from: nat)
    requires
        from <= sums.len(),
    ensures
        ({
            let at = first_reaching(sums, level, from);
            &&& from <= at <= sums.len()
            &&& forall|i: int| from <= i < at ==> !(#[trigger] sums[i]).at_least(level)
            &&& at < sums.len() ==> sums[at as int].at_least(level)
        }),
    decreases sums.len() - from,
{
    if from < sums.len() && !sums[from as int].at_least(level) {
        lemma_first_reaching(sums, level, from + 1);
    }
}

/// Keeping a share of the probability keeps the shortest front of the ranking whose
/// sum reaches the share, and everything where no sum does.
pub proof fn the_shortest_front_is_kept(s: TopPSampler, sums: Seq<F32>)
    ensures
        ({
            let n = s.kept(sums);
            &&& n <= sums.len()
            &&& sums.len() > 0 ==> n > 0
            &&& n < sums.len() ==> sums[n - 1].at_least(s.p)
            &&& forall|i: int| 0 <= i < n - 1 ==> !(#[trigger] sums[i]).at_least(s.p)
        }),
{
    lemma_first_reaching(sums, s.p, 0);
}

/// A token is kept by its likelihood as long as it and all before it reach the level;
/// the first one is kept in any case.
pub proof fn the_likely_front_is_kept(s: MinPSampler, weights: Seq<F32>)
    requires
        weights.len() > 0,
    ensures
        ({
            let n = s.kept(weights);
            &&& 1 <= n <= weights.len()
            &&& forall|i: int| 1 <= i < n ==> !(#[trigger] weights[i]).below(s.min_p)
            &&& n < weights.len() ==> weights[n as int].below(s.min_p)
        }),
{
    lemma_first_below(weights, s.min_p, 1);
}

proof fn lemma_first_below(weights: Seq<F32>, level: F32, from: nat)
    requires
        from <= weights.len(),
    ensures
        ({
            let at = first_below(weights, level, from);
            &&& from <= at <= weights.len()
            &&& forall|i: int| from <= i < at ==> !(#[trigger] weights[i]).below(level)
            &&& at < weights.len() ==> weights[at as int].below(level)
        }),
    decreases weights.len() - from,
{
    if from < weights.len() && !weights[from as int].below(level) {
        lemma_first_below(weights, level, from + 1);
    }
}

/// A random number draws the candidate at which the running sum first reaches it.
pub proof fn the_first_sum_that_reaches_wins(
    ranked: Seq<TokenLogit>,
    sums: Seq<F32>,
    r: F32,
    i: int,
)
    requires
        0 <= i < sums.len(),
        sums[i].at_least(r),
        forall|j: int| 0 <= j < i ==> !(#[trigger] sums[j]).at_least(r),
    ensures
        drawn(ranked, sums, r).token == ranked[i].token,
        drawn(ranked, sums, r).confidence == ranked[i].logit,
{
    lemma_first_reaching(sums, r, 0);
    let at = first_reaching(sums, r, 0);
    if at < i {
        assert(!sums[at as int].at_least(r));
    }
}

/// A random number that no sum reaches draws the likeliest candidate.
pub proof fn an_unreached_number_draws_the_likeliest(
    ranked: Seq<TokenLogit>,
    sums: Seq<F32>,
    r: F32,
)
    requires
        forall|j: int| 0 <= j < sums.len() ==> !(#[trigger] sums[j]).at_least(r),
    ensures
        drawn(ranked, sums, r).token == ranked[0].token,
        drawn(ranked, sums, r).confidence == ranked[0].logit,
{
    lemma_first_reaching(sums, r, 0);
}

/// The temperature that is divided by is the higher one of what was asked for and one
/// millionth, and one millionth where what was asked for is no number.
pub proof fn temperatures_have_a_floor(t: F32)
    ensures
        ({
            let s = safe_temperature(t);
            let low = F32 { bits: LOWEST_TEMPERATURE_BITS };
            &&& !s.nan()
            &&& s.rank() >= low.rank() > 0
            &&& s == t || s == low
            &&& !t.nan() ==> s.rank() >= t.rank()
        }),
{
}


/// One logit is above another exactly where the other is below it, and only what is not a
/// number has no place in the order.
pub proof fn logits_are_ordered_by_value(a: F32, b: F32)
    ensures
        (logit_order(a, b) == Some(Ordering::Less)) == (logit_order(b, a) == Some(
            Ordering::Greater,
        )),
        (logit_order(a, b) == Some(Ordering::Equal)) == (logit_order(b, a) == Some(
            Ordering::Equal,
        )),
        (logit_order(a, b) == Some(Ordering::Less)) == a.below(b),
        (logit_order(a, b) is None) == (a.nan() || b.nan()),
{
}

/// Where the mask allows no token the mask is left aside and nothing is left to chance;
/// anywhere else the choice is among tokens that the mask allows.
pub proof fn sampling_begins_with_allowed_tokens(
    logits: Seq<F32>,
    mask: Option<&LogitMask>,
    start: Start,
)
    requires
        begins(logits, mask, start),
    ensures
        start is Settled <==> allowed_below(mask, logits.len()).len() == 0,
        start is Settled ==> start->Settled_0 == greedy_choice(logits, None),
{
}

/// Without a mask every token passes; with one, a token passes exactly where its bit is
/// set, so that none beyond the end of the mask does.
pub proof fn masks_decide_what_passes(mask: LogitMask, n: nat, i: int)
    requires
        n <= u32::MAX,
        0 <= i < n,
    ensures
        allowed_below(None, n).len() == n,
        allowed_below(None, n)[i] == i,
        i < mask_bits(mask).len() ==> allowed(Some(&mask), i) == mask_bits(mask)[i],
        i >= mask_bits(mask).len() ==> !allowed(Some(&mask), i),
    decreases n,
{
    if n > 1 {
        let j: int = if i < n - 1 {
            i
        } else {
            0
        };
        masks_decide_what_passes(mask, (n - 1) as nat, j);
    } else {
        assert(allowed_below(None, 0).len() == 0);
    }
}
} // verus!
