//! Tensor parallel models: how the weights are dealt out to the devices, and
//! what the devices do in turn.

use vstd::prelude::*;
use vstd::string::*;
use crate::gguf::TensorInfo;
use crate::metal::sharding;
use crate::metal::sharding::{get_shard_strategy, shard_weight, ShardModel, ShardStrategy, ShardedWeight};
use crate::metal::types::Quantization;
use crate::model_loader::{MetaModel, ModelMeta, WeightStore};
use crate::radix_cache::TokenId;
use crate::speculative::SpeculativeError;
use crate::text::joined;

verus! {

// ── Shards ───────────────────────────────────────────────────────────────────

/// The dimensions of a shard: each device has its part of the heads and of the
/// feed-forward network.
pub open spec fn shard_dims(meta: MetaModel, tp_degree: usize) -> MetaModel {
    MetaModel {
        n_head: meta.n_head / tp_degree,
        n_head_kv: meta.n_head_kv / tp_degree,
        n_ff: meta.n_ff / tp_degree,
        ..meta
    }
}

/// The dimensions of a shard.
pub fn shard_meta(meta: &ModelMeta, tp_degree: usize) -> (m: ModelMeta)
    requires
        tp_degree > 0,
    ensures
        m@ == shard_dims(meta@, tp_degree),
{
    ModelMeta {
        arch: meta.arch.clone(),
        n_vocab: meta.n_vocab,
        n_embd: meta.n_embd,
        n_layer: meta.n_layer,
        n_head: meta.n_head / tp_degree,
        n_head_kv: meta.n_head_kv / tp_degree,
        n_ctx: meta.n_ctx,
        n_ff: meta.n_ff / tp_degree,
        head_dim: meta.head_dim,
        rope_freq_base: meta.rope_freq_base,
        norm_eps: meta.norm_eps,
        quantization: meta.quantization,
    }
}

/// The tensors of a store in their order.
pub type Listed = Seq<(Seq<char>, TensorInfo)>;

/// Whether a tensor has rows and columns to split.
pub open spec fn splittable(name: Seq<char>, t: TensorInfo, tp_degree: usize) -> bool {
    let strategy = sharding::strategy_for(name);
    sharding::kept_whole(strategy, tp_degree) || {
        &&& t.shape@.len() > 0
        &&& strategy is Column ==> sharding::column_rows(t.shape@) > 0
        &&& strategy is Row ==> t.shape@[0] as usize > 0 && sharding::row_rows(t.shape@) > 0
    }
}

/// The shards of a rank of the first `n` tensors, or why there are none.
pub open spec fn shards_of(
    listed: Listed,
    data: Seq<u8>,
    quant: Quantization,
    tp_degree: usize,
    rank: usize,
    n: nat,
) -> Result<Seq<(Seq<char>, ShardModel)>, Seq<char>>
    decreases n,
{
    if n == 0 {
        Ok(Seq::empty())
    } else {
        let (name, t) = listed[n - 1];
        match shards_of(listed, data, quant, tp_degree, rank, (n - 1) as nat) {
            Err(s) => Err(s),
            Ok(done) => if t.offset + t.nbytes > data.len() {
                Err("Missing weight "@ + name)
            } else {
                match sharding::shard_of(
                    name,
                    data.subrange(t.offset as int, t.offset + t.nbytes),
                    t.shape@,
                    quant,
                    sharding::strategy_for(name),
                    tp_degree,
                    rank,
                ) {
                    Err(s) => Err(s),
                    Ok(m) => Ok(done.push((name, m))),
                }
            },
        }
    }
}

pub open spec fn shard_views(v: Seq<(String, ShardedWeight)>) -> Seq<(Seq<char>, ShardModel)> {
    v.map_values(|e: (String, ShardedWeight)| (e.0@, e.1@))
}

proof fn lemma_shards_fail(
    listed: Listed,
    data: Seq<u8>,
    quant: Quantization,
    tp_degree: usize,
    rank: usize,
    i: nat,
    n: nat,
)
    requires
        i <= n,
        shards_of(listed, data, quant, tp_degree, rank, i) is Err,
    ensures
        shards_of(listed, data, quant, tp_degree, rank, n) == shards_of(
            listed,
            data,
            quant,
            tp_degree,
            rank,
            i,
        ),
    decreases n,
{
    if i < n {
        lemma_shards_fail(listed, data, quant, tp_degree, rank, i, (n - 1) as nat);
    }
}

/// The weights of one rank: every tensor of the store, split as its name asks
/// for.
pub fn shard_all(store: &WeightStore, quant: Quantization, tp_degree: usize, rank: usize) -> (r:
    Result<Vec<(String, ShardedWeight)>, SpeculativeError>)
    requires
        rank < tp_degree,
        forall|i: int|
            0 <= i < store.index.listed().len() ==> splittable(
                (#[trigger] store.index.listed()[i]).0,
                store.index.listed()[i].1,
                tp_degree,
            ),
    ensures
        ({
            let listed = store.index.listed();
            match shards_of(listed, store.data@, quant, tp_degree, rank, listed.len()) {
                Ok(v) => r is Ok && shard_views(r->Ok_0@) == v,
                Err(s) => r is Err && r->Err_0 is Model && r->Err_0->Model_0@ == s,
            }
        }),
{
    let mut shards: Vec<(String, ShardedWeight)> = Vec::new();
    let n: usize = store.index.len();
    let ghost listed = store.index.listed();
    let mut i: usize = 0;
    assert(shard_views(shards@) =~= Seq::<(Seq<char>, ShardModel)>::empty());
    while i < n
        invariant
            i <= n == listed.len(),
            listed == store.index.listed(),
            rank < tp_degree,
            forall|i: int|
                0 <= i < listed.len() ==> splittable(
                    (#[trigger] listed[i]).0,
                    listed[i].1,
                    tp_degree,
                ),
            shards_of(listed, store.data@, quant, tp_degree, rank, i as nat) == Ok::<
                Seq<(Seq<char>, ShardModel)>,
                Seq<char>,
            >(shard_views(shards@)),
        decreases n - i,
    {
        let (name, info) = store.index.entry(i);
        assert(splittable(listed[i as int].0, listed[i as int].1, tp_degree));
        let strategy: ShardStrategy = get_shard_strategy(name);
        let end: u128 = info.offset as u128 + info.nbytes as u128;
        if end > store.data.len() as u128 {
            proof {
                lemma_shards_fail(
                    listed,
                    store.data@,
                    quant,
                    tp_degree,
                    rank,
                    (i + 1) as nat,
                    listed.len(),
                );
            }
            return Err(SpeculativeError::Model(joined("Missing weight ", name)));
        }
        let data: &[u8] = vstd::slice::slice_subrange(
            store.data.as_slice(),
            info.offset as usize,
            end as usize,
        );
        match shard_weight(
            name,
            data,
            info.shape.as_slice(),
            quant,
            strategy,
            tp_degree,
            rank,
        ) {
            Err(e) => {
                proof {
                    lemma_shards_fail(
                        listed,
                        store.data@,
                        quant,
                        tp_degree,
                        rank,
                        (i + 1) as nat,
                        listed.len(),
                    );
                }
                return Err(e);
            },
            Ok(shard) => {
                let ghost before = shards@;
                shards.push((String::from_str(name), shard));
                assert(shard_views(shards@) =~= shard_views(before).push((name@, shard@)));
            },
        }
        i = i + 1;
    }
    Ok(shards)
}

/// What a device gets: the dimensions of its shard, and its part of every weight.
pub type RankModel = (MetaModel, Seq<(Seq<char>, ShardModel)>);

/// What the first `n` devices get, or why they get nothing.
pub open spec fn ranks_of(
    meta: MetaModel,
    listed: Listed,
    data: Seq<u8>,
    devices: usize,
    n: nat,
) -> Result<Seq<RankModel>, Seq<char>>
    decreases n,
{
    if n == 0 {
        Ok(Seq::empty())
    } else {
        match ranks_of(meta, listed, data, devices, (n - 1) as nat) {
            Err(s) => Err(s),
            Ok(done) => match shards_of(
                listed,
                data,
                meta.quantization,
                devices,
                (n - 1) as usize,
                listed.len(),
            ) {
                Err(s) => Err(s),
                Ok(shards) => Ok(done.push((shard_dims(meta, devices), shards))),
            },
        }
    }
}

pub open spec fn rank_views(v: Seq<(ModelMeta, Vec<(String, ShardedWeight)>)>) -> Seq<RankModel> {
    v.map_values(|e: (ModelMeta, Vec<(String, ShardedWeight)>)| (e.0@, shard_views(e.1@)))
}

proof fn lemma_ranks_fail(
    meta: MetaModel,
    listed: Listed,
    data: Seq<u8>,
    devices: usize,
    i: nat,
    n: nat,
)
    requires
        i <= n,
        ranks_of(meta, listed, data, devices, i) is Err,
    ensures
        ranks_of(meta, listed, data, devices, n) == ranks_of(meta, listed, data, devices, i),
    decreases n,
{
    if i < n {
        lemma_ranks_fail(meta, listed, data, devices, i, (n - 1) as nat);
    }
}

// ── The pass ─────────────────────────────────────────────────────────────────

/// A step of a pass over all devices.
#[derive(Debug, Clone, Copy, PartialEq, Eq, Structural)]
pub enum TpStep {
    /// Looks up the embedding of the token.
    Embed { rank: usize, token: u32, n_embd: u32 },
    /// Attention and feed-forward network of a layer, without the residuals.
    Layer { rank: usize, layer: usize },
    /// Adds what the one device computed to its hidden state.
    AddLocal { rank: usize, attn: bool },
    Commit { rank: usize },
    Wait { rank: usize },
    /// Sums what the devices computed.
    Sum { attn: bool },
    /// Adds the sum to the hidden state of a device, in a new command buffer.
    AddSum { rank: usize },
    FinalNorm { rank: usize },
    /// The logits of a device's part of the vocabulary.
    Logits { rank: usize, rows: usize },
    /// Copies the logits of a device to their place.
    Gather { rank: usize, at: usize, len: usize },
}

/// What the devices computed is summed and added on every one of them. One
/// device alone just adds its own.
pub open spec fn reduce_steps(tp_degree: usize, attn: bool) -> Seq<TpStep> {
    let n = tp_degree as nat;
    if tp_degree <= 1 {
        Seq::new(n, |r: int| TpStep::AddLocal { rank: r as usize, attn })
    } else {
        Seq::new(n, |r: int| TpStep::Commit { rank: r as usize }) + Seq::new(
            n,
            |r: int| TpStep::Wait { rank: r as usize },
        ) + seq![TpStep::Sum { attn }] + Seq::new(
            n,
            |r: int| TpStep::AddSum { rank: r as usize },
        )
    }
}

/// The embedding and the first `layers` layers.
pub open spec fn layer_steps(
    meta: MetaModel,
    tp_degree: usize,
    token: TokenId,
    layers: nat,
) -> Seq<TpStep>
    decreases layers,
{
    if layers == 0 {
        Seq::new(
            tp_degree as nat,
            |r: int|
                TpStep::Embed { rank: r as usize, token: token as u32, n_embd: meta.n_embd as u32 },
        )
    } else {
        layer_steps(meta, tp_degree, token, (layers - 1) as nat) + Seq::new(
            tp_degree as nat,
            |r: int| TpStep::Layer { rank: r as usize, layer: (layers - 1) as usize },
        ) + reduce_steps(tp_degree, true) + reduce_steps(tp_degree, false)
    }
}

/// The logits of the first `n` devices.
pub open spec fn logit_steps(rows: usize, n: nat) -> Seq<TpStep>
    decreases n,
{
    if n == 0 {
        Seq::empty()
    } else {
        let rank = (n - 1) as usize;
        logit_steps(rows, (n - 1) as nat) + seq![
            TpStep::FinalNorm { rank },
            TpStep::Logits { rank, rows },
            TpStep::Commit { rank },
        ]
    }
}

/// The logits of all devices put together.
pub open spec fn gather_steps(rows: usize, tp_degree: usize) -> Seq<TpStep> {
    Seq::new(tp_degree as nat, |r: int| TpStep::Wait { rank: r as usize }) + Seq::new(
        tp_degree as nat,
        |r: int| TpStep::Gather { rank: r as usize, at: (r * rows) as usize, len: rows },
    )
}

/// All steps of a pass.
pub open spec fn run_steps(meta: MetaModel, tp_degree: usize, token: TokenId) -> Seq<TpStep> {
    let rows = meta.n_vocab / tp_degree;
    layer_steps(meta, tp_degree, token, meta.n_layer as nat) + logit_steps(rows, tp_degree as nat)
        + gather_steps(rows, tp_degree)
}

fn push_reduce(steps: &mut Vec<TpStep>, tp_degree: usize, attn: bool)
    ensures
        final(steps)@ == old(steps)@ + reduce_steps(tp_degree, attn),
{
    let ghost start = steps@;
    if tp_degree <= 1 {
        let mut r: usize = 0;
        while r < tp_degree
            invariant
                r <= tp_degree,
                steps@ == start + Seq::new(
                    r as nat,
                    |r: int| TpStep::AddLocal { rank: r as usize, attn },
                ),
            decreases tp_degree - r,
        {
            steps.push(TpStep::AddLocal { rank: r, attn });
            r = r + 1;
            assert(steps@ =~= start + Seq::new(
                r as nat,
                |r: int| TpStep::AddLocal { rank: r as usize, attn },
            ));
        }
        return;
    }
    push_commits(steps, tp_degree);
    push_waits(steps, tp_degree);
    steps.push(TpStep::Sum { attn });
    let ghost middle = steps@;
    let mut r: usize = 0;
    while r < tp_degree
        invariant
            r <= tp_degree,
            steps@ == middle + Seq::new(r as nat, |r: int| TpStep::AddSum { rank: r as usize }),
        decreases tp_degree - r,
    {
        steps.push(TpStep::AddSum { rank: r });
        r = r + 1;
        assert(steps@ =~= middle + Seq::new(
            r as nat,
            |r: int| TpStep::AddSum { rank: r as usize },
        ));
    }
    assert(steps@ =~= start + reduce_steps(tp_degree, attn));
}

fn push_commits(steps: &mut Vec<TpStep>, tp_degree: usize)
    ensures
        final(steps)@ == old(steps)@ + Seq::new(
            tp_degree as nat,
            |r: int| TpStep::Commit { rank: r as usize },
        ),
{
    let ghost start = steps@;
    let mut r: usize = 0;
    while r < tp_degree
        invariant
            r <= tp_degree,
            steps@ == start + Seq::new(r as nat, |r: int| TpStep::Commit { rank: r as usize }),
        decreases tp_degree - r,
    {
        steps.push(TpStep::Commit { rank: r });
        r = r + 1;
        assert(steps@ =~= start + Seq::new(
            r as nat,
            |r: int| TpStep::Commit { rank: r as usize },
        ));
    }
}

fn push_waits(steps: &mut Vec<TpStep>, tp_degree: usize)
    ensures
        final(steps)@ == old(steps)@ + Seq::new(
            tp_degree as nat,
            |r: int| TpStep::Wait { rank: r as usize },
        ),
{
    let ghost start = steps@;
    let mut r: usize = 0;
    while r < tp_degree
        invariant
            r <= tp_degree,
            steps@ == start + Seq::new(r as nat, |r: int| TpStep::Wait { rank: r as usize }),
        decreases tp_degree - r,
    {
        steps.push(TpStep::Wait { rank: r });
        r = r + 1;
        assert(steps@ =~= start + Seq::new(r as nat, |r: int| TpStep::Wait { rank: r as usize }));
    }
}

/// Orchestrates multiple Metal GPU shards for Tensor Parallel inference.
#[derive(Debug, Clone)]
pub struct LlamaTensorParallelModel {
    pub meta: ModelMeta,
    pub tp_degree: usize,
}

impl LlamaTensorParallelModel {
    /// A model on all of the devices that were found.
    pub fn new(meta: ModelMeta, devices: usize) -> (r: Result<Self, SpeculativeError>)
        ensures
            r is Ok <==> devices > 0,
            r is Ok ==> r->Ok_0.meta == meta && r->Ok_0.tp_degree == devices,
            r is Err ==> r->Err_0 is Model && r->Err_0->Model_0@ == "No Metal devices found"@,
    {
        if devices == 0 {
            return Err(SpeculativeError::Model(String::from_str("No Metal devices found")));
        }
        Ok(LlamaTensorParallelModel { meta, tp_degree: devices })
    }

    /// What each device gets, rank by rank: the dimensions of its shard, and its part
    /// of every weight of the store. The first weight that cannot be split ends it.
    pub fn plan(meta: &ModelMeta, store: &WeightStore, devices: usize) -> (r: Result<
        Vec<(ModelMeta, Vec<(String, ShardedWeight)>)>,
        SpeculativeError,
    >)
        requires
            devices > 0 ==> forall|i: int|
                0 <= i < store.index.listed().len() ==> splittable(
                    (#[trigger] store.index.listed()[i]).0,
                    store.index.listed()[i].1,
                    devices,
                ),
        ensures
            devices == 0 ==> r is Err && r->Err_0 is Model && r->Err_0->Model_0@
                == "No Metal devices found"@,
            devices > 0 ==> match ranks_of(
                meta@,
                store.index.listed(),
                store.data@,
                devices,
                devices as nat,
            ) {
                Ok(v) => r is Ok && rank_views(r->Ok_0@) == v,
                Err(s) => r is Err && r->Err_0 is Model && r->Err_0->Model_0@ == s,
            },
    {
        if devices == 0 {
            return Err(SpeculativeError::Model(String::from_str("No Metal devices found")));
        }
        let ghost listed = store.index.listed();
        let mut ranks: Vec<(ModelMeta, Vec<(String, ShardedWeight)>)> = Vec::new();
        let mut rank: usize = 0;
        assert(rank_views(ranks@) =~= Seq::<RankModel>::empty());
        while rank < devices
            invariant
                rank <= devices,
                devices > 0,
                listed == store.index.listed(),
                forall|i: int|
                    0 <= i < store.index.listed().len() ==> splittable(
                        (#[trigger] store.index.listed()[i]).0,
                        store.index.listed()[i].1,
                        devices,
                    ),
                ranks_of(meta@, listed, store.data@, devices, rank as nat) == Ok::<
                    Seq<RankModel>,
                    Seq<char>,
                >(rank_views(ranks@)),
            decreases devices - rank,
        {
            let own: ModelMeta = shard_meta(meta, devices);
            match shard_all(store, meta.quantization, devices, rank) {
                Err(e) => {
                    proof {
                        lemma_ranks_fail(
                            meta@,
                            listed,
                            store.data@,
                            devices,
                            (rank + 1) as nat,
                            devices as nat,
                        );
                    }
                    return Err(e);
                },
                Ok(shards) => {
                    let ghost before = ranks@;
                    ranks.push((own, shards));
                    assert(rank_views(ranks@) =~= rank_views(before).push(
                        (own@, shard_views(shards@)),
                    ));
                },
            }
            rank = rank + 1;
        }
        Ok(ranks)
    }

    /// Lists the steps of a pass for a token.
    pub fn run(&self, token: TokenId) -> (steps: Vec<TpStep>)
        requires
            self.tp_degree > 0,
        ensures
            steps@ == run_steps(self.meta@, self.tp_degree, token),
    {
        let n: usize = self.tp_degree;
        let ghost meta = self.meta@;
        let mut steps: Vec<TpStep> = Vec::new();
        let mut r: usize = 0;
        while r < n
            invariant
                r <= n,
                meta == self.meta@,
                steps@ == Seq::new(
                    r as nat,
                    |r: int|
                        TpStep::Embed {
                            rank: r as usize,
                            token: token as u32,
                            n_embd: meta.n_embd as u32,
                        },
                ),
            decreases n - r,
        {
            steps.push(
                TpStep::Embed { rank: r, token: token as u32, n_embd: self.meta.n_embd as u32 },
            );
            r = r + 1;
            assert(steps@ =~= Seq::new(
                r as nat,
                |r: int|
                    TpStep::Embed {
                        rank: r as usize,
                        token: token as u32,
                        n_embd: meta.n_embd as u32,
                    },
            ));
        }
        let mut l: usize = 0;
        while l < self.meta.n_layer
            invariant
                l <= self.meta.n_layer,
                meta == self.meta@,
                n == self.tp_degree,
                steps@ == layer_steps(meta, n, token, l as nat),
            decreases self.meta.n_layer - l,
        {
            let ghost lower = steps@;
            let mut r: usize = 0;
            while r < n
                invariant
                    r <= n,
                    steps@ == lower + Seq::new(
                        r as nat,
                        |r: int| TpStep::Layer { rank: r as usize, layer: l },
                    ),
                decreases n - r,
            {
                steps.push(TpStep::Layer { rank: r, layer: l });
                r = r + 1;
                assert(steps@ =~= lower + Seq::new(
                    r as nat,
                    |r: int| TpStep::Layer { rank: r as usize, layer: l },
                ));
            }
            push_reduce(&mut steps, n, true);
            push_reduce(&mut steps, n, false);
            l = l + 1;
            proof {
                let one = Seq::new(
                    n as nat,
                    |r: int| TpStep::Layer { rank: r as usize, layer: (l - 1) as usize },
                );
                assert(one =~= Seq::new(
                    n as nat,
                    |r: int|
                        TpStep::Layer { rank: r as usize, layer: (l as nat - 1) as usize },
                ));
                assert(steps@ =~= layer_steps(meta, n, token, l as nat));
            }
        }
        let rows: usize = self.meta.n_vocab / n;
        let ghost body = steps@;
        let mut r: usize = 0;
        assert(steps@ =~= body + logit_steps(rows, 0));
        while r < n
            invariant
                r <= n,
                steps@ == body + logit_steps(rows, r as nat),
            decreases n - r,
        {
            let ghost before = steps@;
            steps.push(TpStep::FinalNorm { rank: r });
            steps.push(TpStep::Logits { rank: r, rows });
            steps.push(TpStep::Commit { rank: r });
            r = r + 1;
            assert(steps@ =~= body + logit_steps(rows, r as nat));
        }
        push_waits(&mut steps, n);
        let ghost middle = steps@;
        let mut r: usize = 0;
        while r < n
            invariant
                r <= n,
                n > 0,
                rows == self.meta.n_vocab / n,
                steps@ == middle + Seq::new(
                    r as nat,
                    |r: int|
                        TpStep::Gather { rank: r as usize, at: (r * rows) as usize, len: rows },
                ),
            decreases n - r,
        {
            proof {
                gathered_parts_are_apart(self.meta.n_vocab as nat, n as nat, r as nat);
            }
            steps.push(TpStep::Gather { rank: r, at: r * rows, len: rows });
            r = r + 1;
            assert(steps@ =~= middle + Seq::new(
                r as nat,
                |r: int| TpStep::Gather { rank: r as usize, at: (r * rows) as usize, len: rows },
            ));
        }
        assert(steps@ =~= run_steps(meta, n, token));
        steps
    }
}

/// The parts of the vocabulary lie after each other: each ends where the next
/// one starts, all of them within the vocabulary. Where the devices divide the
/// vocabulary evenly nothing is left over.
pub proof fn gathered_parts_are_apart(n_vocab: nat, tp_degree: nat, rank: nat)
    requires
        tp_degree > 0,
        rank < tp_degree,
    ensures
        ({
            let rows = n_vocab / tp_degree;
            &&& rank * rows + rows == (rank + 1) * rows
            &&& (rank + 1) * rows <= n_vocab
            &&& n_vocab % tp_degree == 0 ==> tp_degree * rows == n_vocab
        }),
{
    let rows = n_vocab / tp_degree;
    vstd::arithmetic::div_mod::lemma_fundamental_div_mod(n_vocab as int, tp_degree as int);
    assert(rank * rows + rows == (rank + 1) * rows) by (nonlinear_arith);
    assert((rank + 1) * rows <= tp_degree * rows) by (nonlinear_arith)
        requires
            rank + 1 <= tp_degree,
    ;
}

/// A device has its share of the heads and of the feed-forward network and everything
/// else in full; where the shares are even, nothing is left over.
pub proof fn shards_share_heads_and_network(meta: MetaModel, tp_degree: usize)
    requires
        tp_degree > 0,
    ensures
        ({
            let d = shard_dims(meta, tp_degree);
            &&& d.n_head * tp_degree <= meta.n_head < d.n_head * tp_degree + tp_degree
            &&& d.n_head_kv * tp_degree <= meta.n_head_kv < d.n_head_kv * tp_degree + tp_degree
            &&& d.n_ff * tp_degree <= meta.n_ff < d.n_ff * tp_degree + tp_degree
            &&& meta.n_head % tp_degree == 0 ==> d.n_head * tp_degree == meta.n_head
            &&& meta.n_head_kv % tp_degree == 0 ==> d.n_head_kv * tp_degree == meta.n_head_kv
            &&& meta.n_ff % tp_degree == 0 ==> d.n_ff * tp_degree == meta.n_ff
            &&& d.arch == meta.arch && d.quantization == meta.quantization
            &&& d.n_vocab == meta.n_vocab && d.n_embd == meta.n_embd && d.n_layer == meta.n_layer
            &&& d.n_ctx == meta.n_ctx && d.head_dim == meta.head_dim
            &&& d.rope_freq_base == meta.rope_freq_base && d.norm_eps == meta.norm_eps
        }),
{
    let t = tp_degree as int;
    let d = shard_dims(meta, tp_degree);
    vstd::arithmetic::div_mod::lemma_fundamental_div_mod(meta.n_head as int, t);
    vstd::arithmetic::div_mod::lemma_fundamental_div_mod(meta.n_head_kv as int, t);
    vstd::arithmetic::div_mod::lemma_fundamental_div_mod(meta.n_ff as int, t);
    assert(d.n_head * t == t * d.n_head) by (nonlinear_arith);
    assert(d.n_head_kv * t == t * d.n_head_kv) by (nonlinear_arith);
    assert(d.n_ff * t == t * d.n_ff) by (nonlinear_arith);
}

proof fn lemma_shards_at(
    listed: Listed,
    data: Seq<u8>,
    quant: Quantization,
    tp_degree: usize,
    rank: usize,
    n: nat,
    i: int,
)
    requires
        n <= listed.len(),
        0 <= i < n,
        shards_of(listed, data, quant, tp_degree, rank, n) is Ok,
    ensures
        ({
            let v = shards_of(listed, data, quant, tp_degree, rank, n)->Ok_0;
            let t = listed[i].1;
            let s = sharding::shard_of(
                listed[i].0,
                data.subrange(t.offset as int, t.offset + t.nbytes),
                t.shape@,
                quant,
                sharding::strategy_for(listed[i].0),
                tp_degree,
                rank,
            );
            &&& v.len() == n
            &&& t.offset + t.nbytes <= data.len()
            &&& s is Ok
            &&& v[i] == (listed[i].0, s->Ok_0)
        }),
    decreases n,
{
    if n > 1 {
        lemma_shards_at(
            listed,
            data,
            quant,
            tp_degree,
            rank,
            (n - 1) as nat,
            if i < n - 1 {
                i
            } else {
                0
            },
        );
    } else {
        assert(shards_of(listed, data, quant, tp_degree, rank, 0) == Ok::<
            Seq<(Seq<char>, ShardModel)>,
            Seq<char>,
        >(Seq::empty()));
    }
}

/// Every device gets its own part of every weight: device `k` has, under the name of
/// each tensor and in their order, what splitting the tensor's bytes as its name asks
/// for gives rank `k`.
pub proof fn devices_get_their_own_parts(
    meta: MetaModel,
    listed: Listed,
    data: Seq<u8>,
    devices: usize,
    n: nat,
    k: int,
    i: int,
)
    requires
        n <= devices,
        0 <= k < n,
        0 <= i < listed.len(),
        ranks_of(meta, listed, data, devices, n) is Ok,
    ensures
        ({
            let ranks = ranks_of(meta, listed, data, devices, n)->Ok_0;
            let t = listed[i].1;
            let part = sharding::shard_of(
                listed[i].0,
                data.subrange(t.offset as int, t.offset + t.nbytes),
                t.shape@,
                meta.quantization,
                sharding::strategy_for(listed[i].0),
                devices,
                k as usize,
            );
            &&& ranks.len() == n
            &&& ranks[k].0 == shard_dims(meta, devices)
            &&& ranks[k].1.len() == listed.len()
            &&& ranks[k].1[i].0 == listed[i].0
            &&& part is Ok
            &&& ranks[k].1[i].1 == part->Ok_0
        }),
    decreases n,
{
    let rank = (n - 1) as usize;
    let prior = ranks_of(meta, listed, data, devices, (n - 1) as nat);
    lemma_ranks_len(meta, listed, data, devices, (n - 1) as nat);
    if k < n - 1 {
        devices_get_their_own_parts(meta, listed, data, devices, (n - 1) as nat, k, i);
        assert(ranks_of(meta, listed, data, devices, n)->Ok_0[k] == prior->Ok_0[k]);
    } else {
        lemma_shards_at(
            listed,
            data,
            meta.quantization,
            devices,
            rank,
            listed.len(),
            i,
        );
    }
}

proof fn lemma_ranks_len(
    meta: MetaModel,
    listed: Listed,
    data: Seq<u8>,
    devices: usize,
    n: nat,
)
    ensures
        ranks_of(meta, listed, data, devices, n) matches Ok(v) ==> v.len() == n,
    decreases n,
{
    if n > 0 {
        lemma_ranks_len(meta, listed, data, devices, (n - 1) as nat);
    }
}

// ── The order of a pass ──────────────────────────────────────────────────────

/// The steps of one layer on all devices.
spec fn one_layer(tp_degree: usize, layer: usize) -> Seq<TpStep> {
    Seq::new(tp_degree as nat, |r: int| TpStep::Layer { rank: r as usize, layer }) + reduce_steps(
        tp_degree,
        true,
    ) + reduce_steps(tp_degree, false)
}

spec fn layer_len(tp_degree: usize) -> int {
    if tp_degree <= 1 {
        3 * tp_degree
    } else {
        7 * tp_degree + 2
    }
}

proof fn lemma_layer_at(
    meta: MetaModel,
    tp_degree: usize,
    token: TokenId,
    layers: nat,
    l: nat,
    j: int,
)
    requires
        l < layers <= usize::MAX,
        0 <= j < layer_len(tp_degree),
    ensures
        layer_steps(meta, tp_degree, token, layers).len() == tp_degree + layers * layer_len(
            tp_degree,
        ),
        0 <= tp_degree + l * layer_len(tp_degree) + j < layer_steps(
            meta,
            tp_degree,
            token,
            layers,
        ).len(),
        layer_steps(meta, tp_degree, token, layers)[tp_degree + l * layer_len(tp_degree) + j]
            == one_layer(tp_degree, l as usize)[j],
    decreases layers,
{
    let b = layer_len(tp_degree);
    let below = layer_steps(meta, tp_degree, token, (layers - 1) as nat);
    let last = one_layer(tp_degree, (layers - 1) as usize);
    lemma_layers_len(meta, tp_degree, token, (layers - 1) as nat);
    assert(layer_steps(meta, tp_degree, token, layers) =~= below + last);
    assert((layers - 1) * b + b == layers * b) by (nonlinear_arith);
    assert(0 <= l * b) by (nonlinear_arith)
        requires
            b >= 0,
    ;
    if l < layers - 1 {
        lemma_layer_at(meta, tp_degree, token, (layers - 1) as nat, l, j);
    }
}

proof fn lemma_layers_len(meta: MetaModel, tp_degree: usize, token: TokenId, layers: nat)
    ensures
        layer_steps(meta, tp_degree, token, layers).len() == tp_degree + layers * layer_len(
            tp_degree,
        ),
    decreases layers,
{
    let b = layer_len(tp_degree);
    if layers > 0 {
        lemma_layers_len(meta, tp_degree, token, (layers - 1) as nat);
        assert((layers - 1) * b + b == layers * b) by (nonlinear_arith);
    } else {
        assert(layers * b == 0) by (nonlinear_arith)
            requires
                layers == 0,
        ;
    }
}

/// On several devices a layer goes in this order: every device computes it, then what
/// attention gave is summed and added on every device, then what the feed-forward
/// network gave. A sum is made once all devices have committed and have been waited
/// for.
pub proof fn layers_are_summed_over_all_devices(
    meta: MetaModel,
    tp_degree: usize,
    token: TokenId,
    l: usize,
    rank: usize,
)
    requires
        tp_degree > 1,
        l < meta.n_layer,
        rank < tp_degree,
    ensures
        ({
            let all = run_steps(meta, tp_degree, token);
            let n = tp_degree as int;
            let at = n + l * (7 * n + 2);
            let attn = at + n;
            let mlp = at + 4 * n + 1;
            &&& all[at + rank] == (TpStep::Layer { rank, layer: l })
            &&& all[attn + rank] == (TpStep::Commit { rank })
            &&& all[attn + n + rank] == (TpStep::Wait { rank })
            &&& all[attn + 2 * n] == (TpStep::Sum { attn: true })
            &&& all[attn + 2 * n + 1 + rank] == (TpStep::AddSum { rank })
            &&& all[mlp + rank] == (TpStep::Commit { rank })
            &&& all[mlp + n + rank] == (TpStep::Wait { rank })
            &&& all[mlp + 2 * n] == (TpStep::Sum { attn: false })
            &&& all[mlp + 2 * n + 1 + rank] == (TpStep::AddSum { rank })
        }),
{
    let n = tp_degree as int;
    let layers = meta.n_layer as nat;
    let r = rank as int;
    let block = one_layer(tp_degree, l);
    assert(layer_len(tp_degree) == 7 * n + 2);
    lemma_layer_at(meta, tp_degree, token, layers, l as nat, r);
    lemma_layer_at(meta, tp_degree, token, layers, l as nat, n + r);
    lemma_layer_at(meta, tp_degree, token, layers, l as nat, 2 * n + r);
    lemma_layer_at(meta, tp_degree, token, layers, l as nat, 3 * n);
    lemma_layer_at(meta, tp_degree, token, layers, l as nat, 3 * n + 1 + r);
    lemma_layer_at(meta, tp_degree, token, layers, l as nat, 4 * n + 1 + r);
    lemma_layer_at(meta, tp_degree, token, layers, l as nat, 5 * n + 1 + r);
    lemma_layer_at(meta, tp_degree, token, layers, l as nat, 6 * n + 1);
    lemma_layer_at(meta, tp_degree, token, layers, l as nat, 6 * n + 2 + r);
    assert(block[r] == (TpStep::Layer { rank, layer: l }));
    assert(block[n + r] == reduce_steps(tp_degree, true)[r]);
    assert(block[2 * n + r] == reduce_steps(tp_degree, true)[n + r]);
    assert(block[3 * n] == reduce_steps(tp_degree, true)[2 * n]);
    assert(block[3 * n + 1 + r] == reduce_steps(tp_degree, true)[2 * n + 1 + r]);
    assert(block[4 * n + 1 + r] == reduce_steps(tp_degree, false)[r]);
    assert(block[5 * n + 1 + r] == reduce_steps(tp_degree, false)[n + r]);
    assert(block[6 * n + 1] == reduce_steps(tp_degree, false)[2 * n]);
    assert(block[6 * n + 2 + r] == reduce_steps(tp_degree, false)[2 * n + 1 + r]);
}

/// One device alone adds what attention gave and then what the feed-forward network
/// gave, without a sum.
pub proof fn one_device_adds_its_own(meta: MetaModel, token: TokenId, l: usize)
    requires
        l < meta.n_layer,
    ensures
        ({
            let all = run_steps(meta, 1, token);
            let at = 1 + 3 * l;
            &&& all[at] == (TpStep::Layer { rank: 0, layer: l })
            &&& all[at + 1] == (TpStep::AddLocal { rank: 0, attn: true })
            &&& all[at + 2] == (TpStep::AddLocal { rank: 0, attn: false })
        }),
{
    let layers = meta.n_layer as nat;
    let block = one_layer(1, l);
    let b = layer_len(1);
    assert(l * b == 3 * l) by (nonlinear_arith)
        requires
            b == 3,
    ;
    lemma_layer_at(meta, 1, token, layers, l as nat, 0);
    lemma_layer_at(meta, 1, token, layers, l as nat, 1);
    lemma_layer_at(meta, 1, token, layers, l as nat, 2);
    assert(block[1] == reduce_steps(1, true)[0]);
    assert(block[2] == reduce_steps(1, false)[0]);
}

proof fn lemma_logits_at(rows: usize, n: nat, r: int)
    requires
        0 <= r < n <= usize::MAX,
    ensures
        logit_steps(rows, n).len() == 3 * n,
        logit_steps(rows, n)[3 * r] == (TpStep::FinalNorm { rank: r as usize }),
        logit_steps(rows, n)[3 * r + 1] == (TpStep::Logits { rank: r as usize, rows }),
        logit_steps(rows, n)[3 * r + 2] == (TpStep::Commit { rank: r as usize }),
    decreases n,
{
    lemma_logits_len(rows, (n - 1) as nat);
    if r < n - 1 {
        lemma_logits_at(rows, (n - 1) as nat, r);
    }
}

proof fn lemma_logits_len(rows: usize, n: nat)
    ensures
        logit_steps(rows, n).len() == 3 * n,
    decreases n,
{
    if n > 0 {
        lemma_logits_len(rows, (n - 1) as nat);
    }
}

/// A pass starts with the token's embedding on every device. It ends with the logits
/// of every device, made from its normed state and committed; after all devices have
/// been waited for, the part of each goes to its own place, the parts one after the
/// other.
pub proof fn passes_embed_and_gather_on_all_devices(
    meta: MetaModel,
    tp_degree: usize,
    token: TokenId,
    rank: usize,
)
    requires
        tp_degree > 0,
        rank < tp_degree,
    ensures
        ({
            let all = run_steps(meta, tp_degree, token);
            let n = tp_degree as int;
            let rows = meta.n_vocab / tp_degree;
            let end = all.len() as int;
            let last = end - 5 * n;
            &&& end >= 6 * n
            &&& all[rank as int] == (TpStep::Embed {
                rank,
                token: token as u32,
                n_embd: meta.n_embd as u32,
            })
            &&& all[last + 3 * rank] == (TpStep::FinalNorm { rank })
            &&& all[last + 3 * rank + 1] == (TpStep::Logits { rank, rows })
            &&& all[last + 3 * rank + 2] == (TpStep::Commit { rank })
            &&& all[end - 2 * n + rank] == (TpStep::Wait { rank })
            &&& all[end - n + rank] is Gather
            &&& all[end - n + rank]->Gather_rank == rank
            &&& all[end - n + rank]->at == rank * rows
            &&& all[end - n + rank]->len == rows
        }),
{
    let n = tp_degree as nat;
    let rows = meta.n_vocab / tp_degree;
    let body = layer_steps(meta, tp_degree, token, meta.n_layer as nat);
    let logits = logit_steps(rows, n);
    let gather = gather_steps(rows, tp_degree);
    let all = run_steps(meta, tp_degree, token);
    lemma_layers_len(meta, tp_degree, token, meta.n_layer as nat);
    lemma_logits_at(rows, n, rank as int);
    gathered_parts_are_apart(meta.n_vocab as nat, n, rank as nat);
    let b = layer_len(tp_degree);
    assert(0 <= meta.n_layer * b) by (nonlinear_arith)
        requires
            b >= 0,
    ;
    lemma_embeds_first(meta, tp_degree, token, meta.n_layer as nat, rank);
    let start = body.len() as int;
    assert(all[start + 3 * rank] == logits[3 * rank]);
    assert(all[start + 3 * rank + 1] == logits[3 * rank + 1]);
    assert(all[start + 3 * rank + 2] == logits[3 * rank + 2]);
    assert(all[start + 3 * n + rank] == gather[rank as int]);
    assert(all[start + 4 * n + rank] == gather[n + rank]);
    assert((rank as int * rows) == rank * rows);
}

proof fn lemma_embeds_first(
    meta: MetaModel,
    tp_degree: usize,
    token: TokenId,
    layers: nat,
    rank: usize,
)
    requires
        rank < tp_degree,
    ensures
        layer_steps(meta, tp_degree, token, layers).len() > rank,
        layer_steps(meta, tp_degree, token, layers)[rank as int] == (TpStep::Embed {
            rank,
            token: token as u32,
            n_embd: meta.n_embd as u32,
        }),
    decreases layers,
{
    if layers > 0 {
        lemma_embeds_first(meta, tp_degree, token, (layers - 1) as nat, rank);
    }
}


/// Every tensor that lies within the data, up to its very end, and can be split gets a
/// shard; one that reaches beyond it leaves none at all.
pub proof fn tensors_within_the_data_are_split(
    listed: Listed,
    data: Seq<u8>,
    quant: Quantization,
    tp_degree: usize,
    rank: usize,
    n: nat,
    k: int,
)
    requires
        0 <= k < n <= listed.len(),
    ensures
        listed[k].1.offset + listed[k].1.nbytes > data.len() ==> shards_of(
            listed,
            data,
            quant,
            tp_degree,
            rank,
            n,
        ) is Err,
        (forall|i: int|
            0 <= i < n ==> (#[trigger] listed[i]).1.offset + listed[i].1.nbytes <= data.len()
                && sharding::shard_of(
                listed[i].0,
                data.subrange(listed[i].1.offset as int, listed[i].1.offset + listed[i].1.nbytes),
                listed[i].1.shape@,
                quant,
                sharding::strategy_for(listed[i].0),
                tp_degree,
                rank,
            ) is Ok) ==> shards_of(listed, data, quant, tp_degree, rank, n) is Ok,
    decreases n,
{
    if n > 1 {
        let j: int = if k < n - 1 {
            k
        } else {
            0
        };
        tensors_within_the_data_are_split(
            listed,
            data,
            quant,
            tp_degree,
            rank,
            (n - 1) as nat,
            j,
        );
    }
    assert(shards_of(listed, data, quant, tp_degree, rank, 0) is Ok);
}
} // verus!
