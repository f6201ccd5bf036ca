//! The forward pass of a LLaMA model on a Metal device: which kernels run, in
//! which order, on which buffers and with which arguments.
//!
//! The device runs what is listed here; the list is made on the host.

use vstd::prelude::*;
use vstd::string::*;
use crate::metal::types::Quantization;
use crate::model_loader;
use crate::model_loader::{MetaModel, ModelMeta, WeightStore};
use crate::paged_attention::KvCacheType;
use crate::radix_cache::TokenId;
use crate::scalar::F32;
use crate::slot_manager::SlotId;
use crate::speculative::SpeculativeError;
use crate::table::Table;
use crate::text::{joined, text_with_number};

verus! {

// ── Kernels, buffers, weights ────────────────────────────────────────────────

/// A compute kernel.
#[derive(Debug, Clone, Copy, PartialEq, Eq, Structural)]
pub enum Kernel {
    MatvecF32,
    MatvecQ4,
    RmsNorm,
    Rope,
    Silu,
    VecMul,
    Softmax,
    VecAdd,
    KvUpdate,
    PagedAttention,
    KvUpdateInt8,
    PagedAttentionInt8,
    Argmax,
    AttnQk,
    AttnPv,
    EmbedLookup,
}

impl Kernel {
    pub open spec fn name(self) -> Seq<char> {
        match self {
            Kernel::MatvecF32 => "matvec_f32"@,
            Kernel::MatvecQ4 => "matvec_q4_0"@,
            Kernel::RmsNorm => "rms_norm"@,
            Kernel::Rope => "rope"@,
            Kernel::Silu => "silu"@,
            Kernel::VecMul => "vec_mul"@,
            Kernel::Softmax => "softmax"@,
            Kernel::VecAdd => "vec_add"@,
            Kernel::KvUpdate => "kv_update"@,
            Kernel::PagedAttention => "paged_attention_flash"@,
            Kernel::KvUpdateInt8 => "kv_update_int8"@,
            Kernel::PagedAttentionInt8 => "paged_attention_flash_int8"@,
            Kernel::Argmax => "argmax"@,
            Kernel::AttnQk => "attn_q_k"@,
            Kernel::AttnPv => "attn_p_v"@,
            Kernel::EmbedLookup => "embed_lookup"@,
        }
    }

    /// The name of the kernel's function.
    pub fn function_name(self) -> (s: &'static str)
        ensures
            s@ == self.name(),
    {
        match self {
            Kernel::MatvecF32 => "matvec_f32",
            Kernel::MatvecQ4 => "matvec_q4_0",
            Kernel::RmsNorm => "rms_norm",
            Kernel::Rope => "rope",
            Kernel::Silu => "silu",
            Kernel::VecMul => "vec_mul",
            Kernel::Softmax => "softmax",
            Kernel::VecAdd => "vec_add",
            Kernel::KvUpdate => "kv_update",
            Kernel::PagedAttention => "paged_attention_flash",
            Kernel::KvUpdateInt8 => "kv_update_int8",
            Kernel::PagedAttentionInt8 => "paged_attention_flash_int8",
            Kernel::Argmax => "argmax",
            Kernel::AttnQk => "attn_q_k",
            Kernel::AttnPv => "attn_p_v",
            Kernel::EmbedLookup => "embed_lookup",
        }
    }
}

/// A working buffer of the forward pass.
#[derive(Debug, Clone, Copy, PartialEq, Eq, Structural)]
pub enum Buf {
    Hidden,
    Q,
    K,
    V,
    Scores,
    AttnOut,
    AttnProj,
    MlpIn,
    MlpGate,
    MlpUp,
    MlpOut,
    Logits,
    ArgmaxOut,
    ReduceTmp,
}

impl Buf {
    pub open spec fn name(self) -> Seq<char> {
        match self {
            Buf::Hidden => "hidden_state"@,
            Buf::Q => "q"@,
            Buf::K => "k"@,
            Buf::V => "v"@,
            Buf::Scores => "attn_scores"@,
            Buf::AttnOut => "attn_out"@,
            Buf::AttnProj => "attn_out_proj"@,
            Buf::MlpIn => "mlp_in"@,
            Buf::MlpGate => "mlp_gate"@,
            Buf::MlpUp => "mlp_up"@,
            Buf::MlpOut => "mlp_out"@,
            Buf::Logits => "logits"@,
            Buf::ArgmaxOut => "argmax_out"@,
            Buf::ReduceTmp => "all_reduce_tmp"@,
        }
    }

    /// The values that a buffer holds.
    pub open spec fn values(self, meta: MetaModel) -> nat {
        match self {
            Buf::Scores => meta.n_head as nat * meta.n_ctx as nat,
            Buf::AttnOut => meta.n_head as nat * meta.head_dim as nat,
            Buf::MlpGate | Buf::MlpUp => meta.n_ff as nat,
            Buf::Logits => meta.n_vocab as nat,
            Buf::ArgmaxOut => 1,
            _ => meta.n_embd as nat,
        }
    }

    /// The name under which the buffer is kept.
    pub fn buffer_name(self) -> (s: &'static str)
        ensures
            s@ == self.name(),
    {
        match self {
            Buf::Hidden => "hidden_state",
            Buf::Q => "q",
            Buf::K => "k",
            Buf::V => "v",
            Buf::Scores => "attn_scores",
            Buf::AttnOut => "attn_out",
            Buf::AttnProj => "attn_out_proj",
            Buf::MlpIn => "mlp_in",
            Buf::MlpGate => "mlp_gate",
            Buf::MlpUp => "mlp_up",
            Buf::MlpOut => "mlp_out",
            Buf::Logits => "logits",
            Buf::ArgmaxOut => "argmax_out",
            Buf::ReduceTmp => "all_reduce_tmp",
        }
    }

    /// The bytes of the buffer, four for each value.
    pub fn bytes(self, meta: &ModelMeta) -> (n: usize)
        requires
            self.values(meta@) * 4 <= usize::MAX,
        ensures
            n == self.values(meta@) * 4,
    {
        match self {
            Buf::Scores => {
                proof {
                    assert(meta.n_head as nat * meta.n_ctx as nat == meta.n_head * meta.n_ctx);
                }
                meta.n_head * meta.n_ctx * 4
            },
            Buf::AttnOut => {
                proof {
                    assert(meta.n_head as nat * meta.head_dim as nat == meta.n_head
                        * meta.head_dim);
                }
                meta.n_head * meta.head_dim * 4
            },
            Buf::MlpGate | Buf::MlpUp => meta.n_ff * 4,
            Buf::Logits => meta.n_vocab * 4,
            Buf::ArgmaxOut => 4,
            _ => meta.n_embd * 4,
        }
    }
}

/// A weight of a layer.
#[derive(Debug, Clone, Copy, PartialEq, Eq, Structural)]
pub enum Part {
    AttentionNorm,
    Wq,
    Wk,
    Wv,
    Wo,
    FfnNorm,
    W1,
    W2,
    W3,
}

/// A weight of a model.
#[derive(Debug, Clone, Copy, PartialEq, Eq, Structural)]
pub enum Weight {
    TokenEmbd,
    OutputNorm,
    Output,
    Layer(usize, Part),
}

impl Part {
    pub open spec fn suffix(self) -> Seq<char> {
        match self {
            Part::AttentionNorm => ".attention_norm.weight"@,
            Part::Wq => ".attention.wq.weight"@,
            Part::Wk => ".attention.wk.weight"@,
            Part::Wv => ".attention.wv.weight"@,
            Part::Wo => ".attention.wo.weight"@,
            Part::FfnNorm => ".ffn_norm.weight"@,
            Part::W1 => ".feed_forward.w1.weight"@,
            Part::W2 => ".feed_forward.w2.weight"@,
            Part::W3 => ".feed_forward.w3.weight"@,
        }
    }
}

impl Weight {
    pub open spec fn name(self) -> Seq<char> {
        match self {
            Weight::TokenEmbd => "token_embd.weight"@,
            Weight::OutputNorm => "output_norm.weight"@,
            Weight::Output => "output.weight"@,
            Weight::Layer(l, part) => model_loader::layer_name(l as nat, part.suffix()),
        }
    }

    /// The name of the weight's tensor.
    pub fn tensor_name(self) -> (s: String)
        ensures
            s@ == self.name(),
    {
        match self {
            Weight::TokenEmbd => String::from_str("token_embd.weight"),
            Weight::OutputNorm => String::from_str("output_norm.weight"),
            Weight::Output => String::from_str("output.weight"),
            Weight::Layer(l, part) => {
                let suffix: &str = match part {
                    Part::AttentionNorm => ".attention_norm.weight",
                    Part::Wq => ".attention.wq.weight",
                    Part::Wk => ".attention.wk.weight",
                    Part::Wv => ".attention.wv.weight",
                    Part::Wo => ".attention.wo.weight",
                    Part::FfnNorm => ".ffn_norm.weight",
                    Part::W1 => ".feed_forward.w1.weight",
                    Part::W2 => ".feed_forward.w2.weight",
                    Part::W3 => ".feed_forward.w3.weight",
                };
                text_with_number("layers.", l as u64, suffix)
            },
        }
    }
}

/// The weights that the forward pass looks for are the tensors that a complete
/// model has.
pub proof fn layer_weights_are_expected(meta: MetaModel, l: nat, part: Part)
    requires
        l <= usize::MAX,
    ensures
        exists|i: int|
            0 <= i < model_loader::layer_expected(meta, l).len()
                && #[trigger] model_loader::layer_expected(meta, l)[i].name == Weight::Layer(
                l as usize,
                part,
            ).name(),
{
    let all = model_loader::layer_expected(meta, l);
    let i: int = match part {
        Part::AttentionNorm => 0,
        Part::Wq => 1,
        Part::Wk => 2,
        Part::Wv => 3,
        Part::Wo => 4,
        Part::FfnNorm => 5,
        Part::W1 => 6,
        Part::W2 => 7,
        Part::W3 => 8,
    };
    assert(all[i].name == Weight::Layer(l as usize, part).name());
}

// ── Operations ───────────────────────────────────────────────────────────────

/// What the attention kernels are told of the cache.
#[derive(Debug, Clone, Copy, PartialEq, Eq, Structural)]
pub struct CacheArgs {
    pub slot: u32,
    pub max_pages: u32,
    pub block_size: u32,
    pub n_head_kv: u32,
    pub head_dim: u32,
    pub pos: u32,
}

/// One step of a forward pass. `threads` is the width of the grid.
#[derive(Debug, Clone, Copy)]
pub enum Op {
    /// Copies the embedding of a token into the hidden state: `count` values of
    /// the embedding weight from value `from` on.
    CopyEmbedding { from: usize, count: usize },
    RmsNorm { out: Buf, input: Buf, weight: Weight, eps: F32, n: u32, threads: usize },
    Matvec { kernel: Kernel, out: Buf, weight: Weight, x: Buf, rows: u32, cols: u32, threads: usize },
    /// Rotates queries and keys by their position.
    Rope { pos: u32, head_dim: u32, base: F32, threads: usize },
    /// Stores keys and values in the cache, `offset` bytes into the pools.
    KvUpdate { kernel: Kernel, offset: usize, cache: CacheArgs, threads: usize },
    /// Attention in one kernel, over `n_ctx` positions.
    PagedAttention { kernel: Kernel, cache: CacheArgs, n_ctx: u32, n_head: u32, threads: usize },
    /// The scores of the queries against the keys.
    AttnScores { offset: usize, cache: CacheArgs, n_ctx: u32, threads: usize },
    Softmax { n_scores: u32, threads: usize },
    /// The values weighed by the scores.
    AttnValues { offset: usize, cache: CacheArgs, n_ctx: u32, threads: usize },
    VecAdd { to: Buf, from: Buf, threads: usize },
    Silu { buf: Buf, threads: usize },
    VecMul { to: Buf, by: Buf, threads: usize },
}

impl Op {
    /// The kernel that a step runs; copying needs none.
    pub open spec fn kernel(self) -> Option<Kernel> {
        match self {
            Op::CopyEmbedding { .. } => None,
            Op::RmsNorm { .. } => Some(Kernel::RmsNorm),
            Op::Matvec { kernel, .. } => Some(kernel),
            Op::Rope { .. } => Some(Kernel::Rope),
            Op::KvUpdate { kernel, .. } => Some(kernel),
            Op::PagedAttention { kernel, .. } => Some(kernel),
            Op::AttnScores { .. } => Some(Kernel::AttnQk),
            Op::Softmax { .. } => Some(Kernel::Softmax),
            Op::AttnValues { .. } => Some(Kernel::AttnPv),
            Op::VecAdd { .. } => Some(Kernel::VecAdd),
            Op::Silu { .. } => Some(Kernel::Silu),
            Op::VecMul { .. } => Some(Kernel::VecMul),
        }
    }
}

/// How attention is carried out.
#[derive(Debug, Clone, Copy, PartialEq, Eq, Structural)]
pub enum Style {
    /// One kernel for all of attention, on a cache of any format; weights may
    /// be quantized.
    Fused,
    /// Scores, softmax and values in a kernel each, on a cache of full
    /// precision with a stretch of the pools for every layer.
    Stepwise,
}

/// What a forward pass is run for.
#[derive(Debug, Clone, Copy, PartialEq, Eq, Structural)]
pub struct ForwardArgs {
    pub token: TokenId,
    pub pos: usize,
    pub slot: SlotId,
    pub max_pages: usize,
    pub block_size: usize,
    pub kv_type: KvCacheType,
    pub style: Style,
}

/// The kernel of matrix-vector products.
pub open spec fn matvec_kernel(meta: MetaModel, style: Style) -> Kernel {
    if style is Fused && meta.quantization is Q4_0 {
        Kernel::MatvecQ4
    } else {
        Kernel::MatvecF32
    }
}

pub open spec fn norm_op(meta: MetaModel, out: Buf, input: Buf, weight: Weight) -> Op {
    Op::RmsNorm {
        out,
        input,
        weight,
        eps: meta.norm_eps,
        n: meta.n_embd as u32,
        threads: meta.n_embd,
    }
}

pub open spec fn matvec_op(
    meta: MetaModel,
    style: Style,
    out: Buf,
    weight: Weight,
    x: Buf,
    rows: usize,
    cols: usize,
) -> Op {
    Op::Matvec {
        kernel: matvec_kernel(meta, style),
        out,
        weight,
        x,
        rows: rows as u32,
        cols: cols as u32,
        threads: rows,
    }
}

/// The steps, where the weight is there.
pub open spec fn given(has: Set<Seq<char>>, weight: Weight, ops: Seq<Op>) -> Seq<Op> {
    if has.contains(weight.name()) {
        ops
    } else {
        Seq::empty()
    }
}

/// The width of keys and values.
pub open spec fn kv_width(meta: MetaModel) -> nat {
    meta.n_head_kv as nat * meta.head_dim as nat
}

pub open spec fn cache_args(meta: MetaModel, a: ForwardArgs) -> CacheArgs {
    CacheArgs {
        slot: a.slot.0,
        max_pages: a.max_pages as u32,
        block_size: a.block_size as u32,
        n_head_kv: meta.n_head_kv as u32,
        head_dim: meta.head_dim as u32,
        pos: a.pos as u32,
    }
}

/// The bytes of the pools that a layer takes in stepwise attention.
pub open spec fn layer_stretch(meta: MetaModel, a: ForwardArgs) -> nat {
    a.max_pages as nat * a.block_size as nat * kv_width(meta) * 4
}

/// The norm and the projections of a layer.
pub open spec fn projection_ops(
    meta: MetaModel,
    has: Set<Seq<char>>,
    a: ForwardArgs,
    l: usize,
) -> Seq<Op> {
    let n = meta.n_embd;
    let kv = kv_width(meta) as usize;
    let norm = Weight::Layer(l, Part::AttentionNorm);
    let wq = Weight::Layer(l, Part::Wq);
    let wk = Weight::Layer(l, Part::Wk);
    let wv = Weight::Layer(l, Part::Wv);
    given(has, norm, seq![norm_op(meta, Buf::Hidden, Buf::Hidden, norm)])
        + given(has, wq, seq![matvec_op(meta, a.style, Buf::Q, wq, Buf::Hidden, n, n)])
        + given(has, wk, seq![matvec_op(meta, a.style, Buf::K, wk, Buf::Hidden, kv, n)])
        + given(has, wv, seq![matvec_op(meta, a.style, Buf::V, wv, Buf::Hidden, kv, n)])
}

/// The rotation of a layer.
pub open spec fn rope_op(meta: MetaModel, a: ForwardArgs) -> Op {
    Op::Rope {
        pos: a.pos as u32,
        head_dim: meta.head_dim as u32,
        base: meta.rope_freq_base,
        threads: ((meta.n_head + meta.n_head_kv) as nat * meta.head_dim as nat / 2) as usize,
    }
}

/// The cache and the attention of a layer.
pub open spec fn core_ops(meta: MetaModel, a: ForwardArgs, l: usize) -> Seq<Op> {
    let kv = kv_width(meta) as usize;
    let cache = cache_args(meta, a);
    let offset = (l as nat * layer_stretch(meta, a)) as usize;
    match a.style {
        Style::Fused => seq![
            Op::KvUpdate {
                kernel: if a.kv_type is Fp32 {
                    Kernel::KvUpdate
                } else {
                    Kernel::KvUpdateInt8
                },
                offset: 0,
                cache,
                threads: if a.kv_type is Fp32 {
                    kv
                } else {
                    meta.n_head_kv
                },
            },
            Op::PagedAttention {
                kernel: if a.kv_type is Fp32 {
                    Kernel::PagedAttention
                } else {
                    Kernel::PagedAttentionInt8
                },
                cache,
                n_ctx: (a.pos + 1) as u32,
                n_head: meta.n_head as u32,
                threads: meta.n_head,
            },
        ],
        Style::Stepwise => seq![
            Op::KvUpdate { kernel: Kernel::KvUpdate, offset, cache, threads: kv },
            Op::AttnScores { offset, cache, n_ctx: meta.n_ctx as u32, threads: meta.n_head },
            Op::Softmax { n_scores: (a.pos + 1) as u32, threads: meta.n_head },
            Op::AttnValues { offset, cache, n_ctx: meta.n_ctx as u32, threads: meta.n_head },
        ],
    }
}

/// The output projection of a layer and its residual.
pub open spec fn output_ops(
    meta: MetaModel,
    has: Set<Seq<char>>,
    a: ForwardArgs,
    l: usize,
) -> Seq<Op> {
    let n = meta.n_embd;
    let wo = Weight::Layer(l, Part::Wo);
    given(
        has,
        wo,
        seq![
            matvec_op(meta, a.style, Buf::AttnProj, wo, Buf::AttnOut, n, n),
            Op::VecAdd { to: Buf::Hidden, from: Buf::AttnProj, threads: n },
        ],
    )
}

/// Projections, rotation, cache and attention of a layer.
pub open spec fn attention_ops(
    meta: MetaModel,
    has: Set<Seq<char>>,
    a: ForwardArgs,
    l: usize,
) -> Seq<Op> {
    projection_ops(meta, has, a, l) + seq![rope_op(meta, a)] + core_ops(meta, a, l) + output_ops(
        meta,
        has,
        a,
        l,
    )
}

/// The feed-forward network of a layer.
pub open spec fn mlp_ops(
    meta: MetaModel,
    has: Set<Seq<char>>,
    a: ForwardArgs,
    l: usize,
) -> Seq<Op> {
    let n = meta.n_embd;
    let ff = meta.n_ff;
    let norm = Weight::Layer(l, Part::FfnNorm);
    let w1 = Weight::Layer(l, Part::W1);
    let w2 = Weight::Layer(l, Part::W2);
    let w3 = Weight::Layer(l, Part::W3);
    given(
        has,
        norm,
        seq![norm_op(meta, Buf::MlpIn, Buf::Hidden, norm)]
            + given(has, w1, seq![matvec_op(meta, a.style, Buf::MlpGate, w1, Buf::MlpIn, ff, n)])
            + given(has, w3, seq![matvec_op(meta, a.style, Buf::MlpUp, w3, Buf::MlpIn, ff, n)])
            + seq![
            Op::Silu { buf: Buf::MlpGate, threads: ff },
            Op::VecMul { to: Buf::MlpGate, by: Buf::MlpUp, threads: ff },
        ] + given(
            has,
            w2,
            seq![
                matvec_op(meta, a.style, Buf::MlpOut, w2, Buf::MlpGate, n, ff),
                Op::VecAdd { to: Buf::Hidden, from: Buf::MlpOut, threads: n },
            ],
        ),
    )
}

/// The embedding and the first `layers` layers.
pub open spec fn layers_ops(
    meta: MetaModel,
    has: Set<Seq<char>>,
    a: ForwardArgs,
    layers: nat,
) -> Seq<Op>
    decreases layers,
{
    if layers == 0 {
        given(
            has,
            Weight::TokenEmbd,
            seq![
                Op::CopyEmbedding {
                    from: (a.token as nat * meta.n_embd as nat) as usize,
                    count: meta.n_embd,
                },
            ],
        )
    } else {
        let l = (layers - 1) as usize;
        layers_ops(meta, has, a, (layers - 1) as nat) + attention_ops(meta, has, a, l) + mlp_ops(
            meta,
            has,
            a,
            l,
        )
    }
}

/// The norm and the product that give the logits.
pub open spec fn head_ops(meta: MetaModel, has: Set<Seq<char>>, a: ForwardArgs) -> Seq<Op> {
    given(
        has,
        Weight::OutputNorm,
        seq![norm_op(meta, Buf::Hidden, Buf::Hidden, Weight::OutputNorm)],
    ) + given(
        has,
        Weight::Output,
        seq![
            matvec_op(
                meta,
                a.style,
                Buf::Logits,
                Weight::Output,
                Buf::Hidden,
                meta.n_vocab,
                meta.n_embd,
            ),
        ],
    )
}

/// All steps of a forward pass. A step whose weight is missing is left out.
pub open spec fn forward_ops(meta: MetaModel, has: Set<Seq<char>>, a: ForwardArgs) -> Seq<Op> {
    layers_ops(meta, has, a, meta.n_layer as nat) + head_ops(meta, has, a)
}

/// Whether every number that a forward pass needs can be counted.
pub open spec fn countable_pass(meta: MetaModel, a: ForwardArgs) -> bool {
    &&& a.pos < usize::MAX
    &&& a.token as nat * meta.n_embd as nat <= usize::MAX
    &&& kv_width(meta) <= usize::MAX
    &&& (meta.n_head + meta.n_head_kv) as nat * meta.head_dim as nat <= usize::MAX
    &&& meta.n_head + meta.n_head_kv <= usize::MAX
    &&& a.style is Stepwise ==> {
        &&& a.max_pages as nat * a.block_size as nat <= usize::MAX
        &&& a.max_pages as nat * a.block_size as nat * kv_width(meta) <= usize::MAX
        &&& layer_stretch(meta, a) <= usize::MAX
        &&& meta.n_layer as nat * layer_stretch(meta, a) <= usize::MAX
    }
}

/// Whether the kernels of all steps but the matrix-vector products are there.
pub open spec fn kernels_ready(ops: Seq<Op>, pipelines: Seq<Kernel>) -> bool {
    forall|i: int|
        0 <= i < ops.len() && (#[trigger] ops[i]).kernel() is Some && !(ops[i] is Matvec)
            ==> pipelines.contains(ops[i].kernel()->0)
}

/// Whether a pass needs matrix-vector products.
pub open spec fn has_matvec(ops: Seq<Op>) -> bool {
    exists|i: int| 0 <= i < ops.len() && (#[trigger] ops[i]) is Matvec
}

// ── The model ────────────────────────────────────────────────────────────────

/// Native Metal inference model for LLaMA architecture: what the host knows of
/// it.
pub struct LlamaMetalModel {
    pub meta: ModelMeta,
    /// The kernels that were compiled.
    pub pipelines: Vec<Kernel>,
    /// The weights on the device and their bytes.
    pub weights: Table<usize>,
    /// The working buffers and their bytes.
    pub scratch_buffers: Table<usize>,
}

/// What becomes of a request for a working buffer.
#[derive(Debug, Clone, Copy, PartialEq, Eq, Structural)]
pub enum Scratch {
    /// The buffer that is there is large enough.
    Reuse,
    /// A buffer of the requested size is made in its place.
    Allocate,
}

/// A weight that is copied to the device: bytes of the store's data.
#[derive(Debug, Clone)]
pub struct Upload {
    pub name: String,
    pub start: usize,
    pub len: usize,
}

/// The grid of the kernel that picks the largest logit.
#[derive(Debug, Clone, Copy, PartialEq, Eq, Structural)]
pub struct ArgmaxCall {
    pub n: u32,
    pub threads: usize,
}

/// The uploads of the first `n` listed tensors: name, start and length, or the
/// name of the first tensor whose bytes are not there.
pub open spec fn uploads_of(
    listed: Seq<(Seq<char>, crate::gguf::TensorInfo)>,
    data_len: nat,
    n: nat,
) -> (Seq<(Seq<char>, usize, usize)>, Option<Seq<char>>)
    decreases n,
{
    if n == 0 {
        (Seq::empty(), None)
    } else {
        let (done, fault) = uploads_of(listed, data_len, (n - 1) as nat);
        let (name, t) = listed[n - 1];
        if fault is Some {
            (done, fault)
        } else if t.offset + t.nbytes <= data_len {
            (done.push((name, t.offset as usize, t.nbytes as usize)), None)
        } else {
            (done, Some(name))
        }
    }
}

pub open spec fn upload_views(v: Seq<Upload>) -> Seq<(Seq<char>, usize, usize)> {
    v.map_values(|u: Upload| (u.name@, u.start, u.len))
}

/// A table after some weights came to the device.
pub open spec fn weights_after(
    weights: Map<Seq<char>, usize>,
    uploads: Seq<(Seq<char>, usize, usize)>,
) -> Map<Seq<char>, usize>
    decreases uploads.len(),
{
    if uploads.len() == 0 {
        weights
    } else {
        weights_after(weights, uploads.drop_last()).insert(uploads.last().0, uploads.last().2)
    }
}

impl LlamaMetalModel {
    pub open spec fn has(&self) -> Set<Seq<char>> {
        self.weights@.dom()
    }

    pub open spec fn ops_for(&self, a: ForwardArgs) -> Seq<Op> {
        forward_ops(self.meta@, self.has(), a)
    }

    /// The kernels that are compiled for a model, in order.
    pub fn kernels_to_compile(style: Style) -> (v: Vec<Kernel>)
        ensures
            v@ == (match style {
                Style::Fused => seq![
                    Kernel::MatvecF32,
                    Kernel::MatvecQ4,
                    Kernel::RmsNorm,
                    Kernel::Rope,
                    Kernel::Silu,
                    Kernel::VecMul,
                    Kernel::Softmax,
                    Kernel::VecAdd,
                    Kernel::KvUpdate,
                    Kernel::PagedAttention,
                    Kernel::KvUpdateInt8,
                    Kernel::PagedAttentionInt8,
                    Kernel::Argmax,
                ],
                Style::Stepwise => seq![
                    Kernel::MatvecF32,
                    Kernel::RmsNorm,
                    Kernel::Rope,
                    Kernel::Silu,
                    Kernel::VecMul,
                    Kernel::Softmax,
                    Kernel::AttnQk,
                    Kernel::AttnPv,
                    Kernel::VecAdd,
                    Kernel::KvUpdate,
                ],
            }),
            forall|meta: MetaModel, has: Set<Seq<char>>, a: ForwardArgs, i: int|
                a.style == style && 0 <= i < forward_ops(meta, has, a).len() && (
                #[trigger] forward_ops(meta, has, a)[i]).kernel() is Some ==> v@.contains(
                    forward_ops(meta, has, a)[i].kernel()->0,
                ),
    {
        let mut v: Vec<Kernel> = Vec::new();
        v.push(Kernel::MatvecF32);
        match style {
            Style::Fused => {
                v.push(Kernel::MatvecQ4);
            },
            Style::Stepwise => {},
        }
        v.push(Kernel::RmsNorm);
        v.push(Kernel::Rope);
        v.push(Kernel::Silu);
        v.push(Kernel::VecMul);
        v.push(Kernel::Softmax);
        match style {
            Style::Fused => {
                v.push(Kernel::VecAdd);
                v.push(Kernel::KvUpdate);
                v.push(Kernel::PagedAttention);
                v.push(Kernel::KvUpdateInt8);
                v.push(Kernel::PagedAttentionInt8);
                v.push(Kernel::Argmax);
            },
            Style::Stepwise => {
                v.push(Kernel::AttnQk);
                v.push(Kernel::AttnPv);
                v.push(Kernel::VecAdd);
                v.push(Kernel::KvUpdate);
            },
        }
        proof {
            if style is Fused {
                assert(v@[0] is MatvecF32 && v@[1] is MatvecQ4 && v@[2] is RmsNorm);
                assert(v@[3] is Rope && v@[4] is Silu && v@[5] is VecMul && v@[7] is VecAdd);
                assert(v@[8] is KvUpdate && v@[9] is PagedAttention && v@[10] is KvUpdateInt8);
                assert(v@[11] is PagedAttentionInt8);
            } else {
                assert(v@[0] is MatvecF32 && v@[1] is RmsNorm && v@[2] is Rope && v@[3] is Silu);
                assert(v@[4] is VecMul && v@[5] is Softmax && v@[6] is AttnQk && v@[7] is AttnPv);
                assert(v@[8] is VecAdd && v@[9] is KvUpdate);
            }
            assert forall|meta: MetaModel, has: Set<Seq<char>>, a: ForwardArgs, i: int|
                a.style == style && 0 <= i < forward_ops(meta, has, a).len() && (
                #[trigger] forward_ops(meta, has, a)[i]).kernel() is Some implies v@.contains(
                forward_ops(meta, has, a)[i].kernel()->0,
            ) by {
                lemma_forward_op(meta, has, a, i);
            }
        }
        v
    }

    /// A model without weights; `compiled` are the kernels that there are.
    pub fn new(meta: ModelMeta, compiled: Vec<Kernel>) -> (m: Self)
        ensures
            m.meta == meta,
            m.pipelines == compiled,
            m.weights@ == Map::<Seq<char>, usize>::empty(),
            m.scratch_buffers@ == Map::<Seq<char>, usize>::empty(),
    {
        LlamaMetalModel {
            meta,
            pipelines: compiled,
            weights: Table::new(),
            scratch_buffers: Table::new(),
        }
    }

    /// Asks for a working buffer of the specified size.
    pub fn get_scratch(&mut self, name: &str, size: usize) -> (s: Scratch)
        ensures
            ({
                let held = old(self).scratch_buffers@;
                let enough = held.contains_key(name@) && held[name@] >= size;
                &&& s == (if enough {
                    Scratch::Reuse
                } else {
                    Scratch::Allocate
                })
                &&& final(self).scratch_buffers@ == (if enough {
                    held
                } else {
                    held.insert(name@, size)
                })
            }),
            final(self).meta == old(self).meta,
            final(self).pipelines == old(self).pipelines,
            final(self).weights == old(self).weights,
    {
        let enough: bool = match self.scratch_buffers.get(name) {
            Some(len) => *len >= size,
            None => false,
        };
        if enough {
            Scratch::Reuse
        } else {
            self.scratch_buffers.insert(String::from_str(name), size);
            Scratch::Allocate
        }
    }

    /// Lists the weights of a store that go to the device. Where the bytes of
    /// one are not there the rest is not uploaded.
    pub fn upload_weights(&mut self, store: &WeightStore) -> (r: (
        Vec<Upload>,
        Result<(), SpeculativeError>,
    ))
        ensures
            ({
                let listed = store.index.listed();
                let (done, fault) = uploads_of(listed, store.data@.len(), listed.len());
                &&& upload_views(r.0@) == done
                &&& final(self).weights@ == weights_after(old(self).weights@, done)
                &&& match fault {
                    None => r.1 is Ok,
                    Some(name) => r.1 is Err && r.1->Err_0 is Model && r.1->Err_0->Model_0@
                        == "Missing weight data for "@ + name,
                }
            }),
            final(self).meta == old(self).meta,
            final(self).pipelines == old(self).pipelines,
            final(self).scratch_buffers == old(self).scratch_buffers,
    {
        let mut uploads: Vec<Upload> = Vec::new();
        let n: usize = store.index.len();
        let ghost listed = store.index.listed();
        let ghost before = self.weights@;
        let mut i: usize = 0;
        assert(upload_views(uploads@) =~= uploads_of(listed, store.data@.len(), 0).0);
        while i < n
            invariant
                i <= n == listed.len(),
                listed == store.index.listed(),
                upload_views(uploads@) == uploads_of(listed, store.data@.len(), i as nat).0,
                uploads_of(listed, store.data@.len(), i as nat).1 is None,
                before == old(self).weights@,
                self.weights@ == weights_after(before, upload_views(uploads@)),
                self.meta == old(self).meta,
                self.pipelines == old(self).pipelines,
                self.scratch_buffers == old(self).scratch_buffers,
            decreases n - i,
        {
            let (name, info) = store.index.entry(i);
            let end: u128 = info.offset as u128 + info.nbytes as u128;
            if end > store.data.len() as u128 {
                proof {
                    lemma_upload_fault(listed, store.data@.len(), (i + 1) as nat, listed.len());
                }
                return (
                    uploads,
                    Err(SpeculativeError::Model(joined("Missing weight data for ", name))),
                );
            }
            let ghost done = upload_views(uploads@);
            let upload = Upload {
                name: String::from_str(name),
                start: info.offset as usize,
                len: info.nbytes as usize,
            };
            self.weights.insert(String::from_str(name), info.nbytes as usize);
            uploads.push(upload);
            i = i + 1;
            proof {
                let more = upload_views(uploads@);
                assert(more =~= done.push((name@, upload.start, upload.len)));
                assert(more.drop_last() =~= done);
            }
        }
        (uploads, Ok(()))
    }

    fn has_weight(&self, weight: Weight) -> (b: bool)
        ensures
            b == self.has().contains(weight.name()),
    {
        self.weights.get(weight.tensor_name().as_str()).is_some()
    }

    fn norm(&self, out: Buf, input: Buf, weight: Weight) -> (op: Op)
        ensures
            op == norm_op(self.meta@, out, input, weight),
    {
        Op::RmsNorm {
            out,
            input,
            weight,
            eps: self.meta.norm_eps,
            n: self.meta.n_embd as u32,
            threads: self.meta.n_embd,
        }
    }

    fn matvec(
        &self,
        style: Style,
        out: Buf,
        weight: Weight,
        x: Buf,
        rows: usize,
        cols: usize,
    ) -> (op: Op)
        ensures
            op == matvec_op(self.meta@, style, out, weight, x, rows, cols),
    {
        Op::Matvec {
            kernel: self.product_kernel(style),
            out,
            weight,
            x,
            rows: rows as u32,
            cols: cols as u32,
            threads: rows,
        }
    }

    fn product_kernel(&self, style: Style) -> (k: Kernel)
        ensures
            k == matvec_kernel(self.meta@, style),
    {
        match (style, self.meta.quantization) {
            (Style::Fused, Quantization::Q4_0) => Kernel::MatvecQ4,
            _ => Kernel::MatvecF32,
        }
    }

    /// Adds a step where its weight is there.
    fn push_given(&self, ops: &mut Vec<Op>, weight: Weight, op: Op)
        ensures
            final(ops)@ == old(ops)@ + given(self.has(), weight, seq![op]),
    {
        if self.has_weight(weight) {
            ops.push(op);
        }
        assert(ops@ =~= old(ops)@ + given(self.has(), weight, seq![op]));
    }

    fn push_projections(&self, ops: &mut Vec<Op>, a: ForwardArgs, l: usize)
        requires
            kv_width(self.meta@) <= usize::MAX,
        ensures
            final(ops)@ == old(ops)@ + projection_ops(self.meta@, self.has(), a, l),
    {
        let n: usize = self.meta.n_embd;
        let kv: usize = self.kv_width_of();
        let norm = Weight::Layer(l, Part::AttentionNorm);
        let wq = Weight::Layer(l, Part::Wq);
        let wk = Weight::Layer(l, Part::Wk);
        let wv = Weight::Layer(l, Part::Wv);
        self.push_given(ops, norm, self.norm(Buf::Hidden, Buf::Hidden, norm));
        self.push_given(ops, wq, self.matvec(a.style, Buf::Q, wq, Buf::Hidden, n, n));
        self.push_given(ops, wk, self.matvec(a.style, Buf::K, wk, Buf::Hidden, kv, n));
        self.push_given(ops, wv, self.matvec(a.style, Buf::V, wv, Buf::Hidden, kv, n));
        assert(ops@ =~= old(ops)@ + projection_ops(self.meta@, self.has(), a, l));
    }

    fn rope(&self, a: ForwardArgs) -> (op: Op)
        requires
            countable_pass(self.meta@, a),
        ensures
            op == rope_op(self.meta@, a),
    {
        proof {
            let meta = self.meta@;
            assert((meta.n_head + meta.n_head_kv) as nat * meta.head_dim as nat == (meta.n_head
                + meta.n_head_kv) * meta.head_dim);
        }
        let heads: usize = self.meta.n_head + self.meta.n_head_kv;
        Op::Rope {
            pos: a.pos as u32,
            head_dim: self.meta.head_dim as u32,
            base: self.meta.rope_freq_base,
            threads: heads * self.meta.head_dim / 2,
        }
    }

    fn push_core(&self, ops: &mut Vec<Op>, a: ForwardArgs, l: usize)
        requires
            countable_pass(self.meta@, a),
            l < self.meta.n_layer,
        ensures
            final(ops)@ == old(ops)@ + core_ops(self.meta@, a, l),
    {
        let kv: usize = self.kv_width_of();
        let cache = CacheArgs {
            slot: a.slot.0,
            max_pages: a.max_pages as u32,
            block_size: a.block_size as u32,
            n_head_kv: self.meta.n_head_kv as u32,
            head_dim: self.meta.head_dim as u32,
            pos: a.pos as u32,
        };
        match a.style {
            Style::Fused => {
                let full: bool = match a.kv_type {
                    KvCacheType::Fp32 => true,
                    _ => false,
                };
                ops.push(
                    Op::KvUpdate {
                        kernel: if full {
                            Kernel::KvUpdate
                        } else {
                            Kernel::KvUpdateInt8
                        },
                        offset: 0,
                        cache,
                        threads: if full {
                            kv
                        } else {
                            self.meta.n_head_kv
                        },
                    },
                );
                ops.push(
                    Op::PagedAttention {
                        kernel: if full {
                            Kernel::PagedAttention
                        } else {
                            Kernel::PagedAttentionInt8
                        },
                        cache,
                        n_ctx: (a.pos + 1) as u32,
                        n_head: self.meta.n_head as u32,
                        threads: self.meta.n_head,
                    },
                );
            },
            Style::Stepwise => {
                let offset: usize = self.stretch_start(a, l);
                ops.push(Op::KvUpdate { kernel: Kernel::KvUpdate, offset, cache, threads: kv });
                ops.push(
                    Op::AttnScores {
                        offset,
                        cache,
                        n_ctx: self.meta.n_ctx as u32,
                        threads: self.meta.n_head,
                    },
                );
                ops.push(
                    Op::Softmax { n_scores: (a.pos + 1) as u32, threads: self.meta.n_head },
                );
                ops.push(
                    Op::AttnValues {
                        offset,
                        cache,
                        n_ctx: self.meta.n_ctx as u32,
                        threads: self.meta.n_head,
                    },
                );
            },
        }
        assert(ops@ =~= old(ops)@ + core_ops(self.meta@, a, l));
    }

    fn push_attention(&self, ops: &mut Vec<Op>, a: ForwardArgs, l: usize)
        requires
            countable_pass(self.meta@, a),
            l < self.meta.n_layer,
        ensures
            final(ops)@ == old(ops)@ + attention_ops(self.meta@, self.has(), a, l),
    {
        let n: usize = self.meta.n_embd;
        let wo = Weight::Layer(l, Part::Wo);
        self.push_projections(ops, a, l);
        ops.push(self.rope(a));
        self.push_core(ops, a, l);
        if self.has_weight(wo) {
            ops.push(self.matvec(a.style, Buf::AttnProj, wo, Buf::AttnOut, n, n));
            ops.push(Op::VecAdd { to: Buf::Hidden, from: Buf::AttnProj, threads: n });
        }
        proof {
            let start = old(ops)@;
            let x = projection_ops(self.meta@, self.has(), a, l);
            let y = core_ops(self.meta@, a, l);
            let z = output_ops(self.meta@, self.has(), a, l);
            assert(ops@ =~= (start + x).push(rope_op(self.meta@, a)) + y + z);
            assert(ops@ =~= start + attention_ops(self.meta@, self.has(), a, l));
        }
    }

    /// Where the stretch of a layer starts in the pools.
    fn stretch_start(&self, a: ForwardArgs, l: usize) -> (n: usize)
        requires
            countable_pass(self.meta@, a),
            a.style is Stepwise,
            l < self.meta.n_layer,
        ensures
            n == l as nat * layer_stretch(self.meta@, a),
    {
        let ghost kv = kv_width(self.meta@);
        let width: usize = self.kv_width_of();
        proof {
            let p = a.max_pages as nat * a.block_size as nat;
            assert(p == a.max_pages * a.block_size);
            assert(p * kv == (a.max_pages * a.block_size) * width) by (nonlinear_arith)
                requires
                    p == a.max_pages * a.block_size,
                    kv == width,
            ;
            let s = layer_stretch(self.meta@, a);
            assert(l as nat * s <= self.meta.n_layer as nat * s) by (nonlinear_arith)
                requires
                    l < self.meta.n_layer,
            ;
        }
        let stretch: usize = a.max_pages * a.block_size * width * 4;
        assert(l as nat * layer_stretch(self.meta@, a) == l * stretch) by (nonlinear_arith)
            requires
                layer_stretch(self.meta@, a) == stretch,
        ;
        l * stretch
    }

    fn kv_width_of(&self) -> (n: usize)
        requires
            kv_width(self.meta@) <= usize::MAX,
        ensures
            n == kv_width(self.meta@),
    {
        assert(kv_width(self.meta@) == self.meta.n_head_kv * self.meta.head_dim);
        self.meta.n_head_kv * self.meta.head_dim
    }

    fn push_mlp(&self, ops: &mut Vec<Op>, a: ForwardArgs, l: usize)
        ensures
            final(ops)@ == old(ops)@ + mlp_ops(self.meta@, self.has(), a, l),
    {
        let ghost start = ops@;
        let n: usize = self.meta.n_embd;
        let ff: usize = self.meta.n_ff;
        let norm = Weight::Layer(l, Part::FfnNorm);
        let w1 = Weight::Layer(l, Part::W1);
        let w2 = Weight::Layer(l, Part::W2);
        let w3 = Weight::Layer(l, Part::W3);
        if self.has_weight(norm) {
            ops.push(self.norm(Buf::MlpIn, Buf::Hidden, norm));
            self.push_given(ops, w1, self.matvec(a.style, Buf::MlpGate, w1, Buf::MlpIn, ff, n));
            self.push_given(ops, w3, self.matvec(a.style, Buf::MlpUp, w3, Buf::MlpIn, ff, n));
            ops.push(Op::Silu { buf: Buf::MlpGate, threads: ff });
            ops.push(Op::VecMul { to: Buf::MlpGate, by: Buf::MlpUp, threads: ff });
            if self.has_weight(w2) {
                ops.push(self.matvec(a.style, Buf::MlpOut, w2, Buf::MlpGate, n, ff));
                ops.push(Op::VecAdd { to: Buf::Hidden, from: Buf::MlpOut, threads: n });
            }
        }
        assert(ops@ =~= start + mlp_ops(self.meta@, self.has(), a, l));
    }

    /// Lists the steps of a forward pass. The logits end up in their buffer.
    /// Where the kernel of the matrix-vector products is missing there is no
    /// pass.
    pub fn forward(&self, a: ForwardArgs) -> (r: Result<Vec<Op>, SpeculativeError>)
        requires
            countable_pass(self.meta@, a),
            kernels_ready(self.ops_for(a), self.pipelines@),
        ensures
            ({
                let ops = self.ops_for(a);
                let kernel = matvec_kernel(self.meta@, a.style);
                if has_matvec(ops) && !self.pipelines@.contains(kernel) {
                    r is Err && r->Err_0 is Model && r->Err_0->Model_0@ == "Pipeline "@
                        + kernel.name() + " not found"@
                } else {
                    r is Ok && r->Ok_0@ == ops
                }
            }),
    {
        let ghost has = self.has();
        let ghost meta = self.meta@;
        let mut ops: Vec<Op> = Vec::new();
        proof {
            assert(a.token as nat * meta.n_embd as nat == a.token * meta.n_embd);
        }
        let from: usize = a.token as usize * self.meta.n_embd;
        self.push_given(
            &mut ops,
            Weight::TokenEmbd,
            Op::CopyEmbedding { from, count: self.meta.n_embd },
        );
        assert(ops@ =~= layers_ops(meta, has, a, 0));
        let mut l: usize = 0;
        while l < self.meta.n_layer
            invariant
                l <= self.meta.n_layer,
                has == self.has(),
                meta == self.meta@,
                countable_pass(meta, a),
                ops@ == layers_ops(meta, has, a, l as nat),
            decreases self.meta.n_layer - l,
        {
            self.push_attention(&mut ops, a, l);
            self.push_mlp(&mut ops, a, l);
            l = l + 1;
            assert(ops@ =~= layers_ops(meta, has, a, l as nat));
        }
        self.push_given(
            &mut ops,
            Weight::OutputNorm,
            self.norm(Buf::Hidden, Buf::Hidden, Weight::OutputNorm),
        );
        self.push_given(
            &mut ops,
            Weight::Output,
            self.matvec(
                a.style,
                Buf::Logits,
                Weight::Output,
                Buf::Hidden,
                self.meta.n_vocab,
                self.meta.n_embd,
            ),
        );
        assert(ops@ =~= self.ops_for(a));
        let kernel: Kernel = self.product_kernel(a.style);
        if !contains_kernel(&self.pipelines, kernel) && any_matvec(&ops) {
            let head = joined("Pipeline ", kernel.function_name());
            return Err(SpeculativeError::Model(joined(head.as_str(), " not found")));
        }
        Ok(ops)
    }

    /// The call that picks the largest logit on the device. The kernel looks at
    /// the first 1024 logits at most.
    pub fn sample_argmax(&self) -> (r: Result<ArgmaxCall, SpeculativeError>)
        ensures
            if self.pipelines@.contains(Kernel::Argmax) {
                r is Ok && r->Ok_0 == (ArgmaxCall {
                    n: self.meta.n_vocab as u32,
                    threads: if self.meta.n_vocab < 1024 {
                        self.meta.n_vocab
                    } else {
                        1024
                    },
                })
            } else {
                r is Err && r->Err_0 is Model && r->Err_0->Model_0@ == "Argmax pipeline not found"@
            },
    {
        if !contains_kernel(&self.pipelines, Kernel::Argmax) {
            return Err(SpeculativeError::Model(String::from_str("Argmax pipeline not found")));
        }
        let threads: usize = if self.meta.n_vocab < 1024 {
            self.meta.n_vocab
        } else {
            1024
        };
        Ok(ArgmaxCall { n: self.meta.n_vocab as u32, threads })
    }
}

proof fn lemma_upload_fault(
    listed: Seq<(Seq<char>, crate::gguf::TensorInfo)>,
    data_len: nat,
    i: nat,
    n: nat,
)
    requires
        i <= n,
        uploads_of(listed, data_len, i).1 is Some,
    ensures
        uploads_of(listed, data_len, n) == uploads_of(listed, data_len, i),
    decreases n,
{
    if i < n {
        lemma_upload_fault(listed, data_len, i, (n - 1) as nat);
    }
}

/// Whether a kernel is among those that were compiled.
fn contains_kernel(v: &Vec<Kernel>, kernel: Kernel) -> (b: bool)
    ensures
        b == v@.contains(kernel),
{
    let mut i: usize = 0;
    while i < v.len()
        invariant
            i <= v@.len(),
            forall|k: int| 0 <= k < i ==> v@[k] != kernel,
        decreases v@.len() - i,
    {
        if v[i] == kernel {
            return true;
        }
        i = i + 1;
    }
    false
}

fn any_matvec(ops: &Vec<Op>) -> (b: bool)
    ensures
        b == has_matvec(ops@),
{
    let mut i: usize = 0;
    while i < ops.len()
        invariant
            i <= ops@.len(),
            forall|k: int| 0 <= k < i ==> !((#[trigger] ops@[k]) is Matvec),
        decreases ops@.len() - i,
    {
        match ops[i] {
            Op::Matvec { .. } => {
                assert(ops@[i as int] is Matvec);
                return true;
            },
            _ => {},
        }
        i = i + 1;
    }
    false
}

/// Stepwise attention keeps the layers apart: the stretch of a layer ends where
/// that of the next one starts, and the last one ends within the pools.
pub proof fn layer_stretches_are_apart(meta: MetaModel, a: ForwardArgs, l: nat)
    requires
        l < meta.n_layer,
    ensures
        l * layer_stretch(meta, a) + layer_stretch(meta, a) == (l + 1) * layer_stretch(meta, a),
        (l + 1) * layer_stretch(meta, a) <= meta.n_layer as nat * layer_stretch(meta, a),
{
    let s = layer_stretch(meta, a);
    assert(l * s + s == (l + 1) * s) by (nonlinear_arith);
    assert((l + 1) * s <= meta.n_layer as nat * s) by (nonlinear_arith)
        requires
            l + 1 <= meta.n_layer,
    ;
}

/// A model without weights still rotates, stores and attends, but computes no
/// logits.
pub proof fn without_weights_there_are_no_logits(meta: MetaModel, a: ForwardArgs)
    ensures
        !has_matvec(forward_ops(meta, Set::empty(), a)),
{
    lemma_no_matvec(meta, a, meta.n_layer as nat);
    let ops = forward_ops(meta, Set::empty(), a);
    let lower = layers_ops(meta, Set::empty(), a, meta.n_layer as nat);
    assert(ops =~= lower);
}

proof fn lemma_no_matvec(meta: MetaModel, a: ForwardArgs, layers: nat)
    ensures
        !has_matvec(layers_ops(meta, Set::empty(), a, layers)),
    decreases layers,
{
    let ops = layers_ops(meta, Set::empty(), a, layers);
    if layers > 0 {
        lemma_no_matvec(meta, a, (layers - 1) as nat);
        let lower = layers_ops(meta, Set::empty(), a, (layers - 1) as nat);
        let att = attention_ops(meta, Set::empty(), a, (layers - 1) as usize);
        let mlp = mlp_ops(meta, Set::empty(), a, (layers - 1) as usize);
        assert(mlp =~= Seq::<Op>::empty());
        assert forall|i: int| 0 <= i < att.len() implies !((#[trigger] att[i]) is Matvec) by {}
        assert forall|i: int| 0 <= i < ops.len() implies !((#[trigger] ops[i]) is Matvec) by {
            if i < lower.len() {
                assert(ops[i] == lower[i]);
            } else {
                assert(ops[i] == att[i - lower.len()]);
            }
        }
    }
}

// ── What the steps compute ───────────────────────────────────────────────────

/// What a pass computes, as a formula over the weights.
pub enum MetalValue {
    /// The embedding of a token: `count` values of the embedding weight.
    Embedding { from: nat, count: nat },
    Normed { weight: Weight, eps: F32, n: u32, of: Box<MetalValue> },
    Product { kernel: Kernel, weight: Weight, rows: u32, cols: u32, of: Box<MetalValue> },
    /// A value rotated by its position.
    Turned { pos: u32, head_dim: u32, base: F32, of: Box<MetalValue> },
    /// Keys and values that were stored in the cache.
    Kept {
        kernel: Kernel,
        offset: usize,
        cache: CacheArgs,
        keys: Box<MetalValue>,
        values: Box<MetalValue>,
    },
    /// Queries attending to what was stored.
    Attended {
        kernel: Kernel,
        cache: CacheArgs,
        n_ctx: u32,
        n_head: u32,
        queries: Box<MetalValue>,
        kept: Box<MetalValue>,
    },
    Scored {
        offset: usize,
        cache: CacheArgs,
        n_ctx: u32,
        queries: Box<MetalValue>,
        kept: Box<MetalValue>,
    },
    Softened { n_scores: u32, of: Box<MetalValue> },
    Weighed {
        offset: usize,
        cache: CacheArgs,
        n_ctx: u32,
        scores: Box<MetalValue>,
        kept: Box<MetalValue>,
    },
    Sum(Box<MetalValue>, Box<MetalValue>),
    Gated(Box<MetalValue>),
    Times(Box<MetalValue>, Box<MetalValue>),
}

/// What the buffers and the cache hold.
pub struct MetalState {
    pub bufs: Map<Buf, MetalValue>,
    pub kept: MetalValue,
}

/// What the buffers and the cache hold after a step.
pub open spec fn after_op(s: MetalState, op: Op) -> MetalState {
    match op {
        Op::CopyEmbedding { from, count } => MetalState {
            bufs: s.bufs.insert(
                Buf::Hidden,
                MetalValue::Embedding { from: from as nat, count: count as nat },
            ),
            ..s
        },
        Op::RmsNorm { out, input, weight, eps, n, .. } => MetalState {
            bufs: s.bufs.insert(
                out,
                MetalValue::Normed { weight, eps, n, of: Box::new(s.bufs[input]) },
            ),
            ..s
        },
        Op::Matvec { kernel, out, weight, x, rows, cols, .. } => MetalState {
            bufs: s.bufs.insert(
                out,
                MetalValue::Product { kernel, weight, rows, cols, of: Box::new(s.bufs[x]) },
            ),
            ..s
        },
        Op::Rope { pos, head_dim, base, .. } => MetalState {
            bufs: s.bufs.insert(
                Buf::Q,
                MetalValue::Turned { pos, head_dim, base, of: Box::new(s.bufs[Buf::Q]) },
            ).insert(
                Buf::K,
                MetalValue::Turned { pos, head_dim, base, of: Box::new(s.bufs[Buf::K]) },
            ),
            ..s
        },
        Op::KvUpdate { kernel, offset, cache, .. } => MetalState {
            kept: MetalValue::Kept {
                kernel,
                offset,
                cache,
                keys: Box::new(s.bufs[Buf::K]),
                values: Box::new(s.bufs[Buf::V]),
            },
            ..s
        },
        Op::PagedAttention { kernel, cache, n_ctx, n_head, .. } => MetalState {
            bufs: s.bufs.insert(
                Buf::AttnOut,
                MetalValue::Attended {
                    kernel,
                    cache,
                    n_ctx,
                    n_head,
                    queries: Box::new(s.bufs[Buf::Q]),
                    kept: Box::new(s.kept),
                },
            ),
            ..s
        },
        Op::AttnScores { offset, cache, n_ctx, .. } => MetalState {
            bufs: s.bufs.insert(
                Buf::Scores,
                MetalValue::Scored {
                    offset,
                    cache,
                    n_ctx,
                    queries: Box::new(s.bufs[Buf::Q]),
                    kept: Box::new(s.kept),
                },
            ),
            ..s
        },
        Op::Softmax { n_scores, .. } => MetalState {
            bufs: s.bufs.insert(
                Buf::Scores,
                MetalValue::Softened { n_scores, of: Box::new(s.bufs[Buf::Scores]) },
            ),
            ..s
        },
        Op::AttnValues { offset, cache, n_ctx, .. } => MetalState {
            bufs: s.bufs.insert(
                Buf::AttnOut,
                MetalValue::Weighed {
                    offset,
                    cache,
                    n_ctx,
                    scores: Box::new(s.bufs[Buf::Scores]),
                    kept: Box::new(s.kept),
                },
            ),
            ..s
        },
        Op::VecAdd { to, from, .. } => MetalState {
            bufs: s.bufs.insert(
                to,
                MetalValue::Sum(Box::new(s.bufs[to]), Box::new(s.bufs[from])),
            ),
            ..s
        },
        Op::Silu { buf, .. } => MetalState {
            bufs: s.bufs.insert(buf, MetalValue::Gated(Box::new(s.bufs[buf]))),
            ..s
        },
        Op::VecMul { to, by, .. } => MetalState {
            bufs: s.bufs.insert(
                to,
                MetalValue::Times(Box::new(s.bufs[to]), Box::new(s.bufs[by])),
            ),
            ..s
        },
    }
}

/// What the buffers and the cache hold after some steps.
pub open spec fn after_ops(s: MetalState, ops: Seq<Op>) -> MetalState
    decreases ops.len(),
{
    if ops.len() == 0 {
        s
    } else {
        after_op(after_ops(s, ops.drop_last()), ops.last())
    }
}

/// A value scaled with the weights of a norm.
pub open spec fn normed_value(meta: MetaModel, weight: Weight, of: MetalValue) -> MetalValue {
    MetalValue::Normed { weight, eps: meta.norm_eps, n: meta.n_embd as u32, of: Box::new(of) }
}

/// The product of a matrix of `rows` rows of `cols` values and a value.
pub open spec fn product_value(
    meta: MetaModel,
    a: ForwardArgs,
    weight: Weight,
    rows: nat,
    cols: nat,
    of: MetalValue,
) -> MetalValue {
    MetalValue::Product {
        kernel: if a.style is Fused && meta.quantization is Q4_0 {
            Kernel::MatvecQ4
        } else {
            Kernel::MatvecF32
        },
        weight,
        rows: rows as usize as u32,
        cols: cols as usize as u32,
        of: Box::new(of),
    }
}

pub open spec fn turned_value(meta: MetaModel, a: ForwardArgs, of: MetalValue) -> MetalValue {
    MetalValue::Turned {
        pos: a.pos as u32,
        head_dim: meta.head_dim as u32,
        base: meta.rope_freq_base,
        of: Box::new(of),
    }
}

/// What the queries of a layer get out of the cache once its keys and values are in
/// it, at the position of the pass and in the request's slot. In stepwise attention
/// every layer has its own stretch of the pools.
pub open spec fn heard_value(
    meta: MetaModel,
    a: ForwardArgs,
    l: nat,
    q: MetalValue,
    k: MetalValue,
    v: MetalValue,
) -> MetalValue {
    let cache = CacheArgs {
        slot: a.slot.0,
        max_pages: a.max_pages as u32,
        block_size: a.block_size as u32,
        n_head_kv: meta.n_head_kv as u32,
        head_dim: meta.head_dim as u32,
        pos: a.pos as u32,
    };
    let seen = (a.pos + 1) as u32;
    if a.style is Fused {
        MetalValue::Attended {
            kernel: if a.kv_type is Fp32 {
                Kernel::PagedAttention
            } else {
                Kernel::PagedAttentionInt8
            },
            cache,
            n_ctx: seen,
            n_head: meta.n_head as u32,
            queries: Box::new(q),
            kept: Box::new(
                MetalValue::Kept {
                    kernel: if a.kv_type is Fp32 {
                        Kernel::KvUpdate
                    } else {
                        Kernel::KvUpdateInt8
                    },
                    offset: 0,
                    cache,
                    keys: Box::new(k),
                    values: Box::new(v),
                },
            ),
        }
    } else {
        let stretch = a.max_pages as nat * a.block_size as nat * (meta.n_head_kv as nat
            * meta.head_dim as nat) * 4;
        let offset = (l * stretch) as usize;
        let kept = MetalValue::Kept {
            kernel: Kernel::KvUpdate,
            offset,
            cache,
            keys: Box::new(k),
            values: Box::new(v),
        };
        let scored = MetalValue::Scored {
            offset,
            cache,
            n_ctx: meta.n_ctx as u32,
            queries: Box::new(q),
            kept: Box::new(kept),
        };
        MetalValue::Weighed {
            offset,
            cache,
            n_ctx: meta.n_ctx as u32,
            scores: Box::new(MetalValue::Softened { n_scores: seen, of: Box::new(scored) }),
            kept: Box::new(kept),
        }
    }
}

/// The hidden state after the attention of a layer: the output projection of what was
/// heard, added to the normed state.
pub open spec fn attention_value(
    meta: MetaModel,
    a: ForwardArgs,
    l: usize,
    x: MetalValue,
) -> MetalValue {
    let embd = meta.n_embd as nat;
    let kv = meta.n_head_kv as nat * meta.head_dim as nat;
    let n = normed_value(meta, Weight::Layer(l, Part::AttentionNorm), x);
    let q = product_value(meta, a, Weight::Layer(l, Part::Wq), embd, embd, n);
    let k = product_value(meta, a, Weight::Layer(l, Part::Wk), kv, embd, n);
    let v = product_value(meta, a, Weight::Layer(l, Part::Wv), kv, embd, n);
    let heard = heard_value(
        meta,
        a,
        l as nat,
        turned_value(meta, a, q),
        turned_value(meta, a, k),
        v,
    );
    MetalValue::Sum(
        Box::new(n),
        Box::new(product_value(meta, a, Weight::Layer(l, Part::Wo), embd, embd, heard)),
    )
}

/// The hidden state after the feed-forward network of a layer.
pub open spec fn mlp_value(
    meta: MetaModel,
    a: ForwardArgs,
    l: usize,
    x: MetalValue,
) -> MetalValue {
    let embd = meta.n_embd as nat;
    let ff = meta.n_ff as nat;
    let m = normed_value(meta, Weight::Layer(l, Part::FfnNorm), x);
    let gate = product_value(meta, a, Weight::Layer(l, Part::W1), ff, embd, m);
    let up = product_value(meta, a, Weight::Layer(l, Part::W3), ff, embd, m);
    let mixed = MetalValue::Times(
        Box::new(MetalValue::Gated(Box::new(gate))),
        Box::new(up),
    );
    MetalValue::Sum(
        Box::new(x),
        Box::new(product_value(meta, a, Weight::Layer(l, Part::W2), embd, ff, mixed)),
    )
}

/// The hidden state after the first `layers` layers.
pub open spec fn hidden_value(meta: MetaModel, a: ForwardArgs, layers: nat) -> MetalValue
    decreases layers,
{
    if layers == 0 {
        MetalValue::Embedding {
            from: a.token as nat * meta.n_embd as nat,
            count: meta.n_embd as nat,
        }
    } else {
        let l = (layers - 1) as usize;
        mlp_value(
            meta,
            a,
            l,
            attention_value(meta, a, l, hidden_value(meta, a, (layers - 1) as nat)),
        )
    }
}

/// Whether all weights of a model are there.
pub open spec fn all_given(meta: MetaModel, has: Set<Seq<char>>) -> bool {
    &&& has.contains(Weight::TokenEmbd.name())
    &&& has.contains(Weight::OutputNorm.name())
    &&& has.contains(Weight::Output.name())
    &&& forall|l: usize, part: Part|
        l < meta.n_layer ==> has.contains(#[trigger] Weight::Layer(l, part).name())
}

proof fn lemma_after_more(s: MetalState, a: Seq<Op>, b: Seq<Op>)
    ensures
        after_ops(s, a + b) == after_ops(after_ops(s, a), b),
    decreases b.len(),
{
    if b.len() == 0 {
        assert(a + b =~= a);
    } else {
        lemma_after_more(s, a, b.drop_last());
        assert((a + b).drop_last() =~= a + b.drop_last());
    }
}

proof fn lemma_after_one(s: MetalState, x: Op)
    ensures
        after_ops(s, seq![x]) == after_op(s, x),
{
    assert(seq![x].drop_last().len() == 0);
    assert(after_ops(s, seq![x].drop_last()) == s);
}

proof fn lemma_after_two(s: MetalState, x: Op, y: Op)
    ensures
        after_ops(s, seq![x, y]) == after_op(after_op(s, x), y),
{
    assert(seq![x, y].drop_last() =~= seq![x]);
    lemma_after_one(s, x);
}

proof fn lemma_after_projections(
    s: MetalState,
    meta: MetaModel,
    has: Set<Seq<char>>,
    a: ForwardArgs,
    l: usize,
)
    requires
        all_given(meta, has),
        l < meta.n_layer,
    ensures
        ({
            let t = after_ops(s, projection_ops(meta, has, a, l)).bufs;
            let n = normed_value(meta, Weight::Layer(l, Part::AttentionNorm), s.bufs[Buf::Hidden]);
            let embd = meta.n_embd as nat;
            let kv = meta.n_head_kv as nat * meta.head_dim as nat;
            &&& t[Buf::Hidden] == n
            &&& t[Buf::Q] == product_value(meta, a, Weight::Layer(l, Part::Wq), embd, embd, n)
            &&& t[Buf::K] == product_value(meta, a, Weight::Layer(l, Part::Wk), kv, embd, n)
            &&& t[Buf::V] == product_value(meta, a, Weight::Layer(l, Part::Wv), kv, embd, n)
        }),
{
    let n = meta.n_embd;
    let kv = kv_width(meta) as usize;
    let norm = Weight::Layer(l, Part::AttentionNorm);
    let wq = Weight::Layer(l, Part::Wq);
    let wk = Weight::Layer(l, Part::Wk);
    let wv = Weight::Layer(l, Part::Wv);
    let o1 = norm_op(meta, Buf::Hidden, Buf::Hidden, norm);
    let o2 = matvec_op(meta, a.style, Buf::Q, wq, Buf::Hidden, n, n);
    let o3 = matvec_op(meta, a.style, Buf::K, wk, Buf::Hidden, kv, n);
    let o4 = matvec_op(meta, a.style, Buf::V, wv, Buf::Hidden, kv, n);
    assert(has.contains(norm.name()) && has.contains(wq.name()) && has.contains(wk.name())
        && has.contains(wv.name()));
    let p1 = seq![o1];
    let p2 = p1 + seq![o2];
    let p3 = p2 + seq![o3];
    let p4 = p3 + seq![o4];
    assert(projection_ops(meta, has, a, l) == p4);
    lemma_after_one(s, o1);
    let s1 = after_op(s, o1);
    lemma_after_more(s, p1, seq![o2]);
    lemma_after_one(s1, o2);
    let s2 = after_op(s1, o2);
    lemma_after_more(s, p2, seq![o3]);
    lemma_after_one(s2, o3);
    let s3 = after_op(s2, o3);
    lemma_after_more(s, p3, seq![o4]);
    lemma_after_one(s3, o4);
}

proof fn lemma_after_core(s: MetalState, meta: MetaModel, a: ForwardArgs, l: usize)
    ensures
        ({
            let t = after_ops(s, core_ops(meta, a, l)).bufs;
            &&& t[Buf::Hidden] == s.bufs[Buf::Hidden]
            &&& t[Buf::AttnOut] == heard_value(
                meta,
                a,
                l as nat,
                s.bufs[Buf::Q],
                s.bufs[Buf::K],
                s.bufs[Buf::V],
            )
        }),
{
    let ops = core_ops(meta, a, l);
    match a.style {
        Style::Fused => {
            lemma_after_two(s, ops[0], ops[1]);
            assert(ops =~= seq![ops[0], ops[1]]);
        },
        Style::Stepwise => {
            lemma_after_two(s, ops[0], ops[1]);
            let t = after_op(after_op(s, ops[0]), ops[1]);
            lemma_after_two(t, ops[2], ops[3]);
            assert(ops =~= seq![ops[0], ops[1]] + seq![ops[2], ops[3]]);
            lemma_after_more(s, seq![ops[0], ops[1]], seq![ops[2], ops[3]]);
        },
    }
}

proof fn lemma_after_attention(
    s: MetalState,
    meta: MetaModel,
    has: Set<Seq<char>>,
    a: ForwardArgs,
    l: usize,
)
    requires
        all_given(meta, has),
        l < meta.n_layer,
    ensures
        after_ops(s, attention_ops(meta, has, a, l)).bufs[Buf::Hidden] == attention_value(
            meta,
            a,
            l,
            s.bufs[Buf::Hidden],
        ),
{
    let x = projection_ops(meta, has, a, l);
    let rope = rope_op(meta, a);
    let y = core_ops(meta, a, l);
    let z = output_ops(meta, has, a, l);
    let wo = Weight::Layer(l, Part::Wo);
    assert(has.contains(wo.name()));
    lemma_after_projections(s, meta, has, a, l);
    lemma_after_more(s, x, seq![rope]);
    let s1 = after_ops(s, x);
    lemma_after_one(s1, rope);
    let s2 = after_op(s1, rope);
    lemma_after_more(s, x + seq![rope], y);
    lemma_after_core(s2, meta, a, l);
    let s3 = after_ops(s2, y);
    lemma_after_more(s, x + seq![rope] + y, z);
    lemma_after_two(
        s3,
        matvec_op(meta, a.style, Buf::AttnProj, wo, Buf::AttnOut, meta.n_embd, meta.n_embd),
        Op::VecAdd { to: Buf::Hidden, from: Buf::AttnProj, threads: meta.n_embd },
    );
}

proof fn lemma_after_mlp(
    s: MetalState,
    meta: MetaModel,
    has: Set<Seq<char>>,
    a: ForwardArgs,
    l: usize,
)
    requires
        all_given(meta, has),
        l < meta.n_layer,
    ensures
        after_ops(s, mlp_ops(meta, has, a, l)).bufs[Buf::Hidden] == mlp_value(
            meta,
            a,
            l,
            s.bufs[Buf::Hidden],
        ),
{
    let n = meta.n_embd;
    let ff = meta.n_ff;
    let norm = Weight::Layer(l, Part::FfnNorm);
    let w1 = Weight::Layer(l, Part::W1);
    let w2 = Weight::Layer(l, Part::W2);
    let w3 = Weight::Layer(l, Part::W3);
    assert(has.contains(norm.name()) && has.contains(w1.name()) && has.contains(w2.name())
        && has.contains(w3.name()));
    let o1 = norm_op(meta, Buf::MlpIn, Buf::Hidden, norm);
    let o2 = matvec_op(meta, a.style, Buf::MlpGate, w1, Buf::MlpIn, ff, n);
    let o3 = matvec_op(meta, a.style, Buf::MlpUp, w3, Buf::MlpIn, ff, n);
    let o4 = Op::Silu { buf: Buf::MlpGate, threads: ff };
    let o5 = Op::VecMul { to: Buf::MlpGate, by: Buf::MlpUp, threads: ff };
    let o6 = matvec_op(meta, a.style, Buf::MlpOut, w2, Buf::MlpGate, n, ff);
    let o7 = Op::VecAdd { to: Buf::Hidden, from: Buf::MlpOut, threads: n };
    let p1 = seq![o1];
    let p2 = p1 + seq![o2];
    let p3 = p2 + seq![o3];
    let p4 = p3 + seq![o4, o5];
    let p5 = p4 + seq![o6, o7];
    assert(mlp_ops(meta, has, a, l) =~= p5);
    lemma_after_one(s, o1);
    let s1 = after_op(s, o1);
    lemma_after_more(s, p1, seq![o2]);
    lemma_after_one(s1, o2);
    let s2 = after_op(s1, o2);
    lemma_after_more(s, p2, seq![o3]);
    lemma_after_one(s2, o3);
    let s3 = after_op(s2, o3);
    lemma_after_more(s, p3, seq![o4, o5]);
    lemma_after_two(s3, o4, o5);
    let s5 = after_op(after_op(s3, o4), o5);
    lemma_after_more(s, p4, seq![o6, o7]);
    lemma_after_two(s5, o6, o7);
}

proof fn lemma_after_layers(
    s: MetalState,
    meta: MetaModel,
    has: Set<Seq<char>>,
    a: ForwardArgs,
    layers: nat,
)
    requires
        all_given(meta, has),
        layers <= meta.n_layer,
        a.token as nat * meta.n_embd as nat <= usize::MAX,
    ensures
        after_ops(s, layers_ops(meta, has, a, layers)).bufs[Buf::Hidden] == hidden_value(
            meta,
            a,
            layers,
        ),
    decreases layers,
{
    if layers == 0 {
        let copy = Op::CopyEmbedding {
            from: (a.token as nat * meta.n_embd as nat) as usize,
            count: meta.n_embd,
        };
        lemma_after_one(s, copy);
    } else {
        let l = (layers - 1) as usize;
        let below = layers_ops(meta, has, a, (layers - 1) as nat);
        let x = attention_ops(meta, has, a, l);
        let y = mlp_ops(meta, has, a, l);
        lemma_after_layers(s, meta, has, a, (layers - 1) as nat);
        lemma_after_more(s, below, x);
        lemma_after_more(s, below + x, y);
        let s1 = after_ops(s, below);
        lemma_after_attention(s1, meta, has, a, l);
        lemma_after_mlp(after_ops(s1, x), meta, has, a, l);
    }
}

/// The steps of a pass with all weights compute the model: whatever the buffers held
/// before, the logits are the product of the output weight and the normed hidden state
/// after all layers.
pub proof fn passes_compute_the_model(
    s: MetalState,
    meta: MetaModel,
    has: Set<Seq<char>>,
    a: ForwardArgs,
)
    requires
        all_given(meta, has),
        a.token as nat * meta.n_embd as nat <= usize::MAX,
    ensures
        after_ops(s, forward_ops(meta, has, a)).bufs[Buf::Logits] == product_value(
            meta,
            a,
            Weight::Output,
            meta.n_vocab as nat,
            meta.n_embd as nat,
            normed_value(
                meta,
                Weight::OutputNorm,
                hidden_value(meta, a, meta.n_layer as nat),
            ),
        ),
{
    let n = meta.n_layer as nat;
    let body = layers_ops(meta, has, a, n);
    let o1 = norm_op(meta, Buf::Hidden, Buf::Hidden, Weight::OutputNorm);
    let o2 = matvec_op(
        meta,
        a.style,
        Buf::Logits,
        Weight::Output,
        Buf::Hidden,
        meta.n_vocab,
        meta.n_embd,
    );
    lemma_after_layers(s, meta, has, a, n);
    lemma_after_more(s, body, head_ops(meta, has, a));
    assert(head_ops(meta, has, a) =~= seq![o1, o2]);
    lemma_after_two(after_ops(s, body), o1, o2);
}

// ── Data flow ────────────────────────────────────────────────────────────────

/// Whether a step reads a buffer.
pub open spec fn reads(op: Op, b: Buf) -> bool {
    match op {
        Op::CopyEmbedding { .. } => false,
        Op::RmsNorm { input, .. } => b == input,
        Op::Matvec { x, .. } => b == x,
        Op::Rope { .. } => b is Q || b is K,
        Op::KvUpdate { .. } => b is K || b is V,
        Op::PagedAttention { .. } => b is Q,
        Op::AttnScores { .. } => b is Q,
        Op::Softmax { .. } => b is Scores,
        Op::AttnValues { .. } => b is Scores,
        Op::VecAdd { to, from, .. } => b == to || b == from,
        Op::Silu { buf, .. } => b == buf,
        Op::VecMul { to, by, .. } => b == to || b == by,
    }
}

/// Whether a step writes a buffer.
pub open spec fn writes(op: Op, b: Buf) -> bool {
    match op {
        Op::CopyEmbedding { .. } => b is Hidden,
        Op::RmsNorm { out, .. } => b == out,
        Op::Matvec { out, .. } => b == out,
        Op::Rope { .. } => b is Q || b is K,
        Op::KvUpdate { .. } => false,
        Op::PagedAttention { .. } => b is AttnOut,
        Op::AttnScores { .. } => b is Scores,
        Op::Softmax { .. } => b is Scores,
        Op::AttnValues { .. } => b is AttnOut,
        Op::VecAdd { to, .. } => b == to,
        Op::Silu { buf, .. } => b == buf,
        Op::VecMul { to, .. } => b == to,
    }
}

/// Whether the products in `open` have been read by the end of `ops`, and none that
/// `ops` makes is written over before it is read: `open` and the answer are the
/// buffers whose products are still to be read.
spec fn unread(open: Set<Buf>, ops: Seq<Op>) -> Option<Set<Buf>>
    decreases ops.len(),
{
    if ops.len() == 0 {
        Some(open)
    } else {
        match unread(open, ops.drop_last()) {
            None => None,
            Some(before) => {
                let op = ops.last();
                let left = before.filter(|b: Buf| !reads(op, b));
                if exists|b: Buf| left.contains(b) && writes(op, b) {
                    None
                } else if op is Matvec {
                    Some(left.insert(op->Matvec_out))
                } else {
                    Some(left)
                }
            },
        }
    }
}

proof fn lemma_unread_more(open: Set<Buf>, a: Seq<Op>, b: Seq<Op>)
    ensures
        unread(open, a) is None ==> unread(open, a + b) is None,
        unread(open, a) is Some ==> unread(open, a + b) == unread(unread(open, a)->0, b),
    decreases b.len(),
{
    if b.len() == 0 {
        assert(a + b =~= a);
    } else {
        lemma_unread_more(open, a, b.drop_last());
        assert((a + b).drop_last() =~= a + b.drop_last());
    }
}

/// What is known of the unread products: they are among `most`.
spec fn unread_within(open: Set<Buf>, ops: Seq<Op>, most: Set<Buf>) -> bool {
    unread(open, ops) is Some && unread(open, ops)->0.subset_of(most)
}

proof fn lemma_unread_one(open: Set<Buf>, op: Op, low: Set<Buf>, most: Set<Buf>)
    requires
        open.subset_of(low),
        forall|b: Buf| low.contains(b) && !reads(op, b) ==> !writes(op, b) && most.contains(b),
        op is Matvec ==> most.contains(op->Matvec_out),
    ensures
        unread_within(open, seq![op], most),
{
    let ops = seq![op];
    assert(ops.drop_last().len() == 0);
    assert(unread(open, ops.drop_last()) == Some(open));
    let left = open.filter(|b: Buf| !reads(op, b));
    assert forall|b: Buf| left.contains(b) implies !writes(op, b) && most.contains(b) by {
        assert(low.contains(b) && !reads(op, b));
    }
}

proof fn lemma_unread_then(
    open: Set<Buf>,
    a: Seq<Op>,
    b: Seq<Op>,
    middle: Set<Buf>,
    most: Set<Buf>,
)
    requires
        unread_within(open, a, middle),
        forall|s: Set<Buf>| #[trigger] s.subset_of(middle) ==> unread_within(s, b, most),
    ensures
        unread_within(open, a + b, most),
{
    lemma_unread_more(open, a, b);
    let s = unread(open, a)->0;
    assert(s.subset_of(middle));
}

/// A step that may be left out.
proof fn lemma_unread_given(
    open: Set<Buf>,
    has: Set<Seq<char>>,
    weight: Weight,
    op: Op,
    low: Set<Buf>,
    most: Set<Buf>,
)
    requires
        open.subset_of(low),
        low.subset_of(most),
        forall|b: Buf| low.contains(b) && !reads(op, b) ==> !writes(op, b),
        op is Matvec ==> most.contains(op->Matvec_out),
    ensures
        unread_within(open, given(has, weight, seq![op]), most),
{
    if has.contains(weight.name()) {
        lemma_unread_one(open, op, low, most);
    } else {
        assert forall|b: Buf| open.contains(b) implies most.contains(b) by {
            assert(low.contains(b));
        }
    }
}

proof fn lemma_unread_projections(
    open: Set<Buf>,
    meta: MetaModel,
    has: Set<Seq<char>>,
    a: ForwardArgs,
    l: usize,
)
    requires
        open.subset_of(Set::empty()),
    ensures
        unread_within(
            open,
            projection_ops(meta, has, a, l),
            set![Buf::Q, Buf::K, Buf::V],
        ),
{
    let n = meta.n_embd;
    let kv = kv_width(meta) as usize;
    let norm = Weight::Layer(l, Part::AttentionNorm);
    let wq = Weight::Layer(l, Part::Wq);
    let wk = Weight::Layer(l, Part::Wk);
    let wv = Weight::Layer(l, Part::Wv);
    let o1 = norm_op(meta, Buf::Hidden, Buf::Hidden, norm);
    let o2 = matvec_op(meta, a.style, Buf::Q, wq, Buf::Hidden, n, n);
    let o3 = matvec_op(meta, a.style, Buf::K, wk, Buf::Hidden, kv, n);
    let o4 = matvec_op(meta, a.style, Buf::V, wv, Buf::Hidden, kv, n);
    let g1 = given(has, norm, seq![o1]);
    let g2 = given(has, wq, seq![o2]);
    let g3 = given(has, wk, seq![o3]);
    let g4 = given(has, wv, seq![o4]);
    let m0 = Set::<Buf>::empty();
    let m1 = set![Buf::Q];
    let m2 = set![Buf::Q, Buf::K];
    let m3 = set![Buf::Q, Buf::K, Buf::V];
    lemma_unread_given(open, has, norm, o1, m0, m0);
    assert forall|s: Set<Buf>| #[trigger] s.subset_of(m0) implies unread_within(s, g2, m1) by {
        lemma_unread_given(s, has, wq, o2, m0, m1);
    }
    lemma_unread_then(open, g1, g2, m0, m1);
    assert forall|s: Set<Buf>| #[trigger] s.subset_of(m1) implies unread_within(s, g3, m2) by {
        lemma_unread_given(s, has, wk, o3, m1, m2);
    }
    lemma_unread_then(open, g1 + g2, g3, m1, m2);
    assert forall|s: Set<Buf>| #[trigger] s.subset_of(m2) implies unread_within(s, g4, m3) by {
        lemma_unread_given(s, has, wv, o4, m2, m3);
    }
    lemma_unread_then(open, g1 + g2 + g3, g4, m2, m3);
}

/// Steps that make no products leave none unread.
proof fn lemma_unread_quiet(open: Set<Buf>, ops: Seq<Op>)
    requires
        open.subset_of(Set::empty()),
        forall|i: int| 0 <= i < ops.len() ==> !(#[trigger] ops[i] is Matvec),
    ensures
        unread_within(open, ops, Set::empty()),
    decreases ops.len(),
{
    if ops.len() > 0 {
        let less = ops.drop_last();
        assert forall|i: int| 0 <= i < less.len() implies !(#[trigger] less[i] is Matvec) by {
            assert(less[i] == ops[i]);
        }
        lemma_unread_quiet(open, less);
        let before = unread(open, less)->0;
        assert(forall|b: Buf| !before.contains(b));
        assert(!(ops[ops.len() - 1] is Matvec));
    }
}

proof fn lemma_unread_core(open: Set<Buf>, meta: MetaModel, a: ForwardArgs, l: usize)
    requires
        open.subset_of(set![Buf::V]),
    ensures
        unread_within(open, core_ops(meta, a, l), Set::empty()),
{
    let ops = core_ops(meta, a, l);
    let none = Set::<Buf>::empty();
    let first = ops[0];
    let rest = ops.skip(1);
    assert(first is KvUpdate);
    lemma_unread_one(open, first, set![Buf::V], none);
    assert forall|i: int| 0 <= i < rest.len() implies !(#[trigger] rest[i] is Matvec) by {
        assert(rest[i] == ops[i + 1]);
    }
    assert forall|s: Set<Buf>| #[trigger] s.subset_of(none) implies unread_within(
        s,
        rest,
        none,
    ) by {
        lemma_unread_quiet(s, rest);
    }
    lemma_unread_then(open, seq![first], rest, none, none);
    assert(ops =~= seq![first] + rest);
}

/// A product and the addition that reads it.
proof fn lemma_unread_added(
    open: Set<Buf>,
    has: Set<Seq<char>>,
    weight: Weight,
    x: Op,
    y: Op,
)
    requires
        open.subset_of(Set::empty()),
        x is Matvec,
        !(y is Matvec),
        reads(y, x->Matvec_out),
    ensures
        unread_within(open, given(has, weight, seq![x, y]), Set::empty()),
{
    let none = Set::<Buf>::empty();
    if has.contains(weight.name()) {
        let made = set![x->Matvec_out];
        lemma_unread_one(open, x, none, made);
        assert forall|s: Set<Buf>| #[trigger] s.subset_of(made) implies unread_within(
            s,
            seq![y],
            none,
        ) by {
            lemma_unread_one(s, y, made, none);
        }
        lemma_unread_then(open, seq![x], seq![y], made, none);
        assert(seq![x, y] =~= seq![x] + seq![y]);
    }
}

proof fn lemma_unread_attention(
    open: Set<Buf>,
    meta: MetaModel,
    has: Set<Seq<char>>,
    a: ForwardArgs,
    l: usize,
)
    requires
        open.subset_of(Set::empty()),
    ensures
        unread_within(open, attention_ops(meta, has, a, l), Set::empty()),
{
    let x = projection_ops(meta, has, a, l);
    let rope = rope_op(meta, a);
    let y = core_ops(meta, a, l);
    let z = output_ops(meta, has, a, l);
    let none = Set::<Buf>::empty();
    let all = set![Buf::Q, Buf::K, Buf::V];
    let v = set![Buf::V];
    lemma_unread_projections(open, meta, has, a, l);
    assert forall|s: Set<Buf>| #[trigger] s.subset_of(all) implies unread_within(
        s,
        seq![rope],
        v,
    ) by {
        lemma_unread_one(s, rope, all, v);
    }
    lemma_unread_then(open, x, seq![rope], all, v);
    assert forall|s: Set<Buf>| #[trigger] s.subset_of(v) implies unread_within(s, y, none) by {
        lemma_unread_core(s, meta, a, l);
    }
    lemma_unread_then(open, x + seq![rope], y, v, none);
    let n = meta.n_embd;
    let wo = Weight::Layer(l, Part::Wo);
    assert forall|s: Set<Buf>| #[trigger] s.subset_of(none) implies unread_within(s, z, none) by {
        lemma_unread_added(
            s,
            has,
            wo,
            matvec_op(meta, a.style, Buf::AttnProj, wo, Buf::AttnOut, n, n),
            Op::VecAdd { to: Buf::Hidden, from: Buf::AttnProj, threads: n },
        );
    }
    lemma_unread_then(open, x + seq![rope] + y, z, none, none);
}

proof fn lemma_unread_mlp(
    open: Set<Buf>,
    meta: MetaModel,
    has: Set<Seq<char>>,
    a: ForwardArgs,
    l: usize,
)
    requires
        open.subset_of(Set::empty()),
    ensures
        unread_within(open, mlp_ops(meta, has, a, l), Set::empty()),
{
    let n = meta.n_embd;
    let ff = meta.n_ff;
    let norm = Weight::Layer(l, Part::FfnNorm);
    let w1 = Weight::Layer(l, Part::W1);
    let w2 = Weight::Layer(l, Part::W2);
    let w3 = Weight::Layer(l, Part::W3);
    let none = Set::<Buf>::empty();
    if has.contains(norm.name()) {
        let o1 = norm_op(meta, Buf::MlpIn, Buf::Hidden, norm);
        let o2 = matvec_op(meta, a.style, Buf::MlpGate, w1, Buf::MlpIn, ff, n);
        let o3 = matvec_op(meta, a.style, Buf::MlpUp, w3, Buf::MlpIn, ff, n);
        let o4 = Op::Silu { buf: Buf::MlpGate, threads: ff };
        let o5 = Op::VecMul { to: Buf::MlpGate, by: Buf::MlpUp, threads: ff };
        let o6 = matvec_op(meta, a.style, Buf::MlpOut, w2, Buf::MlpGate, n, ff);
        let o7 = Op::VecAdd { to: Buf::Hidden, from: Buf::MlpOut, threads: n };
        let g2 = given(has, w1, seq![o2]);
        let g3 = given(has, w3, seq![o3]);
        let g6 = given(has, w2, seq![o6, o7]);
        let m1 = set![Buf::MlpGate];
        let m2 = set![Buf::MlpGate, Buf::MlpUp];
        let m3 = set![Buf::MlpUp];
        lemma_unread_one(open, o1, none, none);
        assert forall|s: Set<Buf>| #[trigger] s.subset_of(none) implies unread_within(
            s,
            g2,
            m1,
        ) by {
            lemma_unread_given(s, has, w1, o2, none, m1);
        }
        lemma_unread_then(open, seq![o1], g2, none, m1);
        assert forall|s: Set<Buf>| #[trigger] s.subset_of(m1) implies unread_within(s, g3, m2) by {
            lemma_unread_given(s, has, w3, o3, m1, m2);
        }
        lemma_unread_then(open, seq![o1] + g2, g3, m1, m2);
        assert forall|s: Set<Buf>| #[trigger] s.subset_of(m2) implies unread_within(
            s,
            seq![o4, o5],
            none,
        ) by {
            lemma_unread_one(s, o4, m2, m3);
            assert forall|t: Set<Buf>| #[trigger] t.subset_of(m3) implies unread_within(
                t,
                seq![o5],
                none,
            ) by {
                lemma_unread_one(t, o5, m3, none);
            }
            lemma_unread_then(s, seq![o4], seq![o5], m3, none);
            assert(seq![o4, o5] =~= seq![o4] + seq![o5]);
        }
        lemma_unread_then(open, seq![o1] + g2 + g3, seq![o4, o5], m2, none);
        assert forall|s: Set<Buf>| #[trigger] s.subset_of(none) implies unread_within(
            s,
            g6,
            none,
        ) by {
            lemma_unread_added(s, has, w2, o6, o7);
        }
        lemma_unread_then(open, seq![o1] + g2 + g3 + seq![o4, o5], g6, none, none);
    }
}

proof fn lemma_unread_layers(
    meta: MetaModel,
    has: Set<Seq<char>>,
    a: ForwardArgs,
    layers: nat,
)
    ensures
        unread_within(Set::empty(), layers_ops(meta, has, a, layers), Set::empty()),
    decreases layers,
{
    let none = Set::<Buf>::empty();
    if layers == 0 {
        let copy = Op::CopyEmbedding {
            from: (a.token as nat * meta.n_embd as nat) as usize,
            count: meta.n_embd,
        };
        lemma_unread_given(none, has, Weight::TokenEmbd, copy, none, none);
    } else {
        let l = (layers - 1) as usize;
        let below = layers_ops(meta, has, a, (layers - 1) as nat);
        let x = attention_ops(meta, has, a, l);
        let y = mlp_ops(meta, has, a, l);
        lemma_unread_layers(meta, has, a, (layers - 1) as nat);
        assert forall|s: Set<Buf>| #[trigger] s.subset_of(none) implies unread_within(
            s,
            x,
            none,
        ) by {
            lemma_unread_attention(s, meta, has, a, l);
        }
        lemma_unread_then(none, below, x, none, none);
        assert forall|s: Set<Buf>| #[trigger] s.subset_of(none) implies unread_within(
            s,
            y,
            none,
        ) by {
            lemma_unread_mlp(s, meta, has, a, l);
        }
        lemma_unread_then(none, below + x, y, none, none);
    }
}

/// Where nothing was written over, a product that is no longer open was read before
/// its buffer was written again.
proof fn lemma_read_or_open(ops: Seq<Op>, i: int)
    requires
        unread(Set::empty(), ops) is Some,
        0 <= i < ops.len(),
        ops[i] is Matvec,
    ensures
        ({
            let b = ops[i]->Matvec_out;
            ||| unread(Set::empty(), ops)->0.contains(b) && forall|m: int|
                i < m < ops.len() ==> !writes(#[trigger] ops[m], b)
            ||| exists|j: int|
                i < j < ops.len() && reads(#[trigger] ops[j], b) && forall|m: int|
                    i < m < j ==> !writes(#[trigger] ops[m], b)
        }),
    decreases ops.len(),
{
    let b = ops[i]->Matvec_out;
    let less = ops.drop_last();
    let last = ops.last();
    let end = ops.len() - 1;
    let before = unread(Set::empty(), less)->0;
    let left = before.filter(|b: Buf| !reads(last, b));
    if i < end {
        lemma_read_or_open(less, i);
        assert(less[i] == ops[i]);
        if exists|j: int|
            i < j < less.len() && reads(#[trigger] less[j], b) && forall|m: int|
                i < m < j ==> !writes(#[trigger] less[m], b) {
            let j = choose|j: int|
                i < j < less.len() && reads(#[trigger] less[j], b) && forall|m: int|
                    i < m < j ==> !writes(#[trigger] less[m], b);
            assert(reads(ops[j], b));
            assert forall|m: int| i < m < j implies !writes(#[trigger] ops[m], b) by {
                assert(less[m] == ops[m]);
            }
        } else {
            assert(before.contains(b));
            assert forall|m: int| i < m < end implies !writes(#[trigger] ops[m], b) by {
                assert(less[m] == ops[m]);
            }
            if reads(last, b) {
                assert(reads(ops[end], b));
            } else {
                assert(left.contains(b));
                assert(!writes(last, b));
            }
        }
    }
}

/// Every product of a pass is used: a later step reads the buffer that it was written
/// to before anything else is written there. Only the logits are left at the end.
/// This holds whatever weights are missing.
pub proof fn products_are_read_before_they_are_replaced(
    meta: MetaModel,
    has: Set<Seq<char>>,
    a: ForwardArgs,
    i: int,
)
    requires
        0 <= i < forward_ops(meta, has, a).len(),
        forward_ops(meta, has, a)[i] is Matvec,
    ensures
        ({
            let ops = forward_ops(meta, has, a);
            let b = ops[i]->Matvec_out;
            ||| b == Buf::Logits
            ||| exists|j: int|
                i < j < ops.len() && reads(#[trigger] ops[j], b) && forall|m: int|
                    i < m < j ==> !writes(#[trigger] ops[m], b)
        }),
{
    let n = meta.n_layer as nat;
    let none = Set::<Buf>::empty();
    let logits = set![Buf::Logits];
    let body = layers_ops(meta, has, a, n);
    lemma_unread_layers(meta, has, a, n);
    let o1 = norm_op(meta, Buf::Hidden, Buf::Hidden, Weight::OutputNorm);
    let o2 = matvec_op(
        meta,
        a.style,
        Buf::Logits,
        Weight::Output,
        Buf::Hidden,
        meta.n_vocab,
        meta.n_embd,
    );
    let g1 = given(has, Weight::OutputNorm, seq![o1]);
    let g2 = given(has, Weight::Output, seq![o2]);
    assert forall|s: Set<Buf>| #[trigger] s.subset_of(none) implies unread_within(
        s,
        g1 + g2,
        logits,
    ) by {
        lemma_unread_given(s, has, Weight::OutputNorm, o1, none, none);
        assert forall|t: Set<Buf>| #[trigger] t.subset_of(none) implies unread_within(
            t,
            g2,
            logits,
        ) by {
            lemma_unread_given(t, has, Weight::Output, o2, none, logits);
        }
        lemma_unread_then(s, g1, g2, none, logits);
    }
    lemma_unread_then(none, body, g1 + g2, none, logits);
    assert(forward_ops(meta, has, a) == body + (g1 + g2));
    lemma_read_or_open(forward_ops(meta, has, a), i);
}

/// Whether the products that end attention and feed-forward network are each followed
/// by the step that adds them to the hidden state.
spec fn outputs_are_added(ops: Seq<Op>) -> bool {
    forall|i: int|
        0 <= i < ops.len() && ends_a_block(#[trigger] ops[i]) ==> i + 1 < ops.len() && adds(
            ops[i + 1],
            ops[i]->Matvec_out,
        )
}

/// Whether a step is the last product of attention or of the feed-forward network.
pub open spec fn ends_a_block(op: Op) -> bool {
    op is Matvec && match op->Matvec_weight {
        Weight::Layer(_, part) => part is Wo || part is W2,
        _ => false,
    }
}

/// Whether a step adds a buffer to the hidden state.
pub open spec fn adds(op: Op, b: Buf) -> bool {
    op is VecAdd && op->VecAdd_to == Buf::Hidden && op->VecAdd_from == b
}

proof fn lemma_added_more(a: Seq<Op>, b: Seq<Op>)
    requires
        outputs_are_added(a),
        outputs_are_added(b),
    ensures
        outputs_are_added(a + b),
{
    let ops = a + b;
    assert forall|i: int| 0 <= i < ops.len() && ends_a_block(#[trigger] ops[i]) implies i + 1
        < ops.len() && adds(ops[i + 1], ops[i]->Matvec_out) by {
        if i < a.len() {
            assert(ops[i] == a[i]);
            assert(ops[i + 1] == a[i + 1]);
        } else {
            assert(ops[i] == b[i - a.len()]);
            assert(ops[i + 1] == b[i - a.len() + 1]);
        }
    }
}

proof fn lemma_outputs_are_added(meta: MetaModel, has: Set<Seq<char>>, a: ForwardArgs, layers: nat)
    ensures
        outputs_are_added(layers_ops(meta, has, a, layers)),
    decreases layers,
{
    if layers > 0 {
        let l = (layers - 1) as usize;
        lemma_outputs_are_added(meta, has, a, (layers - 1) as nat);
        let below = layers_ops(meta, has, a, (layers - 1) as nat);
        let x = projection_ops(meta, has, a, l);
        let rope = seq![rope_op(meta, a)];
        let y = core_ops(meta, a, l);
        let z = output_ops(meta, has, a, l);
        assert(outputs_are_added(x));
        lemma_added_more(x, rope);
        lemma_added_more(x + rope, y);
        lemma_added_more(x + rope + y, z);
        let mlp = mlp_ops(meta, has, a, l);
        let n = meta.n_embd;
        let ff = meta.n_ff;
        let norm = Weight::Layer(l, Part::FfnNorm);
        let w1 = Weight::Layer(l, Part::W1);
        let w2 = Weight::Layer(l, Part::W2);
        let w3 = Weight::Layer(l, Part::W3);
        let front = seq![norm_op(meta, Buf::MlpIn, Buf::Hidden, norm)]
            + given(has, w1, seq![matvec_op(meta, a.style, Buf::MlpGate, w1, Buf::MlpIn, ff, n)])
            + given(has, w3, seq![matvec_op(meta, a.style, Buf::MlpUp, w3, Buf::MlpIn, ff, n)])
            + seq![
            Op::Silu { buf: Buf::MlpGate, threads: ff },
            Op::VecMul { to: Buf::MlpGate, by: Buf::MlpUp, threads: ff },
        ];
        let back = given(
            has,
            w2,
            seq![
                matvec_op(meta, a.style, Buf::MlpOut, w2, Buf::MlpGate, n, ff),
                Op::VecAdd { to: Buf::Hidden, from: Buf::MlpOut, threads: n },
            ],
        );
        assert(outputs_are_added(front));
        lemma_added_more(front, back);
        if has.contains(norm.name()) {
            assert(mlp == front + back);
        } else {
            assert(mlp =~= Seq::<Op>::empty());
        }
        let att = attention_ops(meta, has, a, l);
        lemma_added_more(below, att);
        lemma_added_more(below + att, mlp);
    }
}

/// The product with the output projection of attention, and that with the last weight
/// of the feed-forward network, are each added to the hidden state by the very next
/// step, out of the buffer that the product was written to.
pub proof fn block_outputs_are_added_to_the_hidden_state(
    meta: MetaModel,
    has: Set<Seq<char>>,
    a: ForwardArgs,
    i: int,
)
    requires
        0 <= i < forward_ops(meta, has, a).len(),
        ends_a_block(forward_ops(meta, has, a)[i]),
    ensures
        i + 1 < forward_ops(meta, has, a).len(),
        adds(forward_ops(meta, has, a)[i + 1], forward_ops(meta, has, a)[i]->Matvec_out),
{
    let n = meta.n_layer as nat;
    lemma_outputs_are_added(meta, has, a, n);
    assert(outputs_are_added(head_ops(meta, has, a)));
    lemma_added_more(layers_ops(meta, has, a, n), head_ops(meta, has, a));
    let ops = forward_ops(meta, has, a);
    assert(ends_a_block(ops[i]));
}

// ── Each step ────────────────────────────────────────────────────────────────

/// Whether a step is one that layer `l` takes.
spec fn is_layer_op(meta: MetaModel, a: ForwardArgs, l: usize, op: Op) -> bool {
    let n = meta.n_embd;
    let kv = kv_width(meta) as usize;
    let ff = meta.n_ff;
    let core = core_ops(meta, a, l);
    ||| op == norm_op(meta, Buf::Hidden, Buf::Hidden, Weight::Layer(l, Part::AttentionNorm))
    ||| op == matvec_op(meta, a.style, Buf::Q, Weight::Layer(l, Part::Wq), Buf::Hidden, n, n)
    ||| op == matvec_op(meta, a.style, Buf::K, Weight::Layer(l, Part::Wk), Buf::Hidden, kv, n)
    ||| op == matvec_op(meta, a.style, Buf::V, Weight::Layer(l, Part::Wv), Buf::Hidden, kv, n)
    ||| op == rope_op(meta, a)
    ||| op == core[0]
    ||| op == core[1]
    ||| a.style is Stepwise && op == core[2]
    ||| a.style is Stepwise && op == core[3]
    ||| op == matvec_op(
        meta,
        a.style,
        Buf::AttnProj,
        Weight::Layer(l, Part::Wo),
        Buf::AttnOut,
        n,
        n,
    )
    ||| op == (Op::VecAdd { to: Buf::Hidden, from: Buf::AttnProj, threads: n })
    ||| op == norm_op(meta, Buf::MlpIn, Buf::Hidden, Weight::Layer(l, Part::FfnNorm))
    ||| op == matvec_op(
        meta,
        a.style,
        Buf::MlpGate,
        Weight::Layer(l, Part::W1),
        Buf::MlpIn,
        ff,
        n,
    )
    ||| op == matvec_op(meta, a.style, Buf::MlpUp, Weight::Layer(l, Part::W3), Buf::MlpIn, ff, n)
    ||| op == (Op::Silu { buf: Buf::MlpGate, threads: ff })
    ||| op == (Op::VecMul { to: Buf::MlpGate, by: Buf::MlpUp, threads: ff })
    ||| op == matvec_op(
        meta,
        a.style,
        Buf::MlpOut,
        Weight::Layer(l, Part::W2),
        Buf::MlpGate,
        n,
        ff,
    )
    ||| op == (Op::VecAdd { to: Buf::Hidden, from: Buf::MlpOut, threads: n })
}

/// Whether a step is one that a pass takes.
spec fn is_pass_op(meta: MetaModel, a: ForwardArgs, op: Op) -> bool {
    ||| op == (Op::CopyEmbedding {
        from: (a.token as nat * meta.n_embd as nat) as usize,
        count: meta.n_embd,
    })
    ||| exists|l: usize| l < meta.n_layer && #[trigger] is_layer_op(meta, a, l, op)
    ||| op == norm_op(meta, Buf::Hidden, Buf::Hidden, Weight::OutputNorm)
    ||| op == matvec_op(
        meta,
        a.style,
        Buf::Logits,
        Weight::Output,
        Buf::Hidden,
        meta.n_vocab,
        meta.n_embd,
    )
}

/// The weight that a step reads.
pub open spec fn weight_read(op: Op) -> Option<Weight> {
    match op {
        Op::CopyEmbedding { .. } => Some(Weight::TokenEmbd),
        Op::RmsNorm { weight, .. } => Some(weight),
        Op::Matvec { weight, .. } => Some(weight),
        _ => None,
    }
}

spec fn weight_given(has: Set<Seq<char>>, op: Op) -> bool {
    weight_read(op) is Some ==> has.contains(weight_read(op)->0.name())
}

/// Whether all steps are steps of layer `l`, with their weights there.
spec fn are_layer_ops(
    meta: MetaModel,
    has: Set<Seq<char>>,
    a: ForwardArgs,
    l: usize,
    ops: Seq<Op>,
) -> bool {
    forall|i: int|
        0 <= i < ops.len() ==> is_layer_op(meta, a, l, #[trigger] ops[i]) && weight_given(
            has,
            ops[i],
        )
}

proof fn lemma_layer_ops_more(
    meta: MetaModel,
    has: Set<Seq<char>>,
    a: ForwardArgs,
    l: usize,
    x: Seq<Op>,
    y: Seq<Op>,
)
    requires
        are_layer_ops(meta, has, a, l, x),
        are_layer_ops(meta, has, a, l, y),
    ensures
        are_layer_ops(meta, has, a, l, x + y),
{
    let ops = x + y;
    assert forall|i: int| 0 <= i < ops.len() implies is_layer_op(meta, a, l, #[trigger] ops[i])
        && weight_given(has, ops[i]) by {
        if i < x.len() {
            assert(ops[i] == x[i]);
        } else {
            assert(ops[i] == y[i - x.len()]);
        }
    }
}

proof fn lemma_layer_op_given(
    meta: MetaModel,
    has: Set<Seq<char>>,
    a: ForwardArgs,
    l: usize,
    weight: Weight,
    op: Op,
)
    requires
        is_layer_op(meta, a, l, op),
        weight_read(op) == Some(weight),
    ensures
        are_layer_ops(meta, has, a, l, given(has, weight, seq![op])),
{
}

proof fn lemma_attention_steps(
    meta: MetaModel,
    has: Set<Seq<char>>,
    a: ForwardArgs,
    l: usize,
)
    ensures
        are_layer_ops(meta, has, a, l, attention_ops(meta, has, a, l)),
{
    let n = meta.n_embd;
    let kv = kv_width(meta) as usize;
    let norm = Weight::Layer(l, Part::AttentionNorm);
    let wq = Weight::Layer(l, Part::Wq);
    let wk = Weight::Layer(l, Part::Wk);
    let wv = Weight::Layer(l, Part::Wv);
    let wo = Weight::Layer(l, Part::Wo);
    let o1 = norm_op(meta, Buf::Hidden, Buf::Hidden, norm);
    let o2 = matvec_op(meta, a.style, Buf::Q, wq, Buf::Hidden, n, n);
    let o3 = matvec_op(meta, a.style, Buf::K, wk, Buf::Hidden, kv, n);
    let o4 = matvec_op(meta, a.style, Buf::V, wv, Buf::Hidden, kv, n);
    let g1 = given(has, norm, seq![o1]);
    let g2 = given(has, wq, seq![o2]);
    let g3 = given(has, wk, seq![o3]);
    let g4 = given(has, wv, seq![o4]);
    lemma_layer_op_given(meta, has, a, l, norm, o1);
    lemma_layer_op_given(meta, has, a, l, wq, o2);
    lemma_layer_op_given(meta, has, a, l, wk, o3);
    lemma_layer_op_given(meta, has, a, l, wv, o4);
    lemma_layer_ops_more(meta, has, a, l, g1, g2);
    lemma_layer_ops_more(meta, has, a, l, g1 + g2, g3);
    lemma_layer_ops_more(meta, has, a, l, g1 + g2 + g3, g4);
    let x = projection_ops(meta, has, a, l);
    let rope = seq![rope_op(meta, a)];
    let y = core_ops(meta, a, l);
    let z = output_ops(meta, has, a, l);
    assert(are_layer_ops(meta, has, a, l, rope));
    assert(are_layer_ops(meta, has, a, l, y));
    assert(are_layer_ops(meta, has, a, l, z));
    lemma_layer_ops_more(meta, has, a, l, x, rope);
    lemma_layer_ops_more(meta, has, a, l, x + rope, y);
    lemma_layer_ops_more(meta, has, a, l, x + rope + y, z);
}

proof fn lemma_mlp_steps(meta: MetaModel, has: Set<Seq<char>>, a: ForwardArgs, l: usize)
    ensures
        are_layer_ops(meta, has, a, l, mlp_ops(meta, has, a, l)),
{
    let n = meta.n_embd;
    let ff = meta.n_ff;
    let norm = Weight::Layer(l, Part::FfnNorm);
    let w1 = Weight::Layer(l, Part::W1);
    let w2 = Weight::Layer(l, Part::W2);
    let w3 = Weight::Layer(l, Part::W3);
    if has.contains(norm.name()) {
        let o1 = norm_op(meta, Buf::MlpIn, Buf::Hidden, norm);
        let o2 = matvec_op(meta, a.style, Buf::MlpGate, w1, Buf::MlpIn, ff, n);
        let o3 = matvec_op(meta, a.style, Buf::MlpUp, w3, Buf::MlpIn, ff, n);
        let g1 = seq![o1];
        let g2 = given(has, w1, seq![o2]);
        let g3 = given(has, w3, seq![o3]);
        let g4 = seq![
            Op::Silu { buf: Buf::MlpGate, threads: ff },
            Op::VecMul { to: Buf::MlpGate, by: Buf::MlpUp, threads: ff },
        ];
        let g5 = given(
            has,
            w2,
            seq![
                matvec_op(meta, a.style, Buf::MlpOut, w2, Buf::MlpGate, n, ff),
                Op::VecAdd { to: Buf::Hidden, from: Buf::MlpOut, threads: n },
            ],
        );
        lemma_layer_op_given(meta, has, a, l, w1, o2);
        lemma_layer_op_given(meta, has, a, l, w3, o3);
        assert(are_layer_ops(meta, has, a, l, g1));
        assert(are_layer_ops(meta, has, a, l, g4));
        assert(are_layer_ops(meta, has, a, l, g5));
        lemma_layer_ops_more(meta, has, a, l, g1, g2);
        lemma_layer_ops_more(meta, has, a, l, g1 + g2, g3);
        lemma_layer_ops_more(meta, has, a, l, g1 + g2 + g3, g4);
        lemma_layer_ops_more(meta, has, a, l, g1 + g2 + g3 + g4, g5);
    }
}

proof fn lemma_pass_op(meta: MetaModel, has: Set<Seq<char>>, a: ForwardArgs, layers: nat, i: int)
    requires
        layers <= meta.n_layer,
        0 <= i < layers_ops(meta, has, a, layers).len(),
    ensures
        is_pass_op(meta, a, layers_ops(meta, has, a, layers)[i]),
        weight_given(has, layers_ops(meta, has, a, layers)[i]),
    decreases layers,
{
    if layers > 0 {
        let l = (layers - 1) as usize;
        let below = layers_ops(meta, has, a, (layers - 1) as nat);
        let att = attention_ops(meta, has, a, l);
        let mlp = mlp_ops(meta, has, a, l);
        let ops = layers_ops(meta, has, a, layers);
        if i < below.len() {
            lemma_pass_op(meta, has, a, (layers - 1) as nat, i);
            assert(ops[i] == below[i]);
        } else if i < below.len() + att.len() {
            lemma_attention_steps(meta, has, a, l);
            assert(ops[i] == att[i - below.len()]);
            assert(is_layer_op(meta, a, l, ops[i]));
        } else {
            lemma_mlp_steps(meta, has, a, l);
            assert(ops[i] == mlp[i - below.len() - att.len()]);
            assert(is_layer_op(meta, a, l, ops[i]));
        }
    }
}

proof fn lemma_forward_op(meta: MetaModel, has: Set<Seq<char>>, a: ForwardArgs, i: int)
    requires
        0 <= i < forward_ops(meta, has, a).len(),
    ensures
        is_pass_op(meta, a, forward_ops(meta, has, a)[i]),
        weight_given(has, forward_ops(meta, has, a)[i]),
{
    let n = meta.n_layer as nat;
    let body = layers_ops(meta, has, a, n);
    let ops = forward_ops(meta, has, a);
    let head = head_ops(meta, has, a);
    if i < body.len() {
        lemma_pass_op(meta, has, a, n, i);
        assert(ops[i] == body[i]);
    } else {
        assert(ops[i] == head[i - body.len()]);
    }
}

/// A pass reads no weight that is not there.
pub proof fn passes_read_the_weights_that_are_there(
    meta: MetaModel,
    has: Set<Seq<char>>,
    a: ForwardArgs,
    i: int,
)
    requires
        0 <= i < forward_ops(meta, has, a).len(),
    ensures
        weight_read(forward_ops(meta, has, a)[i]) is Some ==> has.contains(
            weight_read(forward_ops(meta, has, a)[i])->0.name(),
        ),
{
    lemma_forward_op(meta, has, a, i);
}

/// Every step runs on as many threads as it has work: norms and sums one for each
/// value, products one for each row, rotations one for each pair, attention one for
/// each head. A step that reads a buffer whole reads as many values as the buffer
/// holds, and every position that it is told is that of the pass.
pub proof fn grids_cover_their_work(
    meta: MetaModel,
    has: Set<Seq<char>>,
    a: ForwardArgs,
    i: int,
)
    requires
        0 <= i < forward_ops(meta, has, a).len(),
        countable_pass(meta, a),
    ensures
        match forward_ops(meta, has, a)[i] {
            Op::CopyEmbedding { from, count } => count == Buf::Hidden.values(meta) && from
                == a.token * count,
            Op::RmsNorm { input, n, threads, eps, .. } => {
                &&& threads == input.values(meta)
                &&& n == threads as u32
                &&& eps == meta.norm_eps
            },
            Op::Matvec { out, x, rows, cols, threads, .. } => {
                &&& rows == threads as u32
                &&& out is K || out is V || threads == out.values(meta)
                &&& out is K || out is V ==> threads == meta.n_head_kv * meta.head_dim
                &&& x is AttnOut || cols == x.values(meta) as usize as u32
                &&& x is AttnOut ==> cols == meta.n_embd as u32
            },
            Op::Rope { pos, threads, head_dim, base } => {
                &&& pos == a.pos as u32
                &&& 2 * threads <= (meta.n_head + meta.n_head_kv) * meta.head_dim < 2 * threads + 2
                &&& head_dim == meta.head_dim as u32
                &&& base == meta.rope_freq_base
            },
            Op::KvUpdate { cache, kernel, threads, .. } => {
                &&& cache.pos == a.pos as u32 && cache.slot == a.slot.0
                &&& kernel is KvUpdate ==> threads == meta.n_head_kv * meta.head_dim
                &&& !(kernel is KvUpdate) ==> threads == meta.n_head_kv
            },
            Op::PagedAttention { cache, n_ctx, n_head, threads, .. } => {
                &&& cache.pos == a.pos as u32 && cache.slot == a.slot.0
                &&& n_ctx == (a.pos + 1) as u32
                &&& threads == meta.n_head && n_head == meta.n_head as u32
            },
            Op::AttnScores { cache, n_ctx, threads, .. } => {
                &&& cache.pos == a.pos as u32 && cache.slot == a.slot.0
                &&& n_ctx == meta.n_ctx as u32
                &&& threads == meta.n_head
            },
            Op::Softmax { n_scores, threads } => n_scores == (a.pos + 1) as u32 && threads
                == meta.n_head,
            Op::AttnValues { cache, n_ctx, threads, .. } => {
                &&& cache.pos == a.pos as u32 && cache.slot == a.slot.0
                &&& n_ctx == meta.n_ctx as u32
                &&& threads == meta.n_head
            },
            Op::VecAdd { to, from, threads } => threads == to.values(meta) && threads
                == from.values(meta),
            Op::Silu { buf, threads } => threads == buf.values(meta),
            Op::VecMul { to, by, threads } => threads == to.values(meta) && threads == by.values(
                meta,
            ),
        },
{
    lemma_forward_op(meta, has, a, i);
    let op = forward_ops(meta, has, a)[i];
    let pairs = (meta.n_head + meta.n_head_kv) as nat * meta.head_dim as nat;
    assert(pairs == (meta.n_head + meta.n_head_kv) * meta.head_dim);
    assert(kv_width(meta) == meta.n_head_kv * meta.head_dim);
    assert(a.token as nat * meta.n_embd as nat == a.token * meta.n_embd);
}

/// The attention of stepwise passes reads the stretch of the pools that the same layer
/// stored into, and stretches of different layers do not meet.
pub proof fn layers_store_into_their_own_stretch(
    meta: MetaModel,
    a: ForwardArgs,
    l: usize,
    other: usize,
)
    requires
        countable_pass(meta, a),
        a.style is Stepwise,
        l < other < meta.n_layer,
    ensures
        ({
            let mine = core_ops(meta, a, l);
            let theirs = core_ops(meta, a, other);
            let bytes = a.max_pages * a.block_size * (meta.n_head_kv * meta.head_dim) * 4;
            &&& mine[0] is KvUpdate && mine[1] is AttnScores && mine[2] is Softmax
                && mine[3] is AttnValues
            &&& mine[0]->KvUpdate_offset == mine[1]->AttnScores_offset
            &&& mine[0]->KvUpdate_offset == mine[3]->AttnValues_offset
            &&& mine[0]->KvUpdate_offset + bytes <= theirs[0]->KvUpdate_offset
            &&& theirs[0]->KvUpdate_offset + bytes <= meta.n_layer * bytes
        }),
{
    let s = layer_stretch(meta, a);
    let kv = kv_width(meta);
    assert(kv == meta.n_head_kv * meta.head_dim);
    let p = a.max_pages as nat * a.block_size as nat;
    assert(p == a.max_pages * a.block_size);
    assert(p * kv == a.max_pages * a.block_size * (meta.n_head_kv * meta.head_dim));
    layer_stretches_are_apart(meta, a, l as nat);
    layer_stretches_are_apart(meta, a, other as nat);
    assert((l + 1) * s <= other * s) by (nonlinear_arith)
        requires
            l + 1 <= other,
    ;
}

/// Every product fits its weight: a complete model has a tensor of the weight's name
/// whose shape is the columns and the rows of the product.
pub proof fn products_fit_their_weights(
    meta: MetaModel,
    has: Set<Seq<char>>,
    a: ForwardArgs,
    i: int,
)
    requires
        0 <= i < forward_ops(meta, has, a).len(),
        forward_ops(meta, has, a)[i] is Matvec,
        countable_pass(meta, a),
    ensures
        ({
            let op = forward_ops(meta, has, a)[i];
            exists|k: int, cols: usize|
                0 <= k < model_loader::all_expected(meta).len()
                    && #[trigger] model_loader::all_expected(meta)[k]
                    == (model_loader::Expected {
                    name: op->Matvec_weight.name(),
                    shape: seq![cols as u64, op->Matvec_threads as u64],
                }) && op->Matvec_cols == #[trigger] (cols as u32)
        }),
{
    lemma_forward_op(meta, has, a, i);
    let op = forward_ops(meta, has, a)[i];
    let n = meta.n_embd;
    let ff = meta.n_ff;
    let kv = kv_width(meta) as usize;
    let all = model_loader::all_expected(meta);
    let below = model_loader::lower_expected(meta, meta.n_layer as nat);
    assert(kv as u64 == (meta.n_head_kv * meta.head_dim) as u64);
    if op->Matvec_weight == Weight::Output {
        let k = below.len() + 1;
        assert(all[k as int] == model_loader::output_expected(meta)[1]);
        let fit = model_loader::Expected {
            name: op->Matvec_weight.name(),
            shape: seq![n as u64, op->Matvec_threads as u64],
        };
        assert(all[k as int] == fit);
        assert(op->Matvec_cols == n as u32);
    } else {
        let l = choose|l: usize| l < meta.n_layer && #[trigger] is_layer_op(meta, a, l, op);
        assert(op->Matvec_weight is Layer);
        let part = op->Matvec_weight->Layer_1;
        let j: int = match part {
            Part::AttentionNorm => 0,
            Part::Wq => 1,
            Part::Wk => 2,
            Part::Wv => 3,
            Part::Wo => 4,
            Part::FfnNorm => 5,
            Part::W1 => 6,
            Part::W2 => 7,
            Part::W3 => 8,
        };
        let cols: usize = if part is W2 {
            ff
        } else {
            n
        };
        lemma_expected_at(meta, meta.n_layer as nat, l as nat, j);
        let k = 1 + 9 * l + j;
        assert(all[k] == model_loader::layer_expected(meta, l as nat)[j]);
        let fit = model_loader::Expected {
            name: op->Matvec_weight.name(),
            shape: seq![cols as u64, op->Matvec_threads as u64],
        };
        assert(all[k] == fit);
        assert(op->Matvec_cols == cols as u32);
    }
}

proof fn lemma_expected_at(meta: MetaModel, layers: nat, l: nat, j: int)
    requires
        l < layers,
        0 <= j < 9,
    ensures
        model_loader::lower_expected(meta, layers).len() == 1 + 9 * layers,
        model_loader::lower_expected(meta, layers)[1 + 9 * l + j] == model_loader::layer_expected(
            meta,
            l,
        )[j],
    decreases layers,
{
    lemma_expected_len(meta, (layers - 1) as nat);
    if l < layers - 1 {
        lemma_expected_at(meta, (layers - 1) as nat, l, j);
    }
}

proof fn lemma_expected_len(meta: MetaModel, layers: nat)
    ensures
        model_loader::lower_expected(meta, layers).len() == 1 + 9 * layers,
    decreases layers,
{
    if layers > 0 {
        lemma_expected_len(meta, (layers - 1) as nat);
    }
}

/// The names of the weights, layer by layer.
pub proof fn weights_have_their_names(l: usize)
    ensures
        ({
            let layer = "layers."@ + crate::text::decimal(l as nat);
            &&& Weight::Layer(l, Part::AttentionNorm).name() == layer + ".attention_norm.weight"@
            &&& Weight::Layer(l, Part::Wq).name() == layer + ".attention.wq.weight"@
            &&& Weight::Layer(l, Part::Wk).name() == layer + ".attention.wk.weight"@
            &&& Weight::Layer(l, Part::Wv).name() == layer + ".attention.wv.weight"@
            &&& Weight::Layer(l, Part::Wo).name() == layer + ".attention.wo.weight"@
            &&& Weight::Layer(l, Part::FfnNorm).name() == layer + ".ffn_norm.weight"@
            &&& Weight::Layer(l, Part::W1).name() == layer + ".feed_forward.w1.weight"@
            &&& Weight::Layer(l, Part::W2).name() == layer + ".feed_forward.w2.weight"@
            &&& Weight::Layer(l, Part::W3).name() == layer + ".feed_forward.w3.weight"@
        }),
        Weight::TokenEmbd.name() == "token_embd.weight"@,
        Weight::OutputNorm.name() == "output_norm.weight"@,
        Weight::Output.name() == "output.weight"@,
{
}

/// The weights that come to the device are those of the store, in their order and each
/// with its own stretch of the data, up to the first one whose bytes are not there.
pub proof fn uploads_are_the_tensors_of_the_store(
    listed: Seq<(Seq<char>, crate::gguf::TensorInfo)>,
    data_len: nat,
    n: nat,
    i: int,
)
    requires
        n <= listed.len(),
        data_len <= usize::MAX,
    ensures
        ({
            let (done, fault) = uploads_of(listed, data_len, n);
            &&& done.len() <= n
            &&& fault is None <==> done.len() == n
            &&& 0 <= i < done.len() ==> {
                &&& done[i].0 == listed[i].0
                &&& done[i].1 == listed[i].1.offset
                &&& done[i].2 == listed[i].1.nbytes
                &&& done[i].1 + done[i].2 <= data_len
            }
            &&& fault is Some ==> fault->0 == listed[done.len() as int].0
                && listed[done.len() as int].1.offset + listed[done.len() as int].1.nbytes
                > data_len
        }),
    decreases n,
{
    if n > 0 {
        uploads_are_the_tensors_of_the_store(listed, data_len, (n - 1) as nat, i);
    }
}

/// An uploaded weight is there with its size, and the others are left as they were.
pub proof fn uploaded_weights_are_held(
    weights: Map<Seq<char>, usize>,
    uploads: Seq<(Seq<char>, usize, usize)>,
    i: int,
    name: Seq<char>,
)
    requires
        forall|x: int, y: int|
            0 <= x < y < uploads.len() ==> #[trigger] uploads[x].0 != #[trigger] uploads[y].0,
    ensures
        ({
            let after = weights_after(weights, uploads);
            &&& 0 <= i < uploads.len() ==> after.contains_key(uploads[i].0) && after[uploads[i].0]
                == uploads[i].2
            &&& (forall|k: int| 0 <= k < uploads.len() ==> #[trigger] uploads[k].0 != name) ==> (
            after.contains_key(name) <==> weights.contains_key(name)) && (weights.contains_key(name)
                ==> after[name] == weights[name])
        }),
    decreases uploads.len(),
{
    if uploads.len() > 0 {
        let less = uploads.drop_last();
        assert forall|x: int, y: int| 0 <= x < y < less.len() implies #[trigger] less[x].0
            != #[trigger] less[y].0 by {
            assert(less[x] == uploads[x] && less[y] == uploads[y]);
        }
        uploaded_weights_are_held(weights, less, i, name);
        if 0 <= i < less.len() {
            assert(less[i] == uploads[i]);
            assert(uploads[i].0 != uploads[uploads.len() - 1].0);
        }
        if forall|k: int| 0 <= k < uploads.len() ==> #[trigger] uploads[k].0 != name {
            assert forall|k: int| 0 <= k < less.len() implies #[trigger] less[k].0 != name by {
                assert(less[k] == uploads[k]);
            }
            assert(uploads[uploads.len() - 1].0 != name);
        }
    }
}


/// The buffer of the scores has a place of its own for every head and every position of
/// the context, and none besides; that of the attention has one for every value of every
/// head.
pub proof fn scores_have_a_place_for_every_position(meta: MetaModel, head: nat, at: nat)
    requires
        head < meta.n_head,
    ensures
        at < meta.n_ctx ==> head * meta.n_ctx + at < Buf::Scores.values(meta),
        at < meta.head_dim ==> head * meta.head_dim + at < Buf::AttnOut.values(meta),
        meta.n_head == head + 1 ==> Buf::Scores.values(meta) == head * meta.n_ctx + meta.n_ctx,
        meta.n_head == head + 1 ==> Buf::AttnOut.values(meta) == head * meta.head_dim
            + meta.head_dim,
{
    let c = meta.n_ctx as int;
    let d = meta.head_dim as int;
    let n = meta.n_head as int;
    assert((head + 1) * c <= n * c && (head + 1) * d <= n * d) by (nonlinear_arith)
        requires
            head + 1 <= n,
            0 <= c,
            0 <= d,
    ;
    assert((head + 1) * c == head * c + c && (head + 1) * d == head * d + d) by (nonlinear_arith);
}
} // verus!
