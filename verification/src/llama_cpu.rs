//! LLaMA CPU inference: the steps of a transformer forward pass, the weights
//! they use, and the key/value cache.
//!
//! Supports LLaMA 2 / LLaMA 3 / Mistral architectures (GQA, SwiGLU, RoPE). A
//! flat key/value cache is maintained per layer.

use vstd::prelude::*;
use vstd::string::*;
use crate::gguf::TensorModel;
use crate::model_loader;
use crate::model_loader::{LoadError, LoadErrorModel, MetaModel, ModelMeta, WeightStore};
use crate::radix_cache::{CacheLookup, TokenId};
use crate::scalar::F32;
use crate::speculative::SpeculativeError;
use crate::text;
use crate::text::text_with_number;

verus! {

// ── KV cache ──────────────────────────────────────────────────────────────────

/// The keys and values of all positions so far. The values of a position stand
/// after each other, head by head.
#[derive(Debug)]
pub struct KvCache {
    n_layer: usize,
    n_head_kv: usize,
    head_dim: usize,
    n_ctx: usize,
    k: Vec<Vec<F32>>,
    v: Vec<Vec<F32>>,
    pub pos: usize,
}

/// A cache as seen from outside.
pub struct KvModel {
    pub n_head_kv: usize,
    pub head_dim: usize,
    pub n_ctx: usize,
    pub k: Seq<Seq<F32>>,
    pub v: Seq<Seq<F32>>,
    pub pos: usize,
}

/// The contents of some rows.
pub open spec fn rows_of(v: Seq<Vec<F32>>) -> Seq<Seq<F32>> {
    v.map_values(|r: Vec<F32>| r@)
}

impl View for KvCache {
    type V = KvModel;

    closed spec fn view(&self) -> KvModel {
        KvModel {
            n_head_kv: self.n_head_kv,
            head_dim: self.head_dim,
            n_ctx: self.n_ctx,
            k: rows_of(self.k@),
            v: rows_of(self.v@),
            pos: self.pos,
        }
    }
}

impl KvModel {
    /// The values of one position.
    pub open spec fn stride(self) -> nat {
        self.n_head_kv as nat * self.head_dim as nat
    }

    /// Every layer has room for all positions.
    pub open spec fn wf(self) -> bool {
        &&& self.k.len() == self.v.len()
        &&& self.n_ctx as nat * self.stride() <= usize::MAX
        &&& self.stride() <= usize::MAX
        &&& forall|l: int|
            0 <= l < self.k.len() ==> (#[trigger] self.k[l]).len() == self.n_ctx as nat
                * self.stride()
        &&& forall|l: int|
            0 <= l < self.v.len() ==> (#[trigger] self.v[l]).len() == self.n_ctx as nat
                * self.stride()
    }

    /// Where a head of a position starts.
    pub open spec fn head_start(self, t: nat, head: nat) -> nat {
        t * self.stride() + head * self.head_dim as nat
    }

    /// What the rows of one kind hold for a head of a position of a layer.
    pub open spec fn head_values(
        self,
        rows: Seq<Seq<F32>>,
        layer: int,
        t: nat,
        head: nat,
    ) -> Seq<F32> {
        let start = t * (self.n_head_kv as nat * self.head_dim as nat) + head
            * self.head_dim as nat;
        rows[layer].subrange(start as int, start + self.head_dim)
    }
}

/// A row with `new` in place of what stood from `start` on.
pub open spec fn overwritten(row: Seq<F32>, start: nat, new: Seq<F32>) -> Seq<F32> {
    Seq::new(
        row.len(),
        |i: int|
            if start <= i < start + new.len() {
                new[i - start]
            } else {
                row[i]
            },
    )
}

fn overwrite(row: &mut Vec<F32>, start: usize, new: &[F32])
    requires
        start + new@.len() <= old(row)@.len(),
    ensures
        final(row)@ == overwritten(old(row)@, start as nat, new@),
{
    let total: usize = row.len();
    let ghost before = row@;
    let mut i: usize = 0;
    while i < new.len()
        invariant
            i <= new@.len(),
            start + new@.len() <= total == before.len(),
            row@ == overwritten(before, start as nat, new@.take(i as int)),
        decreases new@.len() - i,
    {
        row.set(start + i, new[i]);
        i = i + 1;
        assert(row@ =~= overwritten(before, start as nat, new@.take(i as int)));
    }
    assert(new@.take(i as int) =~= new@);
}

fn zero_row(n: usize) -> (row: Vec<F32>)
    ensures
        row@ == Seq::new(n as nat, |i: int| F32 { bits: 0 }),
{
    let mut row: Vec<F32> = Vec::with_capacity(n);
    let mut i: usize = 0;
    while i < n
        invariant
            i <= n,
            row@ == Seq::new(i as nat, |i: int| F32 { bits: 0 }),
        decreases n - i,
    {
        row.push(F32::from_bits(0));
        i = i + 1;
        assert(row@ =~= Seq::new(i as nat, |i: int| F32 { bits: 0 }));
    }
    row
}

proof fn lemma_head_fits(n_ctx: nat, n_head: nat, head_dim: nat, t: nat, head: nat)
    requires
        t < n_ctx,
        head < n_head,
    ensures
        head * head_dim + head_dim <= n_head * head_dim,
        t * (n_head * head_dim) + n_head * head_dim <= n_ctx * (n_head * head_dim),
{
    assert(head * head_dim + head_dim <= n_head * head_dim) by (nonlinear_arith)
        requires
            head < n_head,
    ;
    let s = n_head * head_dim;
    assert(t * s + s <= n_ctx * s) by (nonlinear_arith)
        requires
            t < n_ctx,
    ;
}

impl KvCache {
    /// An empty cache: every value is zero.
    pub fn new(n_layer: usize, n_head_kv: usize, head_dim: usize, n_ctx: usize) -> (c: Self)
        requires
            n_head_kv as nat * head_dim as nat <= usize::MAX,
            n_ctx as nat * (n_head_kv as nat * head_dim as nat) <= usize::MAX,
        ensures
            c@.wf(),
            c@.n_head_kv == n_head_kv,
            c@.head_dim == head_dim,
            c@.n_ctx == n_ctx,
            c@.pos == 0,
            c@.k == c@.v,
            c@.k == Seq::new(
                n_layer as nat,
                |l: int|
                    Seq::new(
                        n_ctx as nat * (n_head_kv as nat * head_dim as nat),
                        |i: int| F32 { bits: 0 },
                    ),
            ),
    {
        proof {
            assert(n_head_kv as nat * head_dim as nat == n_head_kv * head_dim);
        }
        let stride: usize = n_head_kv * head_dim;
        proof {
            assert(n_ctx as nat * stride as nat == n_ctx * stride);
        }
        let per_layer: usize = n_ctx * stride;
        let ghost zeros = Seq::new(per_layer as nat, |i: int| F32 { bits: 0 });
        let mut k: Vec<Vec<F32>> = Vec::with_capacity(n_layer);
        let mut v: Vec<Vec<F32>> = Vec::with_capacity(n_layer);
        let mut l: usize = 0;
        while l < n_layer
            invariant
                l <= n_layer,
                zeros == Seq::new(per_layer as nat, |i: int| F32 { bits: 0 }),
                k@.len() == l,
                v@.len() == l,
                forall|j: int| 0 <= j < l ==> (#[trigger] k@[j])@ == zeros,
                forall|j: int| 0 <= j < l ==> (#[trigger] v@[j])@ == zeros,
            decreases n_layer - l,
        {
            k.push(zero_row(per_layer));
            v.push(zero_row(per_layer));
            l = l + 1;
        }
        let c = KvCache { n_layer, n_head_kv, head_dim, n_ctx, k, v, pos: 0 };
        proof {
            let all = Seq::new(n_layer as nat, |l: int| zeros);
            assert(c@.k =~= all);
            assert(c@.v =~= all);
            assert(zeros =~= Seq::new(
                n_ctx as nat * (n_head_kv as nat * head_dim as nat),
                |i: int| F32 { bits: 0 },
            ));
            assert(all =~= Seq::new(
                n_layer as nat,
                |l: int|
                    Seq::new(
                        n_ctx as nat * (n_head_kv as nat * head_dim as nat),
                        |i: int| F32 { bits: 0 },
                    ),
            ));
        }
        c
    }

    /// Stores the keys and values of a position.
    pub fn store_kv(&mut self, layer: usize, pos: usize, k: &[F32], v_vec: &[F32])
        requires
            old(self)@.wf(),
            layer < old(self)@.k.len(),
            pos < old(self)@.n_ctx,
            k@.len() == old(self)@.stride(),
            v_vec@.len() == old(self)@.stride(),
        ensures
            final(self)@.wf(),
            final(self)@ == (KvModel {
                k: old(self)@.k.update(
                    layer as int,
                    overwritten(
                        old(self)@.k[layer as int],
                        pos as nat * old(self)@.stride(),
                        k@,
                    ),
                ),
                v: old(self)@.v.update(
                    layer as int,
                    overwritten(
                        old(self)@.v[layer as int],
                        pos as nat * old(self)@.stride(),
                        v_vec@,
                    ),
                ),
                ..old(self)@
            }),
            forall|t: nat, head: nat|
                t < old(self)@.n_ctx && head < old(self)@.n_head_kv ==> #[trigger] final(self)@.head_values(final(self)@.k, layer as int, t, head) == (if t == pos {
                    k@.subrange(
                        head * old(self)@.head_dim,
                        head * old(self)@.head_dim + old(self)@.head_dim,
                    )
                } else {
                    old(self)@.head_values(old(self)@.k, layer as int, t, head)
                }),
            forall|t: nat, head: nat|
                t < old(self)@.n_ctx && head < old(self)@.n_head_kv ==> #[trigger] final(self)@.head_values(final(self)@.v, layer as int, t, head) == (if t == pos {
                    v_vec@.subrange(
                        head * old(self)@.head_dim,
                        head * old(self)@.head_dim + old(self)@.head_dim,
                    )
                } else {
                    old(self)@.head_values(old(self)@.v, layer as int, t, head)
                }),
            forall|l: int|
                l != layer && 0 <= l < old(self)@.k.len() ==> #[trigger] final(self)@.k[l] == old(self)@.k[l] && final(self)@.v[l] == old(self)@.v[l],
    {
        let ghost m = self@;
        let stride: usize = k.len();
        proof {
            assert(pos as nat * stride as nat + stride <= self.n_ctx as nat * stride as nat)
                by (nonlinear_arith)
                requires
                    pos < self.n_ctx,
            ;
            assert(pos as nat * stride as nat == pos * stride);
            assert(m.k[layer as int].len() == m.n_ctx as nat * m.stride());
            assert(m.v[layer as int].len() == m.n_ctx as nat * m.stride());
        }
        let start: usize = pos * stride;
        let mut k_row: Vec<F32> = Vec::new();
        std::mem::swap(&mut k_row, &mut self.k[layer]);
        overwrite(&mut k_row, start, k);
        self.k.set(layer, k_row);
        let mut v_row: Vec<F32> = Vec::new();
        std::mem::swap(&mut v_row, &mut self.v[layer]);
        overwrite(&mut v_row, start, v_vec);
        self.v.set(layer, v_row);
        proof {
            let q = self@;
            assert(q.k =~= m.k.update(
                layer as int,
                overwritten(m.k[layer as int], start as nat, k@),
            ));
            assert(q.v =~= m.v.update(
                layer as int,
                overwritten(m.v[layer as int], start as nat, v_vec@),
            ));
            assert forall|l: int| 0 <= l < q.k.len() implies (#[trigger] q.k[l]).len()
                == q.n_ctx as nat * q.stride() by {
                if l != layer {
                    assert(q.k[l] == m.k[l]);
                }
            }
            assert forall|l: int| 0 <= l < q.v.len() implies (#[trigger] q.v[l]).len()
                == q.n_ctx as nat * q.stride() by {
                if l != layer {
                    assert(q.v[l] == m.v[l]);
                }
            }
            let at = layer as int;
            assert forall|t: nat, head: nat|
                t < m.n_ctx && head < m.n_head_kv implies #[trigger] q.head_values(
                q.k,
                at,
                t,
                head,
            ) == (if t == pos {
                k@.subrange(head * m.head_dim, head * m.head_dim + m.head_dim)
            } else {
                m.head_values(m.k, at, t, head)
            }) by {
                stored_heads_are_read_back(m, m.k[at], pos as nat, k@, t, head);
            }
            assert forall|t: nat, head: nat|
                t < m.n_ctx && head < m.n_head_kv implies #[trigger] q.head_values(
                q.v,
                at,
                t,
                head,
            ) == (if t == pos {
                v_vec@.subrange(head * m.head_dim, head * m.head_dim + m.head_dim)
            } else {
                m.head_values(m.v, at, t, head)
            }) by {
                stored_heads_are_read_back(m, m.v[at], pos as nat, v_vec@, t, head);
            }
        }
    }

    /// Where a head of a position stands.
    fn head_range(&self, t: usize, head: usize) -> (start: usize)
        requires
            self@.wf(),
            t < self@.n_ctx,
            head < self@.n_head_kv,
        ensures
            start == self@.head_start(t as nat, head as nat),
            start + self@.head_dim <= self@.n_ctx as nat * self@.stride(),
    {
        proof {
            lemma_head_fits(
                self.n_ctx as nat,
                self.n_head_kv as nat,
                self.head_dim as nat,
                t as nat,
                head as nat,
            );
            let s = self.n_head_kv as nat * self.head_dim as nat;
            assert(s == self.n_head_kv * self.head_dim);
            assert(t as nat * s == t * s);
            assert(head as nat * self.head_dim as nat == head * self.head_dim);
            assert(t as nat * s + s <= self.n_ctx as nat * s);
        }
        let stride: usize = self.n_head_kv * self.head_dim;
        t * stride + head * self.head_dim
    }

    /// The keys of a head at a position.
    pub fn key(&self, layer: usize, t: usize, head: usize) -> (r: &[F32])
        requires
            self@.wf(),
            layer < self@.k.len(),
            t < self@.n_ctx,
            head < self@.n_head_kv,
        ensures
            r@ == self@.k[layer as int].subrange(
                self@.head_start(t as nat, head as nat) as int,
                (self@.head_start(t as nat, head as nat) + self@.head_dim) as int,
            ),
            r@ == self@.head_values(self@.k, layer as int, t as nat, head as nat),
    {
        let start: usize = self.head_range(t, head);
        assert(self@.k[layer as int].len() == self@.n_ctx as nat * self@.stride());
        vstd::slice::slice_subrange(self.k[layer].as_slice(), start, start + self.head_dim)
    }

    /// The values of a head at a position.
    pub fn value(&self, layer: usize, t: usize, head: usize) -> (r: &[F32])
        requires
            self@.wf(),
            layer < self@.v.len(),
            t < self@.n_ctx,
            head < self@.n_head_kv,
        ensures
            r@ == self@.v[layer as int].subrange(
                self@.head_start(t as nat, head as nat) as int,
                (self@.head_start(t as nat, head as nat) + self@.head_dim) as int,
            ),
            r@ == self@.head_values(self@.v, layer as int, t as nat, head as nat),
    {
        let start: usize = self.head_range(t, head);
        assert(self@.v[layer as int].len() == self@.n_ctx as nat * self@.stride());
        vstd::slice::slice_subrange(self.v[layer].as_slice(), start, start + self.head_dim)
    }
}

/// What is stored for a position is read back head by head, and the heads of
/// other positions are left alone.
pub proof fn stored_heads_are_read_back(
    m: KvModel,
    row: Seq<F32>,
    pos: nat,
    new: Seq<F32>,
    t: nat,
    head: nat,
)
    requires
        pos < m.n_ctx,
        t < m.n_ctx,
        head < m.n_head_kv,
        new.len() == m.stride(),
        row.len() == m.n_ctx as nat * m.stride(),
    ensures
        ({
            let a = m.head_start(t, head) as int;
            let d = m.head_dim as int;
            let after = overwritten(row, pos * m.stride(), new);
            after.subrange(a, a + d) == (if t == pos {
                new.subrange(head as int * d, head as int * d + d)
            } else {
                row.subrange(a, a + d)
            })
        }),
{
    let s = m.stride();
    let a = m.head_start(t, head) as int;
    let d = m.head_dim as int;
    lemma_head_fits(m.n_ctx as nat, m.n_head_kv as nat, m.head_dim as nat, t, head);
    lemma_head_fits(m.n_ctx as nat, m.n_head_kv as nat, m.head_dim as nat, pos, head);
    let after = overwritten(row, pos * s, new);
    if t == pos {
        assert(after.subrange(a, a + d) =~= new.subrange(head as int * d, head as int * d + d));
    } else {
        if t < pos {
            assert(t * s + s <= pos * s) by (nonlinear_arith)
                requires
                    t < pos,
            ;
        } else {
            assert(pos * s + s <= t * s) by (nonlinear_arith)
                requires
                    pos < t,
            ;
        }
        assert(after.subrange(a, a + d) =~= row.subrange(a, a + d));
    }
}

// ── Grouped queries ───────────────────────────────────────────────────────────

/// The key/value head that a query head attends to.
pub open spec fn kv_head_of(h: nat, n_head_kv: nat, n_head: nat) -> nat
    recommends
        n_head > 0,
{
    h * n_head_kv / n_head
}

/// The key/value head that a query head attends to.
pub fn kv_head(h: usize, n_head_kv: usize, n_head: usize) -> (k: usize)
    requires
        h < n_head,
        h as nat * n_head_kv as nat <= usize::MAX,
    ensures
        k == kv_head_of(h as nat, n_head_kv as nat, n_head as nat),
        n_head_kv > 0 ==> k < n_head_kv,
{
    proof {
        grouped_heads_exist(h as nat, n_head_kv as nat, n_head as nat);
        assert(h as nat * n_head_kv as nat == h * n_head_kv);
    }
    h * n_head_kv / n_head
}

/// Every query head has a key/value head that exists, and query heads in order
/// have key/value heads in order.
pub proof fn grouped_heads_exist(h: nat, n_head_kv: nat, n_head: nat)
    requires
        h < n_head,
    ensures
        n_head_kv > 0 ==> kv_head_of(h, n_head_kv, n_head) < n_head_kv,
        kv_head_of(h, n_head_kv, n_head) <= kv_head_of(h + 1, n_head_kv, n_head),
{
    if n_head_kv > 0 {
        assert(h * n_head_kv < n_head * n_head_kv) by (nonlinear_arith)
            requires
                h < n_head,
                n_head_kv > 0,
        ;
        vstd::arithmetic::div_mod::lemma_multiply_divide_lt(
            (h * n_head_kv) as int,
            n_head as int,
            n_head_kv as int,
        );
    }
    assert(h * n_head_kv <= (h + 1) * n_head_kv) by (nonlinear_arith);
    vstd::arithmetic::div_mod::lemma_div_is_ordered(
        (h * n_head_kv) as int,
        ((h + 1) * n_head_kv) as int,
        n_head as int,
    );
}

/// Where the heads are shared evenly, `group` query heads in a row attend to the same
/// key/value head.
pub proof fn query_heads_share_in_groups(h: nat, n_head_kv: nat, group: nat)
    requires
        n_head_kv > 0,
        group > 0,
        h < group * n_head_kv,
    ensures
        kv_head_of(h, n_head_kv, group * n_head_kv) == h / group,
{
    let k = n_head_kv as int;
    let g = group as int;
    vstd::arithmetic::div_mod::lemma_div_denominator(h * k, k, g);
    vstd::arithmetic::div_mod::lemma_div_multiples_vanish(h as int, k);
    assert(h * k == k * h) by (nonlinear_arith);
    assert(k * g == g * k) by (nonlinear_arith);
    assert(g * k > 0) by (nonlinear_arith)
        requires
            g > 0,
            k > 0,
    ;
}

// ── Steps ─────────────────────────────────────────────────────────────────────

/// A weight of a layer.
#[derive(Debug, Clone, Copy, PartialEq, Eq, Structural)]
pub enum CpuPart {
    AttnNorm,
    AttnQ,
    AttnK,
    AttnV,
    AttnOutput,
    FfnNorm,
    FfnGate,
    FfnUp,
    FfnDown,
}

/// A weight of a model. The head may be tied to the embedding.
#[derive(Debug, Clone, Copy, PartialEq, Eq, Structural)]
pub enum CpuWeight {
    TokenEmbd,
    OutputNorm,
    Output,
    Layer(usize, CpuPart),
}

impl CpuPart {
    pub open spec fn suffix(self) -> Seq<char> {
        match self {
            CpuPart::AttnNorm => ".attn_norm.weight"@,
            CpuPart::AttnQ => ".attn_q.weight"@,
            CpuPart::AttnK => ".attn_k.weight"@,
            CpuPart::AttnV => ".attn_v.weight"@,
            CpuPart::AttnOutput => ".attn_output.weight"@,
            CpuPart::FfnNorm => ".ffn_norm.weight"@,
            CpuPart::FfnGate => ".ffn_gate.weight"@,
            CpuPart::FfnUp => ".ffn_up.weight"@,
            CpuPart::FfnDown => ".ffn_down.weight"@,
        }
    }
}

impl CpuWeight {
    pub open spec fn name(self) -> Seq<char> {
        match self {
            CpuWeight::TokenEmbd => "token_embd.weight"@,
            CpuWeight::OutputNorm => "output_norm.weight"@,
            CpuWeight::Output => "output.weight"@,
            CpuWeight::Layer(l, part) => "blk."@ + text::decimal(l as nat) + part.suffix(),
        }
    }

    /// The name of the weight's tensor.
    pub fn tensor_name(self) -> (s: String)
        ensures
            s@ == self.name(),
    {
        match self {
            CpuWeight::TokenEmbd => String::from_str("token_embd.weight"),
            CpuWeight::OutputNorm => String::from_str("output_norm.weight"),
            CpuWeight::Output => String::from_str("output.weight"),
            CpuWeight::Layer(l, part) => {
                let suffix: &str = match part {
                    CpuPart::AttnNorm => ".attn_norm.weight",
                    CpuPart::AttnQ => ".attn_q.weight",
                    CpuPart::AttnK => ".attn_k.weight",
                    CpuPart::AttnV => ".attn_v.weight",
                    CpuPart::AttnOutput => ".attn_output.weight",
                    CpuPart::FfnNorm => ".ffn_norm.weight",
                    CpuPart::FfnGate => ".ffn_gate.weight",
                    CpuPart::FfnUp => ".ffn_up.weight",
                    CpuPart::FfnDown => ".ffn_down.weight",
                };
                text_with_number("blk.", l as u64, suffix)
            },
        }
    }
}

/// A step of a forward pass.
#[derive(Debug, Clone, Copy, PartialEq, Eq, Structural)]
pub enum CpuStep {
    /// Reads the embedding of a token: a row of the embedding's bytes.
    Embed { start: usize, len: usize },
    /// Scales the state with the weights of a norm.
    Norm(CpuWeight),
    /// Multiplies by a weight matrix.
    Project { weight: CpuWeight, rows: usize, cols: usize },
    /// Rotates queries and keys by their position.
    Rope { pos: usize },
    /// Stores the keys and values of a position.
    StoreKv { layer: usize, pos: usize },
    /// Attends to the first `positions` positions.
    Attend { layer: usize, positions: usize },
    /// Adds what was projected to the state.
    Residual,
    /// Gates the feed-forward network.
    SwiGlu,
}

impl CpuStep {
    /// The weight that a step needs.
    pub open spec fn weight(self) -> Option<CpuWeight> {
        match self {
            CpuStep::Embed { .. } => Some(CpuWeight::TokenEmbd),
            CpuStep::Norm(w) => Some(w),
            CpuStep::Project { weight, .. } => Some(weight),
            _ => None,
        }
    }

    fn weight_of(self) -> (w: Option<CpuWeight>)
        ensures
            w == self.weight(),
    {
        match self {
            CpuStep::Embed { .. } => Some(CpuWeight::TokenEmbd),
            CpuStep::Norm(w) => Some(w),
            CpuStep::Project { weight, .. } => Some(weight),
            _ => None,
        }
    }
}

/// The steps of a layer.
pub open spec fn layer_steps(meta: MetaModel, l: usize, pos: usize) -> Seq<CpuStep> {
    let n = meta.n_embd;
    let q = (meta.n_head * meta.head_dim) as usize;
    let kv = (meta.n_head_kv * meta.head_dim) as usize;
    let ff = meta.n_ff;
    seq![
        CpuStep::Norm(CpuWeight::Layer(l, CpuPart::AttnNorm)),
        CpuStep::Project { weight: CpuWeight::Layer(l, CpuPart::AttnQ), rows: q, cols: n },
        CpuStep::Project { weight: CpuWeight::Layer(l, CpuPart::AttnK), rows: kv, cols: n },
        CpuStep::Project { weight: CpuWeight::Layer(l, CpuPart::AttnV), rows: kv, cols: n },
        CpuStep::Rope { pos },
        CpuStep::StoreKv { layer: l, pos },
        CpuStep::Attend { layer: l, positions: (pos + 1) as usize },
        CpuStep::Project { weight: CpuWeight::Layer(l, CpuPart::AttnOutput), rows: n, cols: q },
        CpuStep::Residual,
        CpuStep::Norm(CpuWeight::Layer(l, CpuPart::FfnNorm)),
        CpuStep::Project { weight: CpuWeight::Layer(l, CpuPart::FfnGate), rows: ff, cols: n },
        CpuStep::Project { weight: CpuWeight::Layer(l, CpuPart::FfnUp), rows: ff, cols: n },
        CpuStep::SwiGlu,
        CpuStep::Project { weight: CpuWeight::Layer(l, CpuPart::FfnDown), rows: n, cols: ff },
        CpuStep::Residual,
    ]
}

/// The bytes of a row of the embedding.
pub open spec fn embedding_row(index: Map<Seq<char>, TensorModel>, meta: MetaModel) -> nat {
    if index.contains_key("token_embd.weight"@) {
        index["token_embd.weight"@].dtype.bytes_for(meta.n_embd as nat)
    } else {
        0
    }
}

/// The weight of the head: that of the embedding where there is no other.
pub open spec fn head_weight(index: Map<Seq<char>, TensorModel>) -> CpuWeight {
    if index.contains_key("output.weight"@) {
        CpuWeight::Output
    } else {
        CpuWeight::TokenEmbd
    }
}

/// The embedding and the first `layers` layers.
pub open spec fn body_steps(
    index: Map<Seq<char>, TensorModel>,
    meta: MetaModel,
    token: TokenId,
    pos: usize,
    layers: nat,
) -> Seq<CpuStep>
    decreases layers,
{
    if layers == 0 {
        let row = embedding_row(index, meta);
        seq![CpuStep::Embed { start: (token as nat * row) as usize, len: row as usize }]
    } else {
        body_steps(index, meta, token, pos, (layers - 1) as nat) + layer_steps(
            meta,
            (layers - 1) as usize,
            pos,
        )
    }
}

/// All steps of a forward pass.
pub open spec fn all_steps(
    index: Map<Seq<char>, TensorModel>,
    meta: MetaModel,
    token: TokenId,
    pos: usize,
) -> Seq<CpuStep> {
    body_steps(index, meta, token, pos, meta.n_layer as nat) + seq![
        CpuStep::Norm(CpuWeight::OutputNorm),
        CpuStep::Project {
            weight: head_weight(index),
            rows: meta.n_vocab,
            cols: meta.n_embd,
        },
    ]
}

// ── What the steps compute ────────────────────────────────────────────────────

/// What a pass computes, as a formula over the weights.
pub enum CpuValue {
    /// Nothing that a pass has computed.
    Unset,
    /// The embedding in a stretch of the embedding's bytes.
    Embedding { start: nat, len: nat },
    /// A value scaled with the weights of a norm.
    Normed { weight: CpuWeight, of: Box<CpuValue> },
    /// A value of `cols` numbers multiplied by a matrix of `rows` rows.
    Product { weight: CpuWeight, rows: nat, cols: nat, of: Box<CpuValue> },
    /// A value rotated by its position.
    Turned { pos: nat, of: Box<CpuValue> },
    /// Queries attending to the first `positions` positions of a layer, after `keys`
    /// and `values` were stored at a position of a layer.
    Attended {
        layer: nat,
        positions: nat,
        queries: Box<CpuValue>,
        stored_layer: nat,
        stored_pos: nat,
        keys: Box<CpuValue>,
        values: Box<CpuValue>,
    },
    /// The one value gated by the other.
    Gated { gate: Box<CpuValue>, up: Box<CpuValue> },
    Sum(Box<CpuValue>, Box<CpuValue>),
}

/// What stands in the places that the steps of a pass read and write.
pub struct CpuState {
    pub hidden: CpuValue,
    pub normed: CpuValue,
    pub queries: CpuValue,
    pub keys: CpuValue,
    pub values: CpuValue,
    pub stored_layer: nat,
    pub stored_pos: nat,
    pub stored_keys: CpuValue,
    pub stored_values: CpuValue,
    pub attended: CpuValue,
    pub projected: CpuValue,
    pub gate: CpuValue,
    pub up: CpuValue,
    pub logits: CpuValue,
}

/// A matrix times what its step reads.
pub open spec fn product(weight: CpuWeight, rows: usize, cols: usize, of: CpuValue) -> CpuValue {
    CpuValue::Product { weight, rows: rows as nat, cols: cols as nat, of: Box::new(of) }
}

/// What stands where after a step.
pub open spec fn after_step(s: CpuState, step: CpuStep) -> CpuState {
    match step {
        CpuStep::Embed { start, len } => CpuState {
            hidden: CpuValue::Embedding { start: start as nat, len: len as nat },
            ..s
        },
        CpuStep::Norm(weight) => CpuState {
            normed: CpuValue::Normed { weight, of: Box::new(s.hidden) },
            ..s
        },
        CpuStep::Project { weight, rows, cols } => match weight {
            CpuWeight::Layer(_, CpuPart::AttnQ) => CpuState {
                queries: product(weight, rows, cols, s.normed),
                ..s
            },
            CpuWeight::Layer(_, CpuPart::AttnK) => CpuState {
                keys: product(weight, rows, cols, s.normed),
                ..s
            },
            CpuWeight::Layer(_, CpuPart::AttnV) => CpuState {
                values: product(weight, rows, cols, s.normed),
                ..s
            },
            CpuWeight::Layer(_, CpuPart::AttnOutput) => CpuState {
                projected: product(weight, rows, cols, s.attended),
                ..s
            },
            CpuWeight::Layer(_, CpuPart::FfnGate) => CpuState {
                gate: product(weight, rows, cols, s.normed),
                ..s
            },
            CpuWeight::Layer(_, CpuPart::FfnUp) => CpuState {
                up: product(weight, rows, cols, s.normed),
                ..s
            },
            CpuWeight::Layer(_, CpuPart::FfnDown) => CpuState {
                projected: product(weight, rows, cols, s.gate),
                ..s
            },
            CpuWeight::Layer(_, _) => s,
            _ => CpuState { logits: product(weight, rows, cols, s.normed), ..s },
        },
        CpuStep::Rope { pos } => CpuState {
            queries: CpuValue::Turned { pos: pos as nat, of: Box::new(s.queries) },
            keys: CpuValue::Turned { pos: pos as nat, of: Box::new(s.keys) },
            ..s
        },
        CpuStep::StoreKv { layer, pos } => CpuState {
            stored_layer: layer as nat,
            stored_pos: pos as nat,
            stored_keys: s.keys,
            stored_values: s.values,
            ..s
        },
        CpuStep::Attend { layer, positions } => CpuState {
            attended: CpuValue::Attended {
                layer: layer as nat,
                positions: positions as nat,
                queries: Box::new(s.queries),
                stored_layer: s.stored_layer,
                stored_pos: s.stored_pos,
                keys: Box::new(s.stored_keys),
                values: Box::new(s.stored_values),
            },
            ..s
        },
        CpuStep::Residual => CpuState {
            hidden: CpuValue::Sum(Box::new(s.hidden), Box::new(s.projected)),
            ..s
        },
        CpuStep::SwiGlu => CpuState {
            gate: CpuValue::Gated { gate: Box::new(s.gate), up: Box::new(s.up) },
            ..s
        },
    }
}

/// What stands where after some steps.
pub open spec fn after_steps(s: CpuState, steps: Seq<CpuStep>) -> CpuState
    decreases steps.len(),
{
    if steps.len() == 0 {
        s
    } else {
        after_step(after_steps(s, steps.drop_last()), steps.last())
    }
}

/// What attention adds in a layer: queries and keys of the normed state are rotated
/// by the position, keys and values are stored there, and the queries attend to all
/// positions up to and including it.
pub open spec fn attention_value(meta: MetaModel, l: usize, pos: nat, x: CpuValue) -> CpuValue {
    let embd = meta.n_embd as nat;
    let heads = meta.n_head as nat * meta.head_dim as nat;
    let kv_heads = meta.n_head_kv as nat * meta.head_dim as nat;
    let n = CpuValue::Normed { weight: CpuWeight::Layer(l, CpuPart::AttnNorm), of: Box::new(x) };
    let q = CpuValue::Product {
        weight: CpuWeight::Layer(l, CpuPart::AttnQ),
        rows: heads,
        cols: embd,
        of: Box::new(n),
    };
    let k = CpuValue::Product {
        weight: CpuWeight::Layer(l, CpuPart::AttnK),
        rows: kv_heads,
        cols: embd,
        of: Box::new(n),
    };
    let v = CpuValue::Product {
        weight: CpuWeight::Layer(l, CpuPart::AttnV),
        rows: kv_heads,
        cols: embd,
        of: Box::new(n),
    };
    let heard = CpuValue::Attended {
        layer: l as nat,
        positions: pos + 1,
        queries: Box::new(CpuValue::Turned { pos, of: Box::new(q) }),
        stored_layer: l as nat,
        stored_pos: pos,
        keys: Box::new(CpuValue::Turned { pos, of: Box::new(k) }),
        values: Box::new(v),
    };
    CpuValue::Product {
        weight: CpuWeight::Layer(l, CpuPart::AttnOutput),
        rows: embd,
        cols: heads,
        of: Box::new(heard),
    }
}

/// What the feed-forward network adds in a layer.
pub open spec fn feed_forward_value(meta: MetaModel, l: usize, x: CpuValue) -> CpuValue {
    let embd = meta.n_embd as nat;
    let ff = meta.n_ff as nat;
    let n = CpuValue::Normed { weight: CpuWeight::Layer(l, CpuPart::FfnNorm), of: Box::new(x) };
    let gate = CpuValue::Product {
        weight: CpuWeight::Layer(l, CpuPart::FfnGate),
        rows: ff,
        cols: embd,
        of: Box::new(n),
    };
    let up = CpuValue::Product {
        weight: CpuWeight::Layer(l, CpuPart::FfnUp),
        rows: ff,
        cols: embd,
        of: Box::new(n),
    };
    CpuValue::Product {
        weight: CpuWeight::Layer(l, CpuPart::FfnDown),
        rows: embd,
        cols: ff,
        of: Box::new(CpuValue::Gated { gate: Box::new(gate), up: Box::new(up) }),
    }
}

/// The state after the first `layers` layers: attention and feed-forward network are
/// added to it in turn.
pub open spec fn hidden_value(
    meta: MetaModel,
    pos: nat,
    embedding: CpuValue,
    layers: nat,
) -> CpuValue
    decreases layers,
{
    if layers == 0 {
        embedding
    } else {
        let l = (layers - 1) as nat;
        let x = hidden_value(meta, pos, embedding, l);
        let y = CpuValue::Sum(
            Box::new(x),
            Box::new(attention_value(meta, l as usize, pos, x)),
        );
        CpuValue::Sum(Box::new(y), Box::new(feed_forward_value(meta, l as usize, y)))
    }
}

proof fn lemma_after_more(s: CpuState, a: Seq<CpuStep>, b: Seq<CpuStep>)
    ensures
        after_steps(s, a + b) == after_steps(after_steps(s, a), b),
    decreases b.len(),
{
    if b.len() == 0 {
        assert(a + b =~= a);
    } else {
        lemma_after_more(s, a, b.drop_last());
        assert((a + b).drop_last() =~= a + b.drop_last());
    }
}

proof fn lemma_after_next(s: CpuState, steps: Seq<CpuStep>, i: int)
    requires
        0 <= i < steps.len(),
    ensures
        after_steps(s, steps.take(i + 1)) == after_step(after_steps(s, steps.take(i)), steps[i]),
{
    assert(steps.take(i + 1).drop_last() =~= steps.take(i));
}

proof fn lemma_layer_value(s: CpuState, meta: MetaModel, l: usize, pos: usize)
    requires
        pos < usize::MAX,
        meta.n_head * meta.head_dim <= usize::MAX,
        meta.n_head_kv * meta.head_dim <= usize::MAX,
    ensures
        ({
            let y = CpuValue::Sum(
                Box::new(s.hidden),
                Box::new(attention_value(meta, l, pos as nat, s.hidden)),
            );
            after_steps(s, layer_steps(meta, l, pos)).hidden == CpuValue::Sum(
                Box::new(y),
                Box::new(feed_forward_value(meta, l, y)),
            )
        }),
{
    let steps = layer_steps(meta, l, pos);
    assert(meta.n_head as nat * meta.head_dim as nat == meta.n_head * meta.head_dim);
    assert(meta.n_head_kv as nat * meta.head_dim as nat == meta.n_head_kv * meta.head_dim);
    assert(after_steps(s, steps.take(0)) == s);
    lemma_after_next(s, steps, 0);
    lemma_after_next(s, steps, 1);
    lemma_after_next(s, steps, 2);
    lemma_after_next(s, steps, 3);
    lemma_after_next(s, steps, 4);
    lemma_after_next(s, steps, 5);
    lemma_after_next(s, steps, 6);
    lemma_after_next(s, steps, 7);
    lemma_after_next(s, steps, 8);
    let y = CpuValue::Sum(
        Box::new(s.hidden),
        Box::new(attention_value(meta, l, pos as nat, s.hidden)),
    );
    assert(after_steps(s, steps.take(9)).hidden == y);
    lemma_after_next(s, steps, 9);
    lemma_after_next(s, steps, 10);
    lemma_after_next(s, steps, 11);
    lemma_after_next(s, steps, 12);
    lemma_after_next(s, steps, 13);
    lemma_after_next(s, steps, 14);
    assert(steps.take(15) =~= steps);
}

/// The steps of a pass compute the model: whatever stood in the places before, the
/// logits are those of the head over the normed state after all layers, which starts
/// as the token's row of the embedding.
pub proof fn passes_compute_the_model(
    s: CpuState,
    index: Map<Seq<char>, TensorModel>,
    meta: MetaModel,
    token: TokenId,
    pos: usize,
)
    requires
        countable_pass(index, meta, token, pos),
        index.contains_key("token_embd.weight"@),
    ensures
        ({
            let row = index["token_embd.weight"@].dtype.bytes_for(meta.n_embd as nat);
            let embedding = CpuValue::Embedding { start: token as nat * row, len: row };
            let hidden = hidden_value(meta, pos as nat, embedding, meta.n_layer as nat);
            let head = if index.contains_key("output.weight"@) {
                CpuWeight::Output
            } else {
                CpuWeight::TokenEmbd
            };
            after_steps(s, all_steps(index, meta, token, pos)).logits == CpuValue::Product {
                weight: head,
                rows: meta.n_vocab as nat,
                cols: meta.n_embd as nat,
                of: Box::new(
                    CpuValue::Normed { weight: CpuWeight::OutputNorm, of: Box::new(hidden) },
                ),
            }
        }),
{
    let row = embedding_row(index, meta);
    let embedding = CpuValue::Embedding { start: token as nat * row, len: row };
    let n = meta.n_layer as nat;
    lemma_body_value(s, index, meta, token, pos, n);
    let body = body_steps(index, meta, token, pos, n);
    let all = all_steps(index, meta, token, pos);
    let last = seq![
        CpuStep::Norm(CpuWeight::OutputNorm),
        CpuStep::Project { weight: head_weight(index), rows: meta.n_vocab, cols: meta.n_embd },
    ];
    lemma_after_more(s, body, last);
    let t = after_steps(s, body);
    lemma_after_next(t, last, 0);
    lemma_after_next(t, last, 1);
    assert(after_steps(t, last.take(0)) == t);
    assert(last.take(2) =~= last);
}

proof fn lemma_body_value(
    s: CpuState,
    index: Map<Seq<char>, TensorModel>,
    meta: MetaModel,
    token: TokenId,
    pos: usize,
    layers: nat,
)
    requires
        countable_pass(index, meta, token, pos),
        layers <= meta.n_layer,
    ensures
        ({
            let row = embedding_row(index, meta);
            let embedding = CpuValue::Embedding { start: token as nat * row, len: row };
            after_steps(s, body_steps(index, meta, token, pos, layers)).hidden == hidden_value(
                meta,
                pos as nat,
                embedding,
                layers,
            )
        }),
    decreases layers,
{
    let steps = body_steps(index, meta, token, pos, layers);
    if layers == 0 {
        assert(steps.drop_last().len() == 0);
        assert(after_steps(s, steps.drop_last()) == s);
    } else {
        let l = (layers - 1) as nat;
        lemma_body_value(s, index, meta, token, pos, l);
        let below = body_steps(index, meta, token, pos, l);
        lemma_after_more(s, below, layer_steps(meta, l as usize, pos));
        lemma_layer_value(after_steps(s, below), meta, l as usize, pos);
    }
}

proof fn lemma_body_layers(
    index: Map<Seq<char>, TensorModel>,
    meta: MetaModel,
    token: TokenId,
    pos: usize,
    layers: nat,
    l: nat,
    j: int,
)
    requires
        layers <= meta.n_layer,
        l < layers,
        0 <= j < 15,
    ensures
        body_steps(index, meta, token, pos, layers).len() == 1 + 15 * layers,
        body_steps(index, meta, token, pos, layers)[1 + 15 * l + j] == layer_steps(
            meta,
            l as usize,
            pos,
        )[j],
    decreases layers,
{
    if l < layers - 1 {
        lemma_body_layers(index, meta, token, pos, (layers - 1) as nat, l, j);
    } else {
        lemma_body_len(index, meta, token, pos, (layers - 1) as nat);
    }
}

proof fn lemma_body_len(
    index: Map<Seq<char>, TensorModel>,
    meta: MetaModel,
    token: TokenId,
    pos: usize,
    layers: nat,
)
    ensures
        body_steps(index, meta, token, pos, layers).len() == 1 + 15 * layers,
    decreases layers,
{
    if layers > 0 {
        lemma_body_len(index, meta, token, pos, (layers - 1) as nat);
    }
}

/// Whether a step rotates by, stores at and attends up to nothing but `pos`.
pub open spec fn at_position(step: CpuStep, pos: usize) -> bool {
    match step {
        CpuStep::Rope { pos: p } => p == pos,
        CpuStep::StoreKv { pos: p, .. } => p == pos,
        CpuStep::Attend { positions, .. } => positions == pos + 1,
        _ => true,
    }
}

proof fn lemma_steps_at_position(
    index: Map<Seq<char>, TensorModel>,
    meta: MetaModel,
    token: TokenId,
    pos: usize,
    i: int,
)
    requires
        pos < usize::MAX,
        0 <= i < all_steps(index, meta, token, pos).len(),
    ensures
        at_position(all_steps(index, meta, token, pos)[i], pos),
{
    let n = meta.n_layer as nat;
    lemma_body_len(index, meta, token, pos, n);
    lemma_body_first(index, meta, token, pos, n);
    if 1 <= i < 1 + 15 * n {
        let l = (i - 1) / 15;
        let j = (i - 1) % 15;
        lemma_body_layers(index, meta, token, pos, n, l as nat, j);
    }
}

/// In a pass every layer rotates once: after it has projected queries and keys and
/// before it stores them, and by the position of the pass, under which they are
/// stored and up to which the layer attends. Nothing else rotates, stores or attends.
pub proof fn layers_rotate_once_by_the_position(
    index: Map<Seq<char>, TensorModel>,
    meta: MetaModel,
    token: TokenId,
    pos: usize,
    l: usize,
    i: int,
)
    requires
        pos < usize::MAX,
        l < meta.n_layer,
    ensures
        ({
            let all = all_steps(index, meta, token, pos);
            let at = 1 + 15 * l;
            &&& all.len() == 1 + 15 * meta.n_layer + 2
            &&& all[at + 1] is Project && all[at + 1]->weight == CpuWeight::Layer(
                l,
                CpuPart::AttnQ,
            )
            &&& all[at + 2] is Project && all[at + 2]->weight == CpuWeight::Layer(
                l,
                CpuPart::AttnK,
            )
            &&& all[at + 3] is Project && all[at + 3]->weight == CpuWeight::Layer(
                l,
                CpuPart::AttnV,
            )
            &&& all[at + 4] is Rope && all[at + 4]->Rope_pos == pos
            &&& all[at + 5] is StoreKv && all[at + 5]->StoreKv_layer == l
                && all[at + 5]->StoreKv_pos == pos
            &&& all[at + 6] is Attend && all[at + 6]->Attend_layer == l && all[at + 6]->positions
                == pos + 1
            &&& at <= i < at + 15 && all[i] is Rope ==> i == at + 4
            &&& at <= i < at + 15 && all[i] is StoreKv ==> i == at + 5
            &&& at <= i < at + 15 && all[i] is Attend ==> i == at + 6
            &&& !(1 <= i < 1 + 15 * meta.n_layer) && 0 <= i < all.len() ==> !(all[i] is Rope)
                && !(all[i] is StoreKv) && !(all[i] is Attend)
        }),
{
    let n = meta.n_layer as nat;
    lemma_body_len(index, meta, token, pos, n);
    let all = all_steps(index, meta, token, pos);
    let at = 1 + 15 * l;
    lemma_body_layers(index, meta, token, pos, n, l as nat, 1);
    lemma_body_layers(index, meta, token, pos, n, l as nat, 2);
    lemma_body_layers(index, meta, token, pos, n, l as nat, 3);
    lemma_body_layers(index, meta, token, pos, n, l as nat, 4);
    lemma_body_layers(index, meta, token, pos, n, l as nat, 5);
    lemma_body_layers(index, meta, token, pos, n, l as nat, 6);
    if at <= i < at + 15 {
        lemma_body_layers(index, meta, token, pos, n, l as nat, i - at);
    }
    if i == 0 {
        lemma_body_first(index, meta, token, pos, n);
    }
}

proof fn lemma_body_first(
    index: Map<Seq<char>, TensorModel>,
    meta: MetaModel,
    token: TokenId,
    pos: usize,
    layers: nat,
)
    ensures
        body_steps(index, meta, token, pos, layers).len() > 0,
        body_steps(index, meta, token, pos, layers)[0] is Embed,
    decreases layers,
{
    if layers > 0 {
        lemma_body_first(index, meta, token, pos, (layers - 1) as nat);
    }
}

/// The names of the weights, layer by layer.
pub proof fn weights_have_their_names(l: usize)
    ensures
        ({
            let layer = "blk."@ + text::decimal(l as nat);
            &&& CpuWeight::Layer(l, CpuPart::AttnNorm).name() == layer + ".attn_norm.weight"@
            &&& CpuWeight::Layer(l, CpuPart::AttnQ).name() == layer + ".attn_q.weight"@
            &&& CpuWeight::Layer(l, CpuPart::AttnK).name() == layer + ".attn_k.weight"@
            &&& CpuWeight::Layer(l, CpuPart::AttnV).name() == layer + ".attn_v.weight"@
            &&& CpuWeight::Layer(l, CpuPart::AttnOutput).name() == layer + ".attn_output.weight"@
            &&& CpuWeight::Layer(l, CpuPart::FfnNorm).name() == layer + ".ffn_norm.weight"@
            &&& CpuWeight::Layer(l, CpuPart::FfnGate).name() == layer + ".ffn_gate.weight"@
            &&& CpuWeight::Layer(l, CpuPart::FfnUp).name() == layer + ".ffn_up.weight"@
            &&& CpuWeight::Layer(l, CpuPart::FfnDown).name() == layer + ".ffn_down.weight"@
        }),
        CpuWeight::TokenEmbd.name() == "token_embd.weight"@,
        CpuWeight::OutputNorm.name() == "output_norm.weight"@,
        CpuWeight::Output.name() == "output.weight"@,
{
}

/// Whether the bytes of a step's weight are there.
pub open spec fn step_ready(
    index: Map<Seq<char>, TensorModel>,
    data: Seq<u8>,
    step: CpuStep,
) -> bool {
    match step.weight() {
        None => true,
        Some(w) => model_loader::bytes_of(index, data, w.name()) is Some,
    }
}

/// How many of the first `n` steps can be taken before one lacks its weight.
pub open spec fn ready_steps(
    index: Map<Seq<char>, TensorModel>,
    data: Seq<u8>,
    steps: Seq<CpuStep>,
    n: nat,
) -> nat
    decreases n,
{
    if n == 0 {
        0
    } else {
        let before = ready_steps(index, data, steps, (n - 1) as nat);
        if before == n - 1 && step_ready(index, data, steps[n - 1]) {
            n
        } else {
            before
        }
    }
}

proof fn lemma_ready_steps(
    index: Map<Seq<char>, TensorModel>,
    data: Seq<u8>,
    steps: Seq<CpuStep>,
    i: nat,
    n: nat,
)
    requires
        i < n,
        ready_steps(index, data, steps, i) == i,
        !step_ready(index, data, steps[i as int]),
    ensures
        ready_steps(index, data, steps, n) == i,
    decreases n,
{
    if i < n - 1 {
        lemma_ready_steps(index, data, steps, i, (n - 1) as nat);
    }
}

/// The steps that can be taken are those in front of the first one that lacks its
/// weight: each of them has its own, and where they are not all the next one has not.
pub proof fn passes_stop_at_the_first_missing_weight(
    index: Map<Seq<char>, TensorModel>,
    data: Seq<u8>,
    steps: Seq<CpuStep>,
    n: nat,
)
    ensures
        ({
            let done = ready_steps(index, data, steps, n);
            &&& done <= n
            &&& forall|i: int|
                0 <= i < done && (#[trigger] steps[i]).weight() is Some ==> model_loader::bytes_of(
                    index,
                    data,
                    steps[i].weight()->0.name(),
                ) is Some
            &&& done < n ==> steps[done as int].weight() is Some && model_loader::bytes_of(
                index,
                data,
                steps[done as int].weight()->0.name(),
            ) is None
        }),
    decreases n,
{
    if n > 0 {
        passes_stop_at_the_first_missing_weight(index, data, steps, (n - 1) as nat);
    }
}

/// The steps of a forward pass, up to the first one whose weight is missing.
#[derive(Debug)]
pub struct CpuPlan {
    pub steps: Vec<CpuStep>,
    pub fault: Option<LoadError>,
}

/// One forward pass: a token at a position.
#[derive(Debug, Clone, Copy, PartialEq, Eq, Structural)]
pub struct CpuCall {
    pub token: TokenId,
    pub pos: usize,
}

// ── LlamaCpuModel ─────────────────────────────────────────────────────────────

/// CPU-backed LLaMA inference model: the weights, the cache and the steps.
pub struct LlamaCpuModel {
    pub weights: WeightStore,
    pub kv: KvCache,
    pub bound_prefix: Option<CacheLookup>,
}

/// Whether every number that a forward pass needs can be counted.
pub open spec fn countable_pass(
    index: Map<Seq<char>, TensorModel>,
    meta: MetaModel,
    token: TokenId,
    pos: usize,
) -> bool {
    &&& pos < usize::MAX
    &&& meta.n_head * meta.head_dim <= usize::MAX
    &&& meta.n_head_kv * meta.head_dim <= usize::MAX
    &&& embedding_row(index, meta) <= usize::MAX
    &&& token as nat * embedding_row(index, meta) <= usize::MAX
}

impl LlamaCpuModel {
    pub open spec fn index(&self) -> Map<Seq<char>, TensorModel> {
        self.weights.entries()
    }

    /// Construct from a loaded `WeightStore`.
    pub fn new(weights: WeightStore) -> (m: Self)
        requires
            weights.meta.n_head_kv as nat * weights.meta.head_dim as nat <= usize::MAX,
            weights.meta.n_ctx as nat * (weights.meta.n_head_kv as nat
                * weights.meta.head_dim as nat) <= usize::MAX,
        ensures
            m.weights == weights,
            m.kv@.wf(),
            m.kv@.pos == 0,
            m.kv@.n_ctx == weights.meta.n_ctx,
            m.kv@.n_head_kv == weights.meta.n_head_kv,
            m.kv@.head_dim == weights.meta.head_dim,
            m.kv@.k == m.kv@.v,
            m.kv@.k == Seq::new(
                weights.meta.n_layer as nat,
                |l: int|
                    Seq::new(
                        weights.meta.n_ctx as nat * (weights.meta.n_head_kv as nat
                            * weights.meta.head_dim as nat),
                        |i: int| F32 { bits: 0 },
                    ),
            ),
            m.bound_prefix is None,
    {
        let kv = KvCache::new(
            weights.meta.n_layer,
            weights.meta.n_head_kv,
            weights.meta.head_dim,
            weights.meta.n_ctx,
        );
        LlamaCpuModel { weights, kv, bound_prefix: None }
    }

    fn push_layer(&self, steps: &mut Vec<CpuStep>, l: usize, pos: usize)
        requires
            pos < usize::MAX,
            self.weights.meta.n_head * self.weights.meta.head_dim <= usize::MAX,
            self.weights.meta.n_head_kv * self.weights.meta.head_dim <= usize::MAX,
        ensures
            final(steps)@ == old(steps)@ + layer_steps(self.weights.meta@, l, pos),
    {
        let meta: &ModelMeta = &self.weights.meta;
        let n: usize = meta.n_embd;
        let q: usize = meta.n_head * meta.head_dim;
        let kv: usize = meta.n_head_kv * meta.head_dim;
        let ff: usize = meta.n_ff;
        steps.push(CpuStep::Norm(CpuWeight::Layer(l, CpuPart::AttnNorm)));
        steps.push(
            CpuStep::Project { weight: CpuWeight::Layer(l, CpuPart::AttnQ), rows: q, cols: n },
        );
        steps.push(
            CpuStep::Project { weight: CpuWeight::Layer(l, CpuPart::AttnK), rows: kv, cols: n },
        );
        steps.push(
            CpuStep::Project { weight: CpuWeight::Layer(l, CpuPart::AttnV), rows: kv, cols: n },
        );
        steps.push(CpuStep::Rope { pos });
        steps.push(CpuStep::StoreKv { layer: l, pos });
        steps.push(CpuStep::Attend { layer: l, positions: pos + 1 });
        steps.push(
            CpuStep::Project { weight: CpuWeight::Layer(l, CpuPart::AttnOutput), rows: n, cols: q },
        );
        steps.push(CpuStep::Residual);
        steps.push(CpuStep::Norm(CpuWeight::Layer(l, CpuPart::FfnNorm)));
        steps.push(
            CpuStep::Project { weight: CpuWeight::Layer(l, CpuPart::FfnGate), rows: ff, cols: n },
        );
        steps.push(
            CpuStep::Project { weight: CpuWeight::Layer(l, CpuPart::FfnUp), rows: ff, cols: n },
        );
        steps.push(CpuStep::SwiGlu);
        steps.push(
            CpuStep::Project { weight: CpuWeight::Layer(l, CpuPart::FfnDown), rows: n, cols: ff },
        );
        steps.push(CpuStep::Residual);
        assert(steps@ =~= old(steps)@ + layer_steps(self.weights.meta@, l, pos));
    }

    /// The steps of a forward pass for a single token at position `pos`, up to
    /// the first one whose weight is missing. The last step leaves the logits
    /// over the full vocabulary.
    pub fn forward_one(&self, token: TokenId, pos: usize) -> (p: CpuPlan)
        requires
            countable_pass(self.index(), self.weights.meta@, token, pos),
        ensures
            ({
                let steps = all_steps(self.index(), self.weights.meta@, token, pos);
                let n = ready_steps(self.index(), self.weights.data@, steps, steps.len());
                &&& n <= steps.len()
                &&& p.steps@ == steps.take(n as int)
                &&& p.fault is None <==> n == steps.len()
                &&& p.fault is Some ==> p.fault->0@ == LoadErrorModel::MissingTensor(
                    steps[n as int].weight()->0.name(),
                )
            }),
            forall|i: int|
                0 <= i < p.steps@.len() && #[trigger] p.steps@[i] is Rope
                    ==> p.steps@[i]->Rope_pos == pos,
            forall|i: int|
                0 <= i < p.steps@.len() && #[trigger] p.steps@[i] is StoreKv
                    ==> p.steps@[i]->StoreKv_pos == pos,
            forall|i: int|
                0 <= i < p.steps@.len() && #[trigger] p.steps@[i] is Attend
                    ==> p.steps@[i]->positions == pos + 1,
    {
        let ghost index = self.index();
        let ghost meta = self.weights.meta@;
        let ghost data = self.weights.data@;
        let mut steps: Vec<CpuStep> = Vec::new();
        let row: usize = match self.weights.dtype("token_embd.weight") {
            Some(dtype) => dtype.nbytes(self.weights.meta.n_embd as u64) as usize,
            None => 0,
        };
        proof {
            assert(row == embedding_row(index, meta));
            assert(token as nat * row as nat == token * row);
        }
        steps.push(CpuStep::Embed { start: token as usize * row, len: row });
        assert(steps@ =~= body_steps(index, meta, token, pos, 0));
        let mut l: usize = 0;
        while l < self.weights.meta.n_layer
            invariant
                l <= self.weights.meta.n_layer,
                index == self.index(),
                meta == self.weights.meta@,
                countable_pass(index, meta, token, pos),
                steps@ == body_steps(index, meta, token, pos, l as nat),
            decreases self.weights.meta.n_layer - l,
        {
            self.push_layer(&mut steps, l, pos);
            l = l + 1;
        }
        steps.push(CpuStep::Norm(CpuWeight::OutputNorm));
        let head: CpuWeight = if self.weights.dtype("output.weight").is_some() {
            CpuWeight::Output
        } else {
            CpuWeight::TokenEmbd
        };
        steps.push(
            CpuStep::Project {
                weight: head,
                rows: self.weights.meta.n_vocab,
                cols: self.weights.meta.n_embd,
            },
        );
        let ghost all = all_steps(index, meta, token, pos);
        assert(steps@ =~= all);
        proof {
            assert forall|i: int| 0 <= i < all.len() implies at_position(#[trigger] all[i], pos) by {
                lemma_steps_at_position(index, meta, token, pos, i);
            }
        }
        let mut done: Vec<CpuStep> = Vec::with_capacity(steps.len());
        let mut i: usize = 0;
        while i < steps.len()
            invariant
                i <= steps@.len(),
                steps@ == all,
                all == all_steps(index, meta, token, pos),
                forall|i: int| 0 <= i < all.len() ==> at_position(#[trigger] all[i], pos),
                index == self.index(),
                meta == self.weights.meta@,
                data == self.weights.data@,
                done@ == all.take(i as int),
                ready_steps(index, data, all, i as nat) == i,
            decreases steps@.len() - i,
        {
            match steps[i].weight_of() {
                None => {},
                Some(w) => {
                    let name: String = w.tensor_name();
                    match self.weights.require(name.as_str()) {
                        Ok(_) => {},
                        Err(e) => {
                            proof {
                                lemma_ready_steps(index, data, all, i as nat, all.len());
                            }
                            return CpuPlan { steps: done, fault: Some(e) };
                        },
                    }
                },
            }
            done.push(steps[i]);
            i = i + 1;
            assert(done@ =~= all.take(i as int));
        }
        CpuPlan { steps: done, fault: None }
    }

    /// The passes over a sequence of tokens: each at the position after the one
    /// before it, the first one where the cache stands.
    pub fn sequence_calls(&self, tokens: &[TokenId]) -> (calls: Vec<CpuCall>)
        requires
            self.kv@.pos + tokens@.len() <= usize::MAX,
        ensures
            calls@ == Seq::new(
                tokens@.len(),
                |i: int| CpuCall { token: tokens@[i], pos: (self.kv@.pos + i) as usize },
            ),
    {
        let mut calls: Vec<CpuCall> = Vec::with_capacity(tokens.len());
        let mut i: usize = 0;
        while i < tokens.len()
            invariant
                i <= tokens@.len(),
                self.kv@.pos + tokens@.len() <= usize::MAX,
                calls@ == Seq::new(
                    i as nat,
                    |i: int| CpuCall { token: tokens@[i], pos: (self.kv@.pos + i) as usize },
                ),
            decreases tokens@.len() - i,
        {
            calls.push(CpuCall { token: tokens[i], pos: self.kv.pos + i });
            i = i + 1;
            assert(calls@ =~= Seq::new(
                i as nat,
                |i: int| CpuCall { token: tokens@[i], pos: (self.kv@.pos + i) as usize },
            ));
        }
        calls
    }

    /// The pass that gives the logits after a context: its last token, where the
    /// cache stands.
    pub fn next_call(&self, context: &[TokenId]) -> (r: Result<CpuCall, SpeculativeError>)
        ensures
            context@.len() == 0 ==> r is Err && r->Err_0 is Model && r->Err_0->Model_0@
                == "next_logits called with empty context"@,
            context@.len() > 0 ==> r == Ok::<CpuCall, SpeculativeError>(
                CpuCall { token: context@.last(), pos: self.kv@.pos },
            ),
    {
        if context.len() == 0 {
            return Err(
                SpeculativeError::Model(String::from_str("next_logits called with empty context")),
            );
        }
        Ok(CpuCall { token: context[context.len() - 1], pos: self.kv.pos })
    }

    /// Moves the cache on by the positions that were filled.
    pub fn advance(&mut self, n: usize)
        requires
            old(self).kv@.pos + n <= usize::MAX,
        ensures
            final(self).kv@ == (KvModel {
                pos: (old(self).kv@.pos + n) as usize,
                ..old(self).kv@
            }),
            final(self).weights == old(self).weights,
            final(self).bound_prefix == old(self).bound_prefix,
    {
        self.kv.pos = self.kv.pos + n;
    }

    pub fn bind_prefix_cache(&mut self, prefix: &CacheLookup) -> (r: Result<(), SpeculativeError>)
        ensures
            r is Ok,
            final(self).bound_prefix == Some(*prefix),
            final(self).weights == old(self).weights,
            final(self).kv == old(self).kv,
    {
        self.bound_prefix = Some(*prefix);
        Ok(())
    }
}

} // verus!
