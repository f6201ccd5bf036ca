//! Model metadata loader.
//!
//! Extracts `ModelMeta` (architecture dimensions) from a GGUF file and builds a
//! `WeightStore` that maps tensor names to raw byte slices inside a contiguous
//! buffer.

use vstd::prelude::*;
use vstd::string::*;
use crate::gguf;
use crate::gguf::{
    ErrorModel, FileModel, GgmlType, GgufError, GgufFile, Parsed, ScalarModel, TensorInfo,
    TensorModel, ValueModel,
};
use crate::metal::types::Quantization;
use crate::paged_attention::KvCacheType;
use crate::scalar::F32;
use crate::table::Table;
use crate::text;
use crate::text::{joined, number_list, text_with_number};

verus! {

// ── ModelMeta ─────────────────────────────────────────────────────────────────

/// The bits of the rotary base that models have unless they say otherwise:
/// ten thousand.
pub const DEFAULT_ROPE_FREQ_BASE_BITS: u32 = 0x461C_4000;

/// The bits of the epsilon that models have unless they say otherwise: one
/// hundred-thousandth.
pub const DEFAULT_NORM_EPS_BITS: u32 = 0x3727_C5AC;

/// The context length that models have unless they say otherwise.
pub const DEFAULT_CONTEXT: u32 = 4096;

/// Architecture dimensions extracted from GGUF metadata.
#[derive(Debug, Clone)]
pub struct ModelMeta {
    /// Canonical model architecture string (e.g. `"llama"`).
    pub arch: String,
    pub n_vocab: usize,
    pub n_embd: usize,
    pub n_layer: usize,
    pub n_head: usize,
    pub n_head_kv: usize,
    /// Maximum context length.
    pub n_ctx: usize,
    /// FFN intermediate (gate/up) dimension.
    pub n_ff: usize,
    pub head_dim: usize,
    pub rope_freq_base: F32,
    pub norm_eps: F32,
    pub quantization: Quantization,
}

/// The dimensions and the name of an architecture.
pub struct MetaModel {
    pub arch: Seq<char>,
    pub n_vocab: usize,
    pub n_embd: usize,
    pub n_layer: usize,
    pub n_head: usize,
    pub n_head_kv: usize,
    pub n_ctx: usize,
    pub n_ff: usize,
    pub head_dim: usize,
    pub rope_freq_base: F32,
    pub norm_eps: F32,
    pub quantization: Quantization,
}

impl View for ModelMeta {
    type V = MetaModel;

    open spec fn view(&self) -> MetaModel {
        MetaModel {
            arch: self.arch@,
            n_vocab: self.n_vocab,
            n_embd: self.n_embd,
            n_layer: self.n_layer,
            n_head: self.n_head,
            n_head_kv: self.n_head_kv,
            n_ctx: self.n_ctx,
            n_ff: self.n_ff,
            head_dim: self.head_dim,
            rope_freq_base: self.rope_freq_base,
            norm_eps: self.norm_eps,
            quantization: self.quantization,
        }
    }
}

/// The metadata of a file.
pub type Metadata = Map<Seq<char>, ValueModel>;

/// The 32-bit number under a key.
pub open spec fn u32_under(m: Metadata, key: Seq<char>) -> Option<u32> {
    if m.contains_key(key) {
        match m[key] {
            ValueModel::One(ScalarModel::U32(v)) => Some(v),
            _ => None,
        }
    } else {
        None
    }
}

/// The floating point number under a key.
pub open spec fn f32_under(m: Metadata, key: Seq<char>) -> Option<F32> {
    if m.contains_key(key) {
        match m[key] {
            ValueModel::One(ScalarModel::F32(v)) => Some(v),
            _ => None,
        }
    } else {
        None
    }
}

/// The text under a key.
pub open spec fn text_under(m: Metadata, key: Seq<char>) -> Option<Seq<char>> {
    if m.contains_key(key) {
        match m[key] {
            ValueModel::One(ScalarModel::Text(v)) => Some(v),
            _ => None,
        }
    } else {
        None
    }
}

/// The list under a key.
pub open spec fn list_under(m: Metadata, key: Seq<char>) -> Option<Seq<ScalarModel>> {
    if m.contains_key(key) {
        match m[key] {
            ValueModel::Many(v) => Some(v),
            _ => None,
        }
    } else {
        None
    }
}

/// `value`, or `default` where there is none.
pub open spec fn or_else<T>(value: Option<T>, default: T) -> T {
    match value {
        Some(v) => v,
        None => default,
    }
}

/// The architecture that a file names: llama unless it says otherwise.
pub open spec fn arch_of(m: Metadata) -> Seq<char> {
    or_else(text_under(m, "general.architecture"@), "llama"@)
}

/// The size of the vocabulary: the number of listed tokens, or else the number
/// that the file states.
pub open spec fn vocab_of(m: Metadata) -> Option<nat> {
    match list_under(m, "tokenizer.ggml.tokens"@) {
        Some(v) => Some(v.len()),
        None => match u32_under(m, arch_of(m) + ".vocab_size"@) {
            Some(v) => Some(v as nat),
            None => None,
        },
    }
}

/// The weight format, judged by one of the weights.
pub open spec fn format_of(tensors: Map<Seq<char>, TensorModel>) -> Quantization {
    let probe = if tensors.contains_key("blk.0.attn_q.weight"@) {
        Some(tensors["blk.0.attn_q.weight"@].dtype)
    } else if tensors.contains_key("token_embd.weight"@) {
        Some(tensors["token_embd.weight"@].dtype)
    } else {
        None
    };
    if probe == Some(GgmlType::Q4K) {
        Quantization::Q4K
    } else {
        Quantization::Q4_0
    }
}

/// The dimensions that a file describes, or the key that is missing. A head
/// count of zero is as good as none: heads divide the embedding.
pub open spec fn meta_of(f: FileModel) -> Result<MetaModel, Seq<char>> {
    let m = f.metadata;
    let arch = arch_of(m);
    let n_head = u32_under(m, arch + ".attention.head_count"@);
    if vocab_of(m) is None {
        Err("vocab_size"@)
    } else if u32_under(m, arch + ".embedding_length"@) is None {
        Err(arch + ".embedding_length"@)
    } else if u32_under(m, arch + ".block_count"@) is None {
        Err(arch + ".block_count"@)
    } else if n_head is None {
        Err(arch + ".attention.head_count"@)
    } else if u32_under(m, arch + ".feed_forward_length"@) is None {
        Err(arch + ".feed_forward_length"@)
    } else if n_head == Some(0u32) {
        Err(arch + ".attention.head_count"@)
    } else {
        let n_embd = u32_under(m, arch + ".embedding_length"@)->0;
        Ok(
            MetaModel {
                arch,
                n_vocab: vocab_of(m)->0 as usize,
                n_embd: n_embd as usize,
                n_layer: u32_under(m, arch + ".block_count"@)->0 as usize,
                n_head: n_head->0 as usize,
                n_head_kv: or_else(
                    u32_under(m, arch + ".attention.head_count_kv"@),
                    n_head->0,
                ) as usize,
                n_ctx: or_else(u32_under(m, arch + ".context_length"@), DEFAULT_CONTEXT) as usize,
                n_ff: u32_under(m, arch + ".feed_forward_length"@)->0 as usize,
                head_dim: (n_embd / n_head->0) as usize,
                rope_freq_base: or_else(
                    f32_under(m, arch + ".rope.freq_base"@),
                    F32 { bits: DEFAULT_ROPE_FREQ_BASE_BITS },
                ),
                norm_eps: or_else(
                    f32_under(m, arch + ".attention.layer_norm_rms_epsilon"@),
                    F32 { bits: DEFAULT_NORM_EPS_BITS },
                ),
                quantization: format_of(f.tensors),
            },
        )
    }
}

fn get_u32(file: &GgufFile, key: &str) -> (r: Option<u32>)
    ensures
        r == u32_under(file@.metadata, key@),
{
    match file.metadata.get(key) {
        Some(v) => v.as_u32(),
        None => None,
    }
}

fn get_f32(file: &GgufFile, key: &str) -> (r: Option<F32>)
    ensures
        r == f32_under(file@.metadata, key@),
{
    match file.metadata.get(key) {
        Some(v) => v.as_f32(),
        None => None,
    }
}

/// The number under a key, or the error that it is missing.
fn require_u32(file: &GgufFile, key: String) -> (r: Result<u32, LoadError>)
    ensures
        match u32_under(file@.metadata, key@) {
            Some(v) => r is Ok && r->Ok_0 == v,
            None => r is Err && r->Err_0@ == LoadErrorModel::MissingMeta(key@),
        },
{
    match get_u32(file, key.as_str()) {
        Some(v) => Ok(v),
        None => Err(LoadError::MissingMeta(key)),
    }
}

impl ModelMeta {
    /// Parse model metadata from a `GgufFile`.
    pub fn from_gguf(file: &GgufFile) -> (r: Result<Self, LoadError>)
        ensures
            match meta_of(file@) {
                Ok(m) => r is Ok && r->Ok_0@ == m,
                Err(key) => r is Err && r->Err_0@ == LoadErrorModel::MissingMeta(key),
            },
    {
        let named: Option<&str> = match file.metadata.get("general.architecture") {
            Some(v) => v.as_str(),
            None => None,
        };
        let arch: String = match named {
            Some(s) => String::from_str(s),
            None => String::from_str("llama"),
        };
        assert(arch@ == arch_of(file@.metadata));
        let prefix: &str = arch.as_str();
        let listed: Option<&[gguf::GgufValue]> = match file.metadata.get("tokenizer.ggml.tokens") {
            Some(v) => v.as_array(),
            None => None,
        };
        assert(match list_under(file@.metadata, "tokenizer.ggml.tokens"@) {
            Some(v) => listed is Some && gguf::scalars(listed->0@) == v,
            None => listed is None,
        });
        let n_vocab: usize = match listed {
            Some(tokens) => tokens.len(),
            None => match get_u32(file, joined(prefix, ".vocab_size").as_str()) {
                Some(v) => v as usize,
                None => {
                    return Err(LoadError::MissingMeta(String::from_str("vocab_size")));
                },
            },
        };
        let n_embd: u32 = match require_u32(file, joined(prefix, ".embedding_length")) {
            Ok(v) => v,
            Err(e) => {
                return Err(e);
            },
        };
        let n_layer: u32 = match require_u32(file, joined(prefix, ".block_count")) {
            Ok(v) => v,
            Err(e) => {
                return Err(e);
            },
        };
        let n_head: u32 = match require_u32(file, joined(prefix, ".attention.head_count")) {
            Ok(v) => v,
            Err(e) => {
                return Err(e);
            },
        };
        let n_head_kv: u32 = match get_u32(
            file,
            joined(prefix, ".attention.head_count_kv").as_str(),
        ) {
            Some(v) => v,
            None => n_head,
        };
        let n_ctx: u32 = match get_u32(file, joined(prefix, ".context_length").as_str()) {
            Some(v) => v,
            None => DEFAULT_CONTEXT,
        };
        let n_ff: u32 = match require_u32(file, joined(prefix, ".feed_forward_length")) {
            Ok(v) => v,
            Err(e) => {
                return Err(e);
            },
        };
        if n_head == 0 {
            return Err(LoadError::MissingMeta(joined(prefix, ".attention.head_count")));
        }
        let rope_freq_base: F32 = match get_f32(file, joined(prefix, ".rope.freq_base").as_str()) {
            Some(v) => v,
            None => F32::from_bits(DEFAULT_ROPE_FREQ_BASE_BITS),
        };
        let norm_eps: F32 = match get_f32(
            file,
            joined(prefix, ".attention.layer_norm_rms_epsilon").as_str(),
        ) {
            Some(v) => v,
            None => F32::from_bits(DEFAULT_NORM_EPS_BITS),
        };
        let head_dim: u32 = n_embd / n_head;
        let quantization: Quantization = infer_quantization(file);
        Ok(
            ModelMeta {
                arch,
                n_vocab,
                n_embd: n_embd as usize,
                n_layer: n_layer as usize,
                n_head: n_head as usize,
                n_head_kv: n_head_kv as usize,
                n_ctx: n_ctx as usize,
                n_ff: n_ff as usize,
                head_dim: head_dim as usize,
                rope_freq_base,
                norm_eps,
                quantization,
            },
        )
    }

    /// Bytes that one head takes in the cache for each token.
    pub open spec fn head_bytes(self, kv_type: KvCacheType) -> nat {
        match kv_type {
            KvCacheType::Fp32 => self.head_dim as nat * 4,
            // One byte for each value and a scale of four bytes.
            KvCacheType::Int8 => self.head_dim as nat + 4,
            KvCacheType::Fp8 => self.head_dim as nat,
        }
    }

    /// Bytes that one head takes in the cache for each token.
    pub fn kv_bytes_per_token_per_head(&self, kv_type: KvCacheType) -> (n: usize)
        requires
            self.head_bytes(kv_type) <= usize::MAX,
        ensures
            n == self.head_bytes(kv_type),
    {
        match kv_type {
            KvCacheType::Fp32 => self.head_dim * 4,
            KvCacheType::Int8 => self.head_dim + 4,
            KvCacheType::Fp8 => self.head_dim,
        }
    }

    /// Bytes that all heads take in the cache for each token.
    pub fn kv_bytes_per_token(&self, kv_type: KvCacheType) -> (n: usize)
        requires
            self.head_bytes(kv_type) <= usize::MAX,
            self.n_head_kv * self.head_bytes(kv_type) <= usize::MAX,
        ensures
            n == self.n_head_kv * self.head_bytes(kv_type),
    {
        self.n_head_kv * self.kv_bytes_per_token_per_head(kv_type)
    }
}

fn infer_quantization(file: &GgufFile) -> (q: Quantization)
    ensures
        q == format_of(file@.tensors),
{
    let probe: Option<GgmlType> = match file.tensors.get("blk.0.attn_q.weight") {
        Some(t) => Some(t.dtype),
        None => match file.tensors.get("token_embd.weight") {
            Some(t) => Some(t.dtype),
            None => None,
        },
    };
    match probe {
        Some(GgmlType::Q4K) => Quantization::Q4K,
        _ => Quantization::Q4_0,
    }
}

/// Dimensions read from a file leave no remainder unaccounted for: the heads
/// fit the embedding, and the width of the cached heads can be counted.
pub proof fn parsed_dimensions_fit(f: FileModel)
    ensures
        meta_of(f) matches Ok(m) ==> {
            &&& m.n_head > 0
            &&& m.head_dim * m.n_head <= m.n_embd < m.head_dim * m.n_head + m.n_head
            &&& m.n_head_kv * m.head_dim <= u64::MAX
        },
{
    if let Ok(m) = meta_of(f) {
        let e = m.n_embd as int;
        let h = m.n_head as int;
        vstd::arithmetic::div_mod::lemma_fundamental_div_mod(e, h);
        assert(h * (e / h) == (e / h) * h) by (nonlinear_arith);
        assert(m.n_head_kv * m.head_dim <= 0xffff_ffff * 0xffff_ffff) by (nonlinear_arith)
            requires
                m.n_head_kv <= 0xffff_ffff,
                m.head_dim <= 0xffff_ffff,
        ;
    }
}

/// Whether the metadata holds the number `v` under a key.
pub open spec fn says_u32(m: Metadata, key: Seq<char>, v: u32) -> bool {
    m.contains_key(key) && m[key] == ValueModel::One(ScalarModel::U32(v))
}

/// Whether the metadata holds the floating point number `v` under a key.
pub open spec fn says_f32(m: Metadata, key: Seq<char>, v: F32) -> bool {
    m.contains_key(key) && m[key] == ValueModel::One(ScalarModel::F32(v))
}

/// Every number that a file states under a key of its architecture is the number
/// that its dimensions have, each key for the dimension of its name.
pub proof fn stated_numbers_are_taken(f: FileModel, v: u32)
    requires
        meta_of(f) is Ok,
    ensures
        ({
            let m = meta_of(f)->Ok_0;
            &&& says_u32(f.metadata, m.arch + ".embedding_length"@, v) ==> m.n_embd == v
            &&& says_u32(f.metadata, m.arch + ".block_count"@, v) ==> m.n_layer == v
            &&& says_u32(f.metadata, m.arch + ".attention.head_count"@, v) ==> m.n_head == v
            &&& says_u32(f.metadata, m.arch + ".attention.head_count_kv"@, v) ==> m.n_head_kv == v
            &&& says_u32(f.metadata, m.arch + ".context_length"@, v) ==> m.n_ctx == v
            &&& says_u32(f.metadata, m.arch + ".feed_forward_length"@, v) ==> m.n_ff == v
        }),
{
}

/// Every floating point number that a file states under a key of its architecture
/// is the one that its model has.
pub proof fn stated_floats_are_taken(f: FileModel, v: F32)
    requires
        meta_of(f) is Ok,
    ensures
        ({
            let m = meta_of(f)->Ok_0;
            &&& says_f32(f.metadata, m.arch + ".rope.freq_base"@, v) ==> m.rope_freq_base == v
            &&& says_f32(f.metadata, m.arch + ".attention.layer_norm_rms_epsilon"@, v)
                ==> m.norm_eps == v
        }),
{
}

/// What a file does not state has its default: as many cached heads as heads, a
/// context of 4096 tokens, a rotary base of ten thousand, an epsilon of one
/// hundred-thousandth.
pub proof fn unstated_numbers_have_defaults(f: FileModel)
    requires
        meta_of(f) is Ok,
    ensures
        ({
            let m = meta_of(f)->Ok_0;
            &&& (forall|v: u32|
                !#[trigger] says_u32(f.metadata, m.arch + ".attention.head_count_kv"@, v))
                ==> m.n_head_kv == m.n_head
            &&& (forall|v: u32| !#[trigger] says_u32(f.metadata, m.arch + ".context_length"@, v))
                ==> m.n_ctx == 4096
            &&& (forall|v: F32| !#[trigger] says_f32(f.metadata, m.arch + ".rope.freq_base"@, v))
                ==> m.rope_freq_base.bits == 0x461C_4000
            &&& (forall|v: F32|
                !#[trigger] says_f32(
                    f.metadata,
                    m.arch + ".attention.layer_norm_rms_epsilon"@,
                    v,
                )) ==> m.norm_eps.bits == 0x3727_C5AC
        }),
{
    let m = meta_of(f)->Ok_0;
    let md = f.metadata;
    if let Some(v) = u32_under(md, m.arch + ".attention.head_count_kv"@) {
        assert(says_u32(md, m.arch + ".attention.head_count_kv"@, v));
    }
    if let Some(v) = u32_under(md, m.arch + ".context_length"@) {
        assert(says_u32(md, m.arch + ".context_length"@, v));
    }
    if let Some(v) = f32_under(md, m.arch + ".rope.freq_base"@) {
        assert(says_f32(md, m.arch + ".rope.freq_base"@, v));
    }
    if let Some(v) = f32_under(md, m.arch + ".attention.layer_norm_rms_epsilon"@) {
        assert(says_f32(md, m.arch + ".attention.layer_norm_rms_epsilon"@, v));
    }
}

/// The architecture is the one that the file names, or else llama. The vocabulary
/// is as large as the token list, or else as the file states.
pub proof fn stated_names_and_tokens_are_taken(
    f: FileModel,
    name: Seq<char>,
    tokens: Seq<ScalarModel>,
    v: u32,
)
    requires
        meta_of(f) is Ok,
    ensures
        ({
            let m = meta_of(f)->Ok_0;
            let md = f.metadata;
            let named = "general.architecture"@;
            let listed = "tokenizer.ggml.tokens"@;
            &&& md.contains_key(named) && md[named] == ValueModel::One(ScalarModel::Text(name))
                ==> m.arch == name
            &&& !md.contains_key(named) ==> m.arch == "llama"@
            &&& md.contains_key(listed) && md[listed] == ValueModel::Many(tokens) && tokens.len()
                <= usize::MAX ==> m.n_vocab == tokens.len()
            &&& !md.contains_key(listed) && says_u32(md, m.arch + ".vocab_size"@, v)
                ==> m.n_vocab == v
        }),
{
}

/// A file gives dimensions exactly where it states all of them that have no
/// default, with at least one head. Otherwise the key that is named is one of
/// these, and no such number stands under it.
pub proof fn required_keys_decide(f: FileModel)
    ensures
        ({
            let md = f.metadata;
            let arch = arch_of(md);
            let sized = vocab_of(md) is Some;
            &&& meta_of(f) is Ok <==> {
                &&& sized
                &&& exists|v: u32| says_u32(md, arch + ".embedding_length"@, v)
                &&& exists|v: u32| says_u32(md, arch + ".block_count"@, v)
                &&& exists|v: u32| v > 0 && says_u32(md, arch + ".attention.head_count"@, v)
                &&& exists|v: u32| says_u32(md, arch + ".feed_forward_length"@, v)
            }
            &&& meta_of(f) matches Err(key) ==> {
                ||| key == "vocab_size"@ && !sized
                ||| key == arch + ".embedding_length"@ && forall|v: u32| !says_u32(md, key, v)
                ||| key == arch + ".block_count"@ && forall|v: u32| !says_u32(md, key, v)
                ||| key == arch + ".attention.head_count"@ && forall|v: u32|
                    v > 0 ==> !says_u32(md, key, v)
                ||| key == arch + ".feed_forward_length"@ && forall|v: u32| !says_u32(md, key, v)
            }
        }),
{
    let md = f.metadata;
    let arch = arch_of(md);
    if let Some(v) = u32_under(md, arch + ".embedding_length"@) {
        assert(says_u32(md, arch + ".embedding_length"@, v));
    }
    if let Some(v) = u32_under(md, arch + ".block_count"@) {
        assert(says_u32(md, arch + ".block_count"@, v));
    }
    if let Some(v) = u32_under(md, arch + ".attention.head_count"@) {
        assert(says_u32(md, arch + ".attention.head_count"@, v));
    }
    if let Some(v) = u32_under(md, arch + ".feed_forward_length"@) {
        assert(says_u32(md, arch + ".feed_forward_length"@, v));
    }
}

/// The weights count as Q4_K exactly where the query projection of the first layer
/// is stored so, or else, where there is none, the embedding.
pub proof fn formats_follow_the_weights(f: FileModel)
    requires
        meta_of(f) is Ok,
    ensures
        ({
            let q = meta_of(f)->Ok_0.quantization;
            let t = f.tensors;
            let query = "blk.0.attn_q.weight"@;
            let embd = "token_embd.weight"@;
            &&& q is Q4K || q is Q4_0
            &&& t.contains_key(query) ==> (q is Q4K <==> t[query].dtype is Q4K)
            &&& !t.contains_key(query) && t.contains_key(embd) ==> (q is Q4K
                <==> t[embd].dtype is Q4K)
            &&& !t.contains_key(query) && !t.contains_key(embd) ==> q is Q4_0
        }),
{
}

// ── WeightStore ───────────────────────────────────────────────────────────────

/// Contiguous buffer holding all tensor data, with an index of named views.
pub struct WeightStore {
    pub meta: ModelMeta,
    /// Tensor metadata indexed by name.
    pub index: Table<TensorInfo>,
    /// Raw tensor bytes (all tensors concatenated, data_offset-based).
    pub data: Vec<u8>,
}

/// A tensor that a model must have, and its shape.
pub struct Expected {
    pub name: Seq<char>,
    pub shape: Seq<u64>,
}

/// The name of a weight of a layer.
pub open spec fn layer_name(l: nat, part: Seq<char>) -> Seq<char> {
    "layers."@ + text::decimal(l) + part
}

/// The tensors of a layer, in the order in which they are looked for.
pub open spec fn layer_expected(meta: MetaModel, l: nat) -> Seq<Expected> {
    let n = meta.n_embd as u64;
    let kv = (meta.n_head_kv * meta.head_dim) as u64;
    let ff = meta.n_ff as u64;
    seq![
        Expected { name: layer_name(l, ".attention_norm.weight"@), shape: seq![n] },
        Expected { name: layer_name(l, ".attention.wq.weight"@), shape: seq![n, n] },
        Expected { name: layer_name(l, ".attention.wk.weight"@), shape: seq![n, kv] },
        Expected { name: layer_name(l, ".attention.wv.weight"@), shape: seq![n, kv] },
        Expected { name: layer_name(l, ".attention.wo.weight"@), shape: seq![n, n] },
        Expected { name: layer_name(l, ".ffn_norm.weight"@), shape: seq![n] },
        Expected { name: layer_name(l, ".feed_forward.w1.weight"@), shape: seq![n, ff] },
        Expected { name: layer_name(l, ".feed_forward.w2.weight"@), shape: seq![ff, n] },
        Expected { name: layer_name(l, ".feed_forward.w3.weight"@), shape: seq![n, ff] },
    ]
}

/// The embedding and the tensors of the first `layers` layers.
pub open spec fn lower_expected(meta: MetaModel, layers: nat) -> Seq<Expected>
    decreases layers,
{
    if layers == 0 {
        seq![
            Expected {
                name: "token_embd.weight"@,
                shape: seq![meta.n_embd as u64, meta.n_vocab as u64],
            },
        ]
    } else {
        lower_expected(meta, (layers - 1) as nat) + layer_expected(meta, (layers - 1) as nat)
    }
}

/// The tensors of the output.
pub open spec fn output_expected(meta: MetaModel) -> Seq<Expected> {
    seq![
        Expected { name: "output_norm.weight"@, shape: seq![meta.n_embd as u64] },
        Expected {
            name: "output.weight"@,
            shape: seq![meta.n_embd as u64, meta.n_vocab as u64],
        },
    ]
}

/// Every tensor that a model must have, in the order in which they are looked
/// for.
pub open spec fn all_expected(meta: MetaModel) -> Seq<Expected> {
    lower_expected(meta, meta.n_layer as nat) + output_expected(meta)
}

/// What is wrong with a tensor that must be there.
pub open spec fn fault_of(
    index: Map<Seq<char>, TensorModel>,
    want: Expected,
) -> Option<LoadErrorModel> {
    if !index.contains_key(want.name) {
        Some(LoadErrorModel::MissingTensor(want.name))
    } else if index[want.name].shape != want.shape {
        Some(
            LoadErrorModel::InvalidShape {
                tensor: want.name,
                got: index[want.name].shape,
                expected: text::list_text(want.shape),
            },
        )
    } else {
        None
    }
}

/// The first thing that is wrong with the tensors that must be there.
pub open spec fn first_fault(
    index: Map<Seq<char>, TensorModel>,
    wants: Seq<Expected>,
) -> Option<LoadErrorModel>
    decreases wants.len(),
{
    if wants.len() == 0 {
        None
    } else if first_fault(index, wants.drop_last()) is Some {
        first_fault(index, wants.drop_last())
    } else {
        fault_of(index, wants.last())
    }
}

proof fn lemma_first_fault_split(
    index: Map<Seq<char>, TensorModel>,
    a: Seq<Expected>,
    b: Seq<Expected>,
)
    ensures
        first_fault(index, a) is Some ==> first_fault(index, a + b) == first_fault(index, a),
        first_fault(index, a) is None ==> first_fault(index, a + b) == first_fault(index, b),
    decreases b.len(),
{
    if b.len() == 0 {
        assert(a + b =~= a);
    } else {
        lemma_first_fault_split(index, a, b.drop_last());
        assert((a + b).drop_last() =~= a + b.drop_last());
    }
}

/// A validated store has every tensor that the architecture asks for, in the
/// shape that it asks for.
pub proof fn validated_stores_are_complete(
    index: Map<Seq<char>, TensorModel>,
    wants: Seq<Expected>,
    i: int,
)
    requires
        first_fault(index, wants) is None,
        0 <= i < wants.len(),
    ensures
        index.contains_key(wants[i].name),
        index[wants[i].name].shape == wants[i].shape,
    decreases wants.len(),
{
    if i < wants.len() - 1 {
        validated_stores_are_complete(index, wants.drop_last(), i);
    }
}

/// The bytes that a name stands for.
pub open spec fn bytes_of(
    index: Map<Seq<char>, TensorModel>,
    data: Seq<u8>,
    name: Seq<char>,
) -> Option<Seq<u8>> {
    if index.contains_key(name) && index[name].offset + index[name].nbytes <= data.len() {
        Some(data.subrange(index[name].offset as int, index[name].offset + index[name].nbytes))
    } else {
        None
    }
}

/// A tensor that must be there: its name and its shape.
struct Want {
    name: String,
    shape: Vec<u64>,
}

spec fn wanted(v: Seq<Want>) -> Seq<Expected> {
    v.map_values(|w: Want| Expected { name: w.name@, shape: w.shape@ })
}

fn want_row(name: String, n: u64) -> (w: Want)
    ensures
        w.name@ == name@,
        w.shape@ == seq![n],
{
    let mut shape: Vec<u64> = Vec::new();
    shape.push(n);
    assert(shape@ =~= seq![n]);
    Want { name, shape }
}

fn want_matrix(name: String, a: u64, b: u64) -> (w: Want)
    ensures
        w.name@ == name@,
        w.shape@ == seq![a, b],
{
    let mut shape: Vec<u64> = Vec::new();
    shape.push(a);
    shape.push(b);
    assert(shape@ =~= seq![a, b]);
    Want { name, shape }
}

fn layer_wants(meta: &ModelMeta, l: usize) -> (v: Vec<Want>)
    requires
        meta.n_head_kv * meta.head_dim <= u64::MAX,
    ensures
        wanted(v@) == layer_expected(meta@, l as nat),
{
    let n: u64 = meta.n_embd as u64;
    let kv: u64 = meta.n_head_kv as u64 * meta.head_dim as u64;
    let ff: u64 = meta.n_ff as u64;
    let at: u64 = l as u64;
    let mut v: Vec<Want> = Vec::new();
    v.push(want_row(text_with_number("layers.", at, ".attention_norm.weight"), n));
    v.push(want_matrix(text_with_number("layers.", at, ".attention.wq.weight"), n, n));
    v.push(want_matrix(text_with_number("layers.", at, ".attention.wk.weight"), n, kv));
    v.push(want_matrix(text_with_number("layers.", at, ".attention.wv.weight"), n, kv));
    v.push(want_matrix(text_with_number("layers.", at, ".attention.wo.weight"), n, n));
    v.push(want_row(text_with_number("layers.", at, ".ffn_norm.weight"), n));
    v.push(want_matrix(text_with_number("layers.", at, ".feed_forward.w1.weight"), n, ff));
    v.push(want_matrix(text_with_number("layers.", at, ".feed_forward.w2.weight"), ff, n));
    v.push(want_matrix(text_with_number("layers.", at, ".feed_forward.w3.weight"), n, ff));
    assert(wanted(v@) =~= layer_expected(meta@, l as nat));
    v
}

fn same_shape(a: &Vec<u64>, b: &Vec<u64>) -> (same: bool)
    ensures
        same == (a@ == b@),
{
    if a.len() != b.len() {
        return false;
    }
    let mut i: usize = 0;
    while i < a.len()
        invariant
            i <= a@.len() == b@.len(),
            forall|k: int| 0 <= k < i ==> a@[k] == b@[k],
        decreases a@.len() - i,
    {
        if a[i] != b[i] {
            return false;
        }
        i = i + 1;
    }
    assert(a@ =~= b@);
    true
}

fn copied_shape(v: &Vec<u64>) -> (c: Vec<u64>)
    ensures
        c@ == v@,
{
    let mut c: Vec<u64> = Vec::with_capacity(v.len());
    let mut i: usize = 0;
    while i < v.len()
        invariant
            i <= v@.len(),
            c@ == v@.take(i as int),
        decreases v@.len() - i,
    {
        c.push(v[i]);
        i = i + 1;
        assert(c@ =~= v@.take(i as int));
    }
    assert(v@.take(i as int) =~= v@);
    c
}

impl WeightStore {
    pub open spec fn entries(&self) -> Map<Seq<char>, TensorModel> {
        gguf::tensors_model(self.index@)
    }

    /// Byte slice for `name`, or `None` if absent.
    pub fn get(&self, name: &str) -> (r: Option<&[u8]>)
        ensures
            match bytes_of(self.entries(), self.data@, name@) {
                Some(s) => r is Some && r->0@ == s,
                None => r is None,
            },
    {
        match self.index.get(name) {
            None => None,
            Some(info) => {
                let end: u128 = info.offset as u128 + info.nbytes as u128;
                if end > self.data.len() as u128 {
                    None
                } else {
                    Some(
                        vstd::slice::slice_subrange(
                            self.data.as_slice(),
                            info.offset as usize,
                            end as usize,
                        ),
                    )
                }
            },
        }
    }

    /// Byte slice for `name`, returning an error if missing.
    pub fn require(&self, name: &str) -> (r: Result<&[u8], LoadError>)
        ensures
            match bytes_of(self.entries(), self.data@, name@) {
                Some(s) => r is Ok && r->Ok_0@ == s,
                None => r is Err && r->Err_0@ == LoadErrorModel::MissingTensor(name@),
            },
    {
        match self.get(name) {
            Some(s) => Ok(s),
            None => Err(LoadError::MissingTensor(String::from_str(name))),
        }
    }

    /// Dtype of named tensor.
    pub fn dtype(&self, name: &str) -> (r: Option<GgmlType>)
        ensures
            r == (if self.entries().contains_key(name@) {
                Some(self.entries()[name@].dtype)
            } else {
                None
            }),
    {
        match self.index.get(name) {
            Some(t) => Some(t.dtype),
            None => None,
        }
    }

    /// Shape of named tensor.
    pub fn shape(&self, name: &str) -> (r: Option<&[u64]>)
        ensures
            r is Some <==> self.entries().contains_key(name@),
            r is Some ==> r->0@ == self.entries()[name@].shape,
    {
        match self.index.get(name) {
            Some(t) => Some(t.shape.as_slice()),
            None => None,
        }
    }

    fn check(&self, want: &Want) -> (r: Result<(), LoadError>)
        ensures
            match fault_of(
                self.entries(),
                Expected { name: want.name@, shape: want.shape@ },
            ) {
                None => r is Ok,
                Some(e) => r is Err && r->Err_0@ == e,
            },
    {
        match self.index.get(want.name.as_str()) {
            None => Err(LoadError::MissingTensor(want.name.clone())),
            Some(info) => {
                if same_shape(&info.shape, &want.shape) {
                    Ok(())
                } else {
                    Err(
                        LoadError::InvalidShape {
                            tensor: want.name.clone(),
                            got: copied_shape(&info.shape),
                            expected: number_list(want.shape.as_slice()),
                        },
                    )
                }
            },
        }
    }

    fn check_all(&self, wants: &Vec<Want>) -> (r: Result<(), LoadError>)
        ensures
            match first_fault(self.entries(), wanted(wants@)) {
                None => r is Ok,
                Some(e) => r is Err && r->Err_0@ == e,
            },
    {
        let mut i: usize = 0;
        let ghost all = wanted(wants@);
        while i < wants.len()
            invariant
                i <= wants@.len(),
                all == wanted(wants@),
                first_fault(self.entries(), all.take(i as int)) is None,
            decreases wants@.len() - i,
        {
            proof {
                assert(all.take(i + 1).drop_last() =~= all.take(i as int));
                assert(all.take(i + 1) + all.skip(i + 1) =~= all);
                lemma_first_fault_split(self.entries(), all.take(i + 1), all.skip(i + 1));
            }
            match self.check(&wants[i]) {
                Ok(()) => {},
                Err(e) => {
                    return Err(e);
                },
            }
            i = i + 1;
        }
        assert(all.take(i as int) =~= all);
        Ok(())
    }

    /// Validate that all expected tensors for the architecture are present and
    /// have correct shapes.
    pub fn validate(&self) -> (r: Result<(), LoadError>)
        requires
            self.meta.n_head_kv * self.meta.head_dim <= u64::MAX,
        ensures
            match first_fault(self.entries(), all_expected(self.meta@)) {
                None => r is Ok,
                Some(e) => r is Err && r->Err_0@ == e,
            },
    {
        let ghost index = self.entries();
        let ghost meta = self.meta@;
        let ghost all = all_expected(meta);
        let n_embd: u64 = self.meta.n_embd as u64;
        let n_vocab: u64 = self.meta.n_vocab as u64;
        let mut first: Vec<Want> = Vec::new();
        first.push(want_matrix(String::from_str("token_embd.weight"), n_embd, n_vocab));
        assert(wanted(first@) =~= lower_expected(meta, 0));
        proof {
            lemma_lower_fault(index, meta, 0, meta.n_layer as nat);
        }
        match self.check_all(&first) {
            Ok(()) => {},
            Err(e) => {
                return Err(e);
            },
        }
        let mut l: usize = 0;
        while l < self.meta.n_layer
            invariant
                l <= self.meta.n_layer,
                index == self.entries(),
                meta == self.meta@,
                self.meta.n_head_kv * self.meta.head_dim <= u64::MAX,
                first_fault(index, lower_expected(meta, l as nat)) is None,
            decreases self.meta.n_layer - l,
        {
            proof {
                lemma_first_fault_split(
                    index,
                    lower_expected(meta, l as nat),
                    layer_expected(meta, l as nat),
                );
                lemma_lower_fault(index, meta, (l + 1) as nat, meta.n_layer as nat);
            }
            match self.check_all(&layer_wants(&self.meta, l)) {
                Ok(()) => {},
                Err(e) => {
                    return Err(e);
                },
            }
            l = l + 1;
        }
        let mut last: Vec<Want> = Vec::new();
        last.push(want_row(String::from_str("output_norm.weight"), n_embd));
        last.push(want_matrix(String::from_str("output.weight"), n_embd, n_vocab));
        assert(wanted(last@) =~= output_expected(meta));
        proof {
            lemma_first_fault_split(
                index,
                lower_expected(meta, meta.n_layer as nat),
                output_expected(meta),
            );
        }
        self.check_all(&last)
    }
}

/// A fault in the first layers is the first fault of all.
proof fn lemma_lower_fault(
    index: Map<Seq<char>, TensorModel>,
    meta: MetaModel,
    l: nat,
    layers: nat,
)
    requires
        l <= layers,
    ensures
        first_fault(index, lower_expected(meta, l)) is Some ==> first_fault(
            index,
            lower_expected(meta, layers) + output_expected(meta),
        ) == first_fault(index, lower_expected(meta, l)) && first_fault(
            index,
            lower_expected(meta, layers),
        ) == first_fault(index, lower_expected(meta, l)),
    decreases layers,
{
    lemma_first_fault_split(index, lower_expected(meta, layers), output_expected(meta));
    if l < layers {
        lemma_lower_fault(index, meta, l, (layers - 1) as nat);
        lemma_first_fault_split(
            index,
            lower_expected(meta, (layers - 1) as nat),
            layer_expected(meta, (layers - 1) as nat),
        );
    }
}

// ── Public entry point ────────────────────────────────────────────────────────

/// What loading gives for a file's bytes.
pub open spec fn loads(data: Seq<u8>, r: Result<WeightStore, LoadError>) -> bool {
    match gguf::file_at(data) {
        Parsed::Failed(e) => r is Err && r->Err_0@ == LoadErrorModel::Gguf(e),
        Parsed::Got(f, p) => match meta_of(f) {
            Err(key) => r is Err && r->Err_0@ == LoadErrorModel::MissingMeta(key),
            Ok(meta) => exists|end: nat| #[trigger]
                gguf::is_data_len(f.tensors, end) && match gguf::section(
                    data,
                    f.data_offset as nat,
                    end,
                ) {
                    Err(e) => r is Err && r->Err_0@ == LoadErrorModel::Gguf(e),
                    Ok(weights) => match first_fault(f.tensors, all_expected(meta)) {
                        Some(e) => r is Err && r->Err_0@ == e,
                        None => r is Ok && r->Ok_0.meta@ == meta && r->Ok_0.entries() == f.tensors
                            && r->Ok_0.data@ == weights,
                    },
                },
        },
    }
}

/// Load a GGUF model from the bytes of its file.
pub fn load_gguf(data: &[u8]) -> (r: Result<WeightStore, LoadError>)
    ensures
        loads(data@, r),
{
    let file: GgufFile = match GgufFile::read(data) {
        Ok(f) => f,
        Err(e) => {
            return Err(LoadError::Gguf(e));
        },
    };
    let meta: ModelMeta = match ModelMeta::from_gguf(&file) {
        Ok(m) => m,
        Err(e) => {
            return Err(e);
        },
    };
    let weights: Vec<u8> = match file.read_all_tensors(data) {
        Ok(w) => w,
        Err(e) => {
            return Err(LoadError::Gguf(e));
        },
    };
    proof {
        parsed_dimensions_fit(file@);
    }
    let store = WeightStore { meta, index: file.tensors, data: weights };
    match store.validate() {
        Ok(()) => Ok(store),
        Err(e) => Err(e),
    }
}

/// What a loaded store gives for a name is what the file holds for it: the
/// stretch of the data section that the tensor's entry describes.
pub proof fn loaded_tensors_are_the_files(data: Seq<u8>, r: Result<WeightStore, LoadError>, name: Seq<char>)
    requires
        loads(data, r),
        r is Ok,
        r->Ok_0.entries().contains_key(name),
    ensures
        gguf::file_at(data) is Got,
        ({
            let start = gguf::file_at(data)->Got_0.data_offset as nat;
            let t = r->Ok_0.entries()[name];
            let held = bytes_of(r->Ok_0.entries(), r->Ok_0.data@, name);
            &&& held is Some
            &&& gguf::section(data, start + t.offset as nat, t.nbytes as nat) == Ok::<
                Seq<u8>,
                ErrorModel,
            >(held->0)
        }),
{
    let f = gguf::file_at(data)->Got_0;
    let start = f.data_offset as nat;
    let store = r->Ok_0;
    let end = choose|end: nat| #[trigger]
        gguf::is_data_len(f.tensors, end) && match gguf::section(
            data,
            f.data_offset as nat,
            end,
        ) {
            Err(e) => false,
            Ok(weights) => store.data@ == weights,
        };
    gguf::tensors_lie_in_the_whole(data, start, f.tensors, end, name);
}

// ── LoadError ─────────────────────────────────────────────────────────────────

#[derive(Debug, Clone)]
pub enum LoadError {
    /// Reading a file failed: what the reader said, and the path.
    Io(String, String),
    Gguf(GgufError),
    MissingMeta(String),
    MissingTensor(String),
    InvalidShape { tensor: String, got: Vec<u64>, expected: String },
}

/// An error and its texts.
pub enum LoadErrorModel {
    Io(Seq<char>, Seq<char>),
    Gguf(ErrorModel),
    MissingMeta(Seq<char>),
    MissingTensor(Seq<char>),
    InvalidShape { tensor: Seq<char>, got: Seq<u64>, expected: Seq<char> },
}

impl View for LoadError {
    type V = LoadErrorModel;

    open spec fn view(&self) -> LoadErrorModel {
        match *self {
            LoadError::Io(e, p) => LoadErrorModel::Io(e@, p@),
            LoadError::Gguf(e) => LoadErrorModel::Gguf(e@),
            LoadError::MissingMeta(k) => LoadErrorModel::MissingMeta(k@),
            LoadError::MissingTensor(k) => LoadErrorModel::MissingTensor(k@),
            LoadError::InvalidShape { tensor, got, expected } => LoadErrorModel::InvalidShape {
                tensor: tensor@,
                got: got@,
                expected: expected@,
            },
        }
    }
}

impl LoadErrorModel {
    pub open spec fn text(self) -> Seq<char> {
        match self {
            LoadErrorModel::Io(e, p) => "I/O error loading "@ + p + ": "@ + e,
            LoadErrorModel::Gguf(e) => "GGUF parse error: "@ + e.text(),
            LoadErrorModel::MissingMeta(k) => "missing metadata key: "@ + k,
            LoadErrorModel::MissingTensor(k) => "missing tensor: "@ + k,
            LoadErrorModel::InvalidShape { tensor, got, expected } => "tensor "@ + tensor
                + ": expected shape "@ + expected + ", got "@ + text::list_text(got),
        }
    }
}

impl LoadError {
    pub fn to_string(&self) -> (s: String)
        ensures
            s@ == self@.text(),
    {
        match self {
            LoadError::Io(e, p) => {
                let mut s = joined("I/O error loading ", p.as_str());
                s.append(": ");
                s.append(e.as_str());
                s
            },
            LoadError::Gguf(e) => joined("GGUF parse error: ", e.to_string().as_str()),
            LoadError::MissingMeta(k) => joined("missing metadata key: ", k.as_str()),
            LoadError::MissingTensor(k) => joined("missing tensor: ", k.as_str()),
            LoadError::InvalidShape { tensor, got, expected } => {
                let mut s = joined("tensor ", tensor.as_str());
                s.append(": expected shape ");
                s.append(expected.as_str());
                s.append(", got ");
                s.append(number_list(got.as_slice()).as_str());
                s
            },
        }
    }
}


/// A value takes one byte of the cache in eight bits and four at full precision, whatever
/// the head; what is stored as integers takes a scale of four bytes on top.
pub proof fn cached_values_take_their_bytes(meta: ModelMeta)
    ensures
        meta.head_bytes(KvCacheType::Fp8) == meta.head_dim,
        meta.head_bytes(KvCacheType::Fp32) == 4 * meta.head_bytes(KvCacheType::Fp8),
        meta.head_bytes(KvCacheType::Int8) == meta.head_bytes(KvCacheType::Fp8) + 4,
{
}

/// One head more for the keys takes its values more rows in the matrices of the keys and
/// the values, and changes nothing else; what widens a state in the network is as large as
/// what narrows it again.
pub proof fn expected_shapes_follow_the_heads(meta: MetaModel, more: MetaModel, l: nat, i: int)
    requires
        more == (MetaModel { n_head_kv: more.n_head_kv, ..meta }),
        more.n_head_kv == meta.n_head_kv + 1,
        more.n_head_kv * more.head_dim <= u64::MAX,
        0 <= i < 9,
    ensures
        ({
            let a = layer_expected(meta, l);
            let b = layer_expected(more, l);
            &&& a[2].shape == a[3].shape
            &&& b[2].shape[1] == a[2].shape[1] + meta.head_dim
            &&& meta.n_head_kv == 0 ==> a[2].shape[1] == 0
            &&& i != 2 && i != 3 ==> a[i] == b[i]
            &&& a[2].shape[0] == a[1].shape[0] && a[1].shape[0] == a[1].shape[1]
            &&& a[6].shape == a[8].shape && a[6].shape == seq![a[7].shape[1], a[7].shape[0]]
        }),
{
    let k = meta.n_head_kv;
    let d = meta.head_dim;
    assert((k + 1) * d == k * d + d) by (nonlinear_arith);
    assert(0 <= k * d) by (nonlinear_arith);
    assert(layer_expected(meta, l)[6].shape =~= seq![
        layer_expected(meta, l)[7].shape[1],
        layer_expected(meta, l)[7].shape[0],
    ]);
}
} // verus!
